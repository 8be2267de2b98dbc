//! When scripts are started, stopped and reloaded.
//!
//! A script that was loaded from a file is watched, and reloaded when the file changes.
//! [`ScriptManager`] decides what is to be done; doing it is up to the caller.

use vstd::prelude::*;

verus! {

/// What the manager is told.
#[derive(Debug)]
pub enum ScriptCommand {
    /// Load a script from a file, run it in place of the current one and watch the file.
    RunFile(String),
    /// Run code in place of the current script.
    RunCode { code: String },
    /// Load the current script from its file again.
    Reload,
    /// Stop the current script and the watch.
    Stop,
}

/// What is to be done.
#[derive(Debug)]
pub enum ManagerAction {
    /// Cancel the running script, wait for its end and clean up after it.
    StopTask,
    /// End the watch.
    StopWatcher,
    /// Start the script of a file.
    StartFile(String),
    /// Start code.
    StartCode(String),
    /// Watch the directory of a file.
    StartWatcher(String),
    /// Cancel the running script without waiting for its end.
    AbortTask,
}

/// An action with its text.
pub enum Deed {
    StopTask,
    StopWatcher,
    StartFile(Seq<char>),
    StartCode(Seq<char>),
    StartWatcher(Seq<char>),
    AbortTask,
}

impl View for ManagerAction {
    type V = Deed;

    open spec fn view(&self) -> Deed {
        match self {
            ManagerAction::StopTask => Deed::StopTask,
            ManagerAction::StopWatcher => Deed::StopWatcher,
            ManagerAction::StartFile(path) => Deed::StartFile(path@),
            ManagerAction::StartCode(code) => Deed::StartCode(code@),
            ManagerAction::StartWatcher(path) => Deed::StartWatcher(path@),
            ManagerAction::AbortTask => Deed::AbortTask,
        }
    }
}

/// The actions with their texts.
pub open spec fn deeds(actions: Seq<ManagerAction>) -> Seq<Deed> {
    actions.map_values(|a: ManagerAction| a@)
}

/// What the manager knows of the scripts.
#[derive(Debug)]
pub struct ScriptManager {
    /// The file of the current script, if it has one.
    pub script_path: Option<String>,
    /// Whether a script was started that was not stopped.
    pub running: bool,
    /// Whether a file is watched.
    pub watching: bool,
}

/// What the manager knows, with the file as text.
pub struct ManagerView {
    pub script_path: Option<Seq<char>>,
    pub running: bool,
    pub watching: bool,
}

impl View for ScriptManager {
    type V = ManagerView;

    open spec fn view(&self) -> ManagerView {
        ManagerView {
            script_path: match self.script_path {
                Some(p) => Some(p@),
                None => None,
            },
            running: self.running,
            watching: self.watching,
        }
    }
}

impl ManagerView {
    /// What stops a script that runs.
    pub open spec fn stop_task(self) -> Seq<Deed> {
        if self.running {
            seq![Deed::StopTask]
        } else {
            Seq::empty()
        }
    }

    /// What ends the watch, if there is one.
    pub open spec fn stop_watcher(self) -> Seq<Deed> {
        if self.watching {
            seq![Deed::StopWatcher]
        } else {
            Seq::empty()
        }
    }

    /// What is to be done on a command.
    pub open spec fn response(self, command: ScriptCommand) -> Seq<Deed> {
        match command {
            ScriptCommand::RunFile(path) => self.stop_task() + self.stop_watcher() + seq![
                Deed::StartFile(path@),
                Deed::StartWatcher(path@),
            ],
            ScriptCommand::RunCode { code } => self.stop_task() + self.stop_watcher() + seq![
                Deed::StartCode(code@),
            ],
            ScriptCommand::Reload => match self.script_path {
                Some(path) => self.stop_task() + seq![Deed::StartFile(path)],
                None => Seq::empty(),
            },
            ScriptCommand::Stop => self.stop_task() + self.stop_watcher(),
        }
    }

    /// What is known after a command.
    pub open spec fn after(self, command: ScriptCommand) -> ManagerView {
        match command {
            ScriptCommand::RunFile(path) => ManagerView {
                script_path: Some(path@),
                running: true,
                watching: true,
            },
            ScriptCommand::RunCode { .. } => ManagerView {
                script_path: None,
                running: true,
                watching: false,
            },
            ScriptCommand::Reload => if self.script_path is Some {
                ManagerView { running: true, ..self }
            } else {
                self
            },
            ScriptCommand::Stop => ManagerView {
                script_path: None,
                running: false,
                watching: false,
            },
        }
    }

    /// Whether a deed can be done: one script runs at a time, one file is watched at a
    /// time, and only what was started is stopped.
    pub open spec fn can_do(self, deed: Deed) -> bool {
        match deed {
            Deed::StopTask | Deed::AbortTask => self.running,
            Deed::StopWatcher => self.watching,
            Deed::StartFile(_) | Deed::StartCode(_) => !self.running,
            Deed::StartWatcher(_) => !self.watching,
        }
    }

    /// What runs and is watched after a deed.
    pub open spec fn done(self, deed: Deed) -> ManagerView {
        match deed {
            Deed::StopTask | Deed::AbortTask => ManagerView { running: false, ..self },
            Deed::StopWatcher => ManagerView { watching: false, ..self },
            Deed::StartFile(_) | Deed::StartCode(_) => ManagerView { running: true, ..self },
            Deed::StartWatcher(_) => ManagerView { watching: true, ..self },
        }
    }

    /// What runs and is watched after some deeds.
    pub open spec fn done_all(self, deeds: Seq<Deed>) -> ManagerView
        decreases deeds.len(),
    {
        if deeds.len() == 0 {
            self
        } else {
            self.done_all(deeds.drop_last()).done(deeds.last())
        }
    }
}

impl ScriptManager {
    /// A manager without any script.
    pub fn new() -> (m: ScriptManager)
        ensures
            m@ == (ManagerView { script_path: None, running: false, watching: false }),
    {
        ScriptManager { script_path: None, running: false, watching: false }
    }

    /// Decides what is to be done on a command, in this order.
    pub fn handle(&mut self, command: ScriptCommand) -> (actions: Vec<ManagerAction>)
        ensures
            deeds(actions@) == old(self)@.response(command),
            final(self)@ == old(self)@.after(command),
    {
        match command {
            ScriptCommand::RunFile(path) => self.run_file(path),
            ScriptCommand::RunCode { code } => self.run_code(code),
            ScriptCommand::Reload => self.reload_script(),
            ScriptCommand::Stop => self.stop_script(),
        }
    }

    fn run_file(&mut self, path: String) -> (actions: Vec<ManagerAction>)
        ensures
            deeds(actions@) == old(self)@.response(ScriptCommand::RunFile(path)),
            final(self)@ == old(self)@.after(ScriptCommand::RunFile(path)),
    {
        let mut actions: Vec<ManagerAction> = Vec::new();
        self.stop_current_task(&mut actions);
        self.stop_watcher(&mut actions);
        actions.push(ManagerAction::StartFile(path.clone()));
        actions.push(ManagerAction::StartWatcher(path.clone()));
        self.script_path = Some(path);
        self.running = true;
        self.watching = true;
        assert(deeds(actions@) =~= old(self)@.response(ScriptCommand::RunFile(path)));
        actions
    }

    fn run_code(&mut self, code: String) -> (actions: Vec<ManagerAction>)
        ensures
            deeds(actions@) == old(self)@.response(ScriptCommand::RunCode { code }),
            final(self)@ == old(self)@.after(ScriptCommand::RunCode { code }),
    {
        let mut actions: Vec<ManagerAction> = Vec::new();
        self.stop_current_task(&mut actions);
        self.stop_watcher(&mut actions);
        self.script_path = None;
        self.running = true;
        let ghost command = ScriptCommand::RunCode { code };
        actions.push(ManagerAction::StartCode(code));
        assert(deeds(actions@) =~= old(self)@.response(command));
        actions
    }

    fn reload_script(&mut self) -> (actions: Vec<ManagerAction>)
        ensures
            deeds(actions@) == old(self)@.response(ScriptCommand::Reload),
            final(self)@ == old(self)@.after(ScriptCommand::Reload),
    {
        let mut actions: Vec<ManagerAction> = Vec::new();
        let path = match &self.script_path {
            Some(path) => path.clone(),
            None => {
                assert(deeds(actions@) =~= old(self)@.response(ScriptCommand::Reload));
                return actions;
            },
        };
        self.stop_current_task(&mut actions);
        self.running = true;
        actions.push(ManagerAction::StartFile(path));
        assert(deeds(actions@) =~= old(self)@.response(ScriptCommand::Reload));
        actions
    }

    fn stop_script(&mut self) -> (actions: Vec<ManagerAction>)
        ensures
            deeds(actions@) == old(self)@.response(ScriptCommand::Stop),
            final(self)@ == old(self)@.after(ScriptCommand::Stop),
    {
        let mut actions: Vec<ManagerAction> = Vec::new();
        self.stop_current_task(&mut actions);
        self.stop_watcher(&mut actions);
        self.script_path = None;
        assert(deeds(actions@) =~= old(self)@.response(ScriptCommand::Stop));
        actions
    }

    fn stop_current_task(&mut self, actions: &mut Vec<ManagerAction>)
        ensures
            deeds(final(actions)@) == deeds(old(actions)@) + old(self)@.stop_task(),
            *final(self) == (ScriptManager { running: false, ..*old(self) }),
    {
        if self.running {
            actions.push(ManagerAction::StopTask);
            self.running = false;
        }
        assert(deeds(actions@) =~= deeds(old(actions)@) + old(self)@.stop_task());
    }

    fn stop_watcher(&mut self, actions: &mut Vec<ManagerAction>)
        ensures
            deeds(final(actions)@) == deeds(old(actions)@) + old(self)@.stop_watcher(),
            *final(self) == (ScriptManager { watching: false, ..*old(self) }),
    {
        if self.watching {
            actions.push(ManagerAction::StopWatcher);
            self.watching = false;
        }
        assert(deeds(actions@) =~= deeds(old(actions)@) + old(self)@.stop_watcher());
    }

    /// Decides what is to be done when the manager itself goes: nothing is waited for.
    pub fn shut_down(&mut self) -> (actions: Vec<ManagerAction>)
        ensures
            deeds(actions@) == (if old(self).running {
                seq![Deed::AbortTask]
            } else {
                Seq::empty()
            }) + old(self)@.stop_watcher(),
            final(self)@ == (ManagerView { running: false, watching: false, ..old(self)@ }),
    {
        let mut actions: Vec<ManagerAction> = Vec::new();
        if self.running {
            actions.push(ManagerAction::AbortTask);
            self.running = false;
        }
        let ghost before = deeds(actions@);
        assert(before =~= (if old(self).running {
            seq![Deed::AbortTask]
        } else {
            Seq::empty()
        }));
        self.stop_watcher(&mut actions);
        actions
    }
}

/// Law: what is to be done on a command can be done: no script is started while another
/// runs, no watch is begun while there is one, and nothing is stopped that was not
/// started. Afterwards that runs and is watched which the manager believes.
#[verifier::spinoff_prover]
#[verifier::rlimit(40)]
pub proof fn one_script_at_a_time(m: ManagerView, command: ScriptCommand)
    ensures
        forall|i: int|
            0 <= i < m.response(command).len() ==> m.done_all(m.response(command).take(i)).can_do(
                #[trigger] m.response(command)[i],
            ),
        m.done_all(m.response(command)).running == m.after(command).running,
        m.done_all(m.response(command)).watching == m.after(command).watching,
{
    reveal_with_fuel(ManagerView::done_all, 6);
    let all = m.response(command);
    assert forall|i: int| 0 <= i < all.len() implies m.done_all(all.take(i)).can_do(
        #[trigger] all[i],
    ) by {
        let p = all.take(i);
        if i == 1 {
            assert(p.drop_last() =~= all.take(0));
        } else if i == 2 {
            assert(p.drop_last() =~= all.take(1));
            assert(all.take(1).drop_last() =~= all.take(0));
        } else if i == 3 {
            assert(p.drop_last() =~= all.take(2));
            assert(all.take(2).drop_last() =~= all.take(1));
            assert(all.take(1).drop_last() =~= all.take(0));
        }
    }
    assert(all.len() <= 4);
    if all.len() > 0 {
        assert(all.drop_last() =~= all.take(all.len() - 1));
    }
    if all.len() > 1 {
        assert(all.take(all.len() - 1).drop_last() =~= all.take(all.len() - 2));
    }
    if all.len() > 2 {
        assert(all.take(all.len() - 2).drop_last() =~= all.take(all.len() - 3));
    }
    if all.len() > 3 {
        assert(all.take(all.len() - 3).drop_last() =~= all.take(all.len() - 4));
    }
}

/// Law: a command starts what it names and stops what was there: after a file was to be run
/// this file runs and is watched, after code was to be run this code runs and no file is
/// watched. To reload is to start the file again, with the watch as it is; without a file it
/// does nothing. To stop ends all.
pub proof fn commands_do_what_they_say(m: ManagerView, command: ScriptCommand)
    ensures
        ({
            let r = m.response(command);
            let stops = r.contains(Deed::StopTask);
            let ends_watch = r.contains(Deed::StopWatcher);
            match command {
                ScriptCommand::RunFile(path) => {
                    &&& r.len() >= 2
                    &&& r[r.len() - 2] == Deed::StartFile(path@)
                    &&& r[r.len() - 1] == Deed::StartWatcher(path@)
                    &&& stops <==> m.running
                    &&& ends_watch <==> m.watching
                    &&& m.after(command).script_path == Some(path@)
                },
                ScriptCommand::RunCode { code } => {
                    &&& r.len() >= 1
                    &&& r[r.len() - 1] == Deed::StartCode(code@)
                    &&& stops <==> m.running
                    &&& ends_watch <==> m.watching
                    &&& m.after(command).script_path is None
                },
                ScriptCommand::Reload => match m.script_path {
                    Some(path) => {
                        &&& r.len() >= 1
                        &&& r[r.len() - 1] == Deed::StartFile(path)
                        &&& stops <==> m.running
                        &&& !ends_watch
                        &&& m.after(command).script_path == Some(path)
                    },
                    None => r.len() == 0 && m.after(command) == m,
                },
                ScriptCommand::Stop => {
                    &&& forall|i: int|
                        0 <= i < r.len() ==> (#[trigger] r[i] is StopTask || r[i] is StopWatcher)
                    &&& stops <==> m.running
                    &&& ends_watch <==> m.watching
                    &&& m.after(command).script_path is None
                },
            }
        }),
{
    let r = m.response(command);
    let a = m.stop_task();
    let b = m.stop_watcher();
    if m.running {
        assert(a[0] is StopTask);
        if r.len() > 0 {
            assert(r[0] == Deed::StopTask);
        }
    }
    if m.watching && !(command is Reload) {
        assert(r[a.len() as int] == b[0]);
        assert(r.contains(Deed::StopWatcher));
    }
    if r.contains(Deed::StopTask) {
        let i = choose|i: int| 0 <= i < r.len() && r[i] == Deed::StopTask;
        assert(r[i] is StopTask);
    }
    if r.contains(Deed::StopWatcher) {
        let i = choose|i: int| 0 <= i < r.len() && r[i] == Deed::StopWatcher;
        assert(r[i] is StopWatcher);
    }
}

} // verus!

//! Deferred and repeating tasks.

use vstd::arithmetic::div_mod::{
    lemma_fundamental_div_mod, lemma_mod_add_multiples_vanish, lemma_mod_multiples_basic,
    lemma_mod_self_0, lemma_mod_sub_multiples_vanish, lemma_small_mod,
};
use vstd::prelude::*;

use crate::time::{Clock, Duration, Moment};

verus! {

/// Identifies a scheduled task, to cancel it before it fires.
#[derive(Debug, Clone, Copy, PartialEq, Eq, Hash, Structural)]
pub struct TaskId(pub u64);

impl TaskId {
    /// The number behind the identifier.
    pub fn raw(self) -> (n: u64)
        ensures
            n == self.0,
    {
        self.0
    }
}

/// What a task does when it fires. `F` is the type of system callbacks.
pub enum TaskAction<F> {
    /// Tells the controller of an entity that one of its timers fired.
    FireTimer { entity_serial: u32, timer_id: u64 },
    /// Hands out a callback, if it was not taken yet.
    Callback(Option<F>),
}

/// A task and when it is due.
pub struct ScheduledTask<F> {
    pub id: TaskId,
    pub fire_at: Moment,
    pub action: TaskAction<F>,
    /// The interval at which the task repeats, if it does.
    pub repeat: Option<Duration>,
    pub cancelled: bool,
    /// The map whose tick fires the task, `None` for any map's.
    pub map_id: Option<u8>,
}

impl<F> ScheduledTask<F> {
    /// Whether the task fires on a tick of this map.
    pub open spec fn on_map(self, map_id: u8) -> bool {
        self.map_id is None || self.map_id == Some(map_id)
    }

    /// Whether the task fires more than once: only timers repeat.
    pub open spec fn repeats(self) -> bool {
        self.repeat is Some && self.action is FireTimer
    }

    /// Whether the task has something to hand out.
    pub open spec fn loaded(self) -> bool {
        match self.action {
            TaskAction::FireTimer { .. } => true,
            TaskAction::Callback(c) => c is Some,
        }
    }

    /// Whether the task is to fire at time `t`, left to run on its map.
    pub open spec fn beats(self, t: int, map_id: u8) -> bool {
        &&& !self.cancelled
        &&& self.on_map(map_id)
        &&& self.loaded()
        &&& t == self.fire_at.nanos || (self.repeats() && on_beat(
            self.fire_at.nanos as int,
            (self.repeat->0).nanos as int,
            t,
        ))
    }
}

/// Whether `t` is `f` or a whole number of intervals `d` later.
pub open spec fn on_beat(f: int, d: int, t: int) -> bool {
    t >= f && (t - f) % d == 0
}

proof fn lemma_beat_steps(f: int, d: int, h: int)
    requires
        d > 0,
        on_beat(f, d, h),
    ensures
        on_beat(f, d, h + d),
        on_beat(f, d, f),
        forall|t: int| #[trigger] on_beat(f, d, t) && h <= t < h + d ==> t == h,
        forall|t: int| #[trigger] on_beat(f, d, t) && h < t <= h + d ==> t == h + d,
        forall|t: int| #[trigger] on_beat(f, d, t) && t < h ==> t <= h - d,
{
    lemma_mod_add_multiples_vanish(h - f, d);
    assert((h + d - f) % d == (d + (h - f)) % d);
    lemma_small_mod(0, d as nat);
    lemma_fundamental_div_mod(h - f, d);
    let q = (h - f) / d;
    assert forall|t: int| #[trigger] on_beat(f, d, t) && h <= t < h + d implies t == h by {
        lemma_fundamental_div_mod(t - f, d);
        let p = (t - f) / d;
        assert(p == q) by (nonlinear_arith)
            requires
                t - f == d * p,
                h - f == d * q,
                h <= t < h + d,
                d > 0,
        ;
    }
    assert forall|t: int| #[trigger] on_beat(f, d, t) && h < t <= h + d implies t == h + d by {
        lemma_fundamental_div_mod(t - f, d);
        let p = (t - f) / d;
        assert(p == q + 1) by (nonlinear_arith)
            requires
                t - f == d * p,
                h - f == d * q,
                h < t <= h + d,
                d > 0,
        ;
        assert(d * (q + 1) == d * q + d) by (nonlinear_arith);
    }
    assert forall|t: int| #[trigger] on_beat(f, d, t) && t < h implies t <= h - d by {
        lemma_fundamental_div_mod(t - f, d);
        let p = (t - f) / d;
        assert(p <= q - 1) by (nonlinear_arith)
            requires
                t - f == d * p,
                h - f == d * q,
                t < h,
                d > 0,
        ;
        assert(d * p <= d * (q - 1)) by (nonlinear_arith)
            requires
                p <= q - 1,
                d > 0,
        ;
        assert(d * (q - 1) == d * q - d) by (nonlinear_arith);
    }
}

/// Whether a task with this number is in the list.
pub open spec fn has_id<F>(tasks: Seq<ScheduledTask<F>>, id: u64) -> bool {
    exists|i: int| 0 <= i < tasks.len() && (#[trigger] tasks[i]).id.0 == id
}

/// The task with this number.
pub open spec fn task_of<F>(tasks: Seq<ScheduledTask<F>>, id: u64) -> ScheduledTask<F> {
    tasks[choose|i: int| 0 <= i < tasks.len() && (#[trigger] tasks[i]).id.0 == id]
}

/// Whether no two tasks share a number.
pub open spec fn ids_unique<F>(tasks: Seq<ScheduledTask<F>>) -> bool {
    forall|i: int, j: int|
        0 <= i < j < tasks.len() ==> (#[trigger] tasks[i]).id.0 != (#[trigger] tasks[j]).id.0
}

proof fn lemma_task_of<F>(tasks: Seq<ScheduledTask<F>>, i: int)
    requires
        ids_unique(tasks),
        0 <= i < tasks.len(),
    ensures
        has_id(tasks, tasks[i].id.0),
        task_of(tasks, tasks[i].id.0) == tasks[i],
{
    let id = tasks[i].id.0;
    let k = choose|k: int| 0 <= k < tasks.len() && (#[trigger] tasks[k]).id.0 == id;
    assert(tasks[k].id.0 == id);
}

proof fn lemma_push_task<F>(tasks: Seq<ScheduledTask<F>>, t: ScheduledTask<F>)
    requires
        ids_unique(tasks),
        !has_id(tasks, t.id.0),
    ensures
        ids_unique(tasks.push(t)),
        forall|id: u64| #[trigger]
            has_id(tasks.push(t), id) <==> has_id(tasks, id) || id == t.id.0,
        forall|id: u64|
            has_id(tasks, id) ==> #[trigger] task_of(tasks.push(t), id) == task_of(tasks, id),
        task_of(tasks.push(t), t.id.0) == t,
{
    let p = tasks.push(t);
    assert forall|i: int, j: int| 0 <= i < j < p.len() implies (#[trigger] p[i]).id.0 != (
    #[trigger] p[j]).id.0 by {
        if j == tasks.len() {
            assert(tasks[i].id.0 != t.id.0);
        } else {
            assert(tasks[i].id.0 != tasks[j].id.0);
        }
    }
    assert forall|id: u64| #[trigger] has_id(p, id) <==> has_id(tasks, id) || id == t.id.0 by {
        if has_id(tasks, id) {
            let i = choose|i: int| 0 <= i < tasks.len() && (#[trigger] tasks[i]).id.0 == id;
            assert(p[i].id.0 == id);
        }
        if id == t.id.0 {
            assert(p[tasks.len() as int].id.0 == id);
        }
        if has_id(p, id) {
            let i = choose|i: int| 0 <= i < p.len() && (#[trigger] p[i]).id.0 == id;
            if i < tasks.len() {
                assert(tasks[i].id.0 == id);
            }
        }
    }
    assert forall|id: u64| has_id(tasks, id) implies #[trigger] task_of(p, id) == task_of(
        tasks,
        id,
    ) by {
        let i = choose|i: int| 0 <= i < tasks.len() && (#[trigger] tasks[i]).id.0 == id;
        lemma_task_of(tasks, i);
        assert(p[i] == tasks[i]);
        lemma_task_of(p, i);
    }
    lemma_task_of(p, tasks.len() as int);
}

proof fn lemma_remove_task<F>(tasks: Seq<ScheduledTask<F>>, k: int)
    requires
        ids_unique(tasks),
        0 <= k < tasks.len(),
    ensures
        ids_unique(tasks.remove(k)),
        forall|id: u64| #[trigger]
            has_id(tasks.remove(k), id) <==> has_id(tasks, id) && id != tasks[k].id.0,
        forall|id: u64|
            has_id(tasks.remove(k), id) ==> #[trigger] task_of(tasks.remove(k), id) == task_of(
                tasks,
                id,
            ),
{
    let r = tasks.remove(k);
    assert forall|i: int| 0 <= i < r.len() implies #[trigger] r[i] == tasks[if i < k {
        i
    } else {
        i + 1
    }] by {}
    assert(ids_unique(r));
    assert forall|id: u64| #[trigger] has_id(r, id) <==> has_id(tasks, id) && id
        != tasks[k].id.0 by {
        if has_id(r, id) {
            let i = choose|i: int| 0 <= i < r.len() && (#[trigger] r[i]).id.0 == id;
            let j = if i < k {
                i
            } else {
                i + 1
            };
            assert(tasks[j].id.0 == id);
        }
        if has_id(tasks, id) && id != tasks[k].id.0 {
            let i = choose|i: int| 0 <= i < tasks.len() && (#[trigger] tasks[i]).id.0 == id;
            let j = if i < k {
                i
            } else {
                i - 1
            };
            assert(r[j].id.0 == id);
        }
    }
    assert forall|id: u64| has_id(r, id) implies #[trigger] task_of(r, id) == task_of(tasks, id) by {
        let i = choose|i: int| 0 <= i < r.len() && (#[trigger] r[i]).id.0 == id;
        lemma_task_of(r, i);
        let j = if i < k {
            i
        } else {
            i + 1
        };
        lemma_task_of(tasks, j);
    }
}

/// One firing: the number of a task, and when it was due.
pub type Firing = (u64, int);

/// What a firing is owed to: the task with this number was due to fire at this
/// time, by now, on this map.
pub open spec fn owed<F>(
    tasks: Seq<ScheduledTask<F>>,
    f: Firing,
    now: Moment,
    map_id: u8,
) -> bool {
    &&& has_id(tasks, f.0)
    &&& task_of(tasks, f.0).beats(f.1, map_id)
    &&& f.1 <= now.nanos
}

/// Whether `log` lists what is owed, each firing once, in the order of time.
pub open spec fn log_of<F>(
    tasks: Seq<ScheduledTask<F>>,
    log: Seq<Firing>,
    now: Moment,
    map_id: u8,
) -> bool {
    &&& log.no_duplicates()
    &&& forall|i: int, j: int| 0 <= i < j < log.len() ==> (#[trigger] log[i]).1 <= (
    #[trigger] log[j]).1
    &&& forall|f: Firing| #[trigger] log.contains(f) <==> owed(tasks, f, now, map_id)
}

/// Whether the actions are those of the log's tasks, one by one.
pub open spec fn actions_of<F>(
    tasks: Seq<ScheduledTask<F>>,
    log: Seq<Firing>,
    fired: Seq<TaskAction<F>>,
) -> bool {
    &&& fired.len() == log.len()
    &&& forall|i: int|
        0 <= i < log.len() ==> #[trigger] fired[i] == task_of(tasks, log[i].0).action
}

/// What becomes of a task in a tick.
pub open spec fn ticked<F>(
    o: ScheduledTask<F>,
    after: Seq<ScheduledTask<F>>,
    now: Moment,
    map_id: u8,
) -> bool {
    let id = o.id.0;
    if o.cancelled {
        // A cancelled task is dropped unless a live one ahead of it is not due.
        &&& has_id(after, id) ==> task_of(after, id) == o && exists|k: u64| #[trigger]
            has_id(after, k) && !task_of(after, k).cancelled && now.nanos < task_of(
                after,
                k,
            ).fire_at.nanos <= o.fire_at.nanos
        &&& !has_id(after, id) ==> forall|k: u64| #[trigger]
            has_id(after, k) && !task_of(after, k).cancelled && task_of(after, k).fire_at.nanos
                > now.nanos ==> task_of(after, k).fire_at.nanos >= o.fire_at.nanos
    } else if o.fire_at.nanos > now.nanos || !o.on_map(map_id) {
        has_id(after, id) && task_of(after, id) == o
    } else if o.repeats() {
        let d = (o.repeat->0).nanos as int;
        let a = task_of(after, id);
        &&& has_id(after, id)
        &&& a == (ScheduledTask { fire_at: a.fire_at, ..o })
        &&& on_beat(o.fire_at.nanos as int, d, a.fire_at.nanos as int)
        &&& now.nanos < a.fire_at.nanos <= now.nanos + d
    } else {
        !has_id(after, id)
    }
}

/// Tasks that wait for their time.
pub struct Scheduler<F> {
    pub tasks: Vec<ScheduledTask<F>>,
    pub next_id: u64,
    pub clock: Clock,
}

impl<F> Scheduler<F> {
    /// Numbers are given once, and intervals are spans of time.
    pub open spec fn wf(&self) -> bool {
        &&& ids_unique(self.tasks@)
        &&& forall|i: int|
            0 <= i < self.tasks@.len() ==> (#[trigger] self.tasks@[i]).id.0 < self.next_id
        &&& forall|i: int|
            0 <= i < self.tasks@.len() && (#[trigger] self.tasks@[i]).repeat is Some ==> (
            self.tasks@[i].repeat->0).wf()
    }

    /// A scheduler without tasks.
    pub fn new() -> (s: Scheduler<F>)
        ensures
            s.wf(),
            s.tasks@ == Seq::<ScheduledTask<F>>::empty(),
            s.next_id == 1,
    {
        Scheduler { tasks: Vec::new(), next_id: 1, clock: Clock::start() }
    }

    fn alloc_id(&mut self) -> (id: TaskId)
        requires
            old(self).next_id < u64::MAX,
        ensures
            id.0 == old(self).next_id,
            final(self).next_id == old(self).next_id + 1,
            final(self).tasks == old(self).tasks,
            final(self).clock == old(self).clock,
    {
        let id = TaskId(self.next_id);
        self.next_id = self.next_id + 1;
        id
    }

    /// Schedules a task to fire `delay` after `now`, then at each `repeat`
    /// interval. `map_id` names the map whose tick fires it, `None` any map's.
    pub fn schedule_from(
        &mut self,
        now: Moment,
        delay: Duration,
        repeat: Option<Duration>,
        action: TaskAction<F>,
        map_id: Option<u8>,
    ) -> (id: TaskId)
        requires
            old(self).wf(),
            old(self).next_id < u64::MAX,
            now.wf(),
            delay.wf(),
            repeat is Some ==> (repeat->0).wf(),
        ensures
            final(self).wf(),
            id.0 == old(self).next_id,
            !has_id(old(self).tasks@, id.0),
            final(self).next_id == old(self).next_id + 1,
            final(self).clock == old(self).clock,
            final(self).tasks@ == old(self).tasks@.push(
                ScheduledTask {
                    id,
                    fire_at: now.plus(delay),
                    action,
                    repeat,
                    cancelled: false,
                    map_id,
                },
            ),
    {
        let id = self.alloc_id();
        self.tasks.push(
            ScheduledTask {
                id,
                fire_at: now.after(delay),
                action,
                repeat,
                cancelled: false,
                map_id,
            },
        );
        id
    }

    /// Schedules a task to fire once, `delay` from now.
    pub fn schedule(&mut self, delay: Duration, action: TaskAction<F>, map_id: Option<u8>) -> (id:
        TaskId)
        requires
            old(self).wf(),
            old(self).next_id < u64::MAX,
            delay.wf(),
        ensures
            final(self).wf(),
            id.0 == old(self).next_id,
            final(self).next_id == old(self).next_id + 1,
            final(self).clock == old(self).clock,
            exists|now: Moment| #[trigger]
                now.wf() && final(self).tasks@ == old(self).tasks@.push(
                    ScheduledTask {
                        id,
                        fire_at: now.plus(delay),
                        action,
                        repeat: None,
                        cancelled: false,
                        map_id,
                    },
                ),
    {
        let now = self.clock.now();
        self.schedule_from(now, delay, None, action, map_id)
    }

    /// Schedules a task to fire `delay` from now and then at each `interval`.
    pub fn schedule_repeating(
        &mut self,
        delay: Duration,
        interval: Duration,
        action: TaskAction<F>,
        map_id: Option<u8>,
    ) -> (id: TaskId)
        requires
            old(self).wf(),
            old(self).next_id < u64::MAX,
            delay.wf(),
            interval.wf(),
        ensures
            final(self).wf(),
            id.0 == old(self).next_id,
            final(self).next_id == old(self).next_id + 1,
            final(self).clock == old(self).clock,
            exists|now: Moment| #[trigger]
                now.wf() && final(self).tasks@ == old(self).tasks@.push(
                    ScheduledTask {
                        id,
                        fire_at: now.plus(delay),
                        action,
                        repeat: Some(interval),
                        cancelled: false,
                        map_id,
                    },
                ),
    {
        let now = self.clock.now();
        self.schedule_from(now, delay, Some(interval), action, map_id)
    }

    /// Marks a task as cancelled: it never fires again.
    pub fn cancel(&mut self, id: TaskId)
        requires
            old(self).wf(),
        ensures
            final(self).wf(),
            final(self).next_id == old(self).next_id,
            final(self).clock == old(self).clock,
            final(self).tasks@ == old(self).tasks@.map_values(
                |t: ScheduledTask<F>|
                    if t.id == id {
                        ScheduledTask { cancelled: true, ..t }
                    } else {
                        t
                    },
            ),
    {
        let ghost before = self.tasks@;
        let ghost mark = |t: ScheduledTask<F>|
            if t.id == id {
                ScheduledTask { cancelled: true, ..t }
            } else {
                t
            };
        let mut i: usize = 0;
        while i < self.tasks.len()
            invariant
                i <= self.tasks@.len(),
                self.tasks@.len() == before.len(),
                self.next_id == old(self).next_id,
                self.clock == old(self).clock,
                mark == |t: ScheduledTask<F>|
                    if t.id == id {
                        ScheduledTask { cancelled: true, ..t }
                    } else {
                        t
                    },
                forall|j: int| 0 <= j < i ==> #[trigger] self.tasks@[j] == mark(before[j]),
                forall|j: int| i <= j < before.len() ==> #[trigger] self.tasks@[j] == before[j],
            decreases self.tasks@.len() - i,
        {
            if self.tasks[i].id == id {
                self.tasks[i].cancelled = true;
            }
            i += 1;
        }
        assert(self.tasks@ =~= before.map_values(mark));
    }

    /// Ties the pending timers of an entity to a new map.
    pub fn reassign_entity_map(&mut self, entity_serial: u32, new_map: u8)
        requires
            old(self).wf(),
        ensures
            final(self).wf(),
            final(self).next_id == old(self).next_id,
            final(self).clock == old(self).clock,
            final(self).tasks@ == old(self).tasks@.map_values(
                |t: ScheduledTask<F>|
                    if t.action matches TaskAction::FireTimer { entity_serial: s, .. } && s
                        == entity_serial {
                        ScheduledTask { map_id: Some(new_map), ..t }
                    } else {
                        t
                    },
            ),
    {
        let ghost before = self.tasks@;
        let ghost mark = |t: ScheduledTask<F>|
            if t.action matches TaskAction::FireTimer { entity_serial: s, .. } && s
                == entity_serial {
                ScheduledTask { map_id: Some(new_map), ..t }
            } else {
                t
            };
        let mut i: usize = 0;
        while i < self.tasks.len()
            invariant
                i <= self.tasks@.len(),
                self.tasks@.len() == before.len(),
                self.next_id == old(self).next_id,
                self.clock == old(self).clock,
                mark == |t: ScheduledTask<F>|
                    if t.action matches TaskAction::FireTimer { entity_serial: s, .. } && s
                        == entity_serial {
                        ScheduledTask { map_id: Some(new_map), ..t }
                    } else {
                        t
                    },
                forall|j: int| 0 <= j < i ==> #[trigger] self.tasks@[j] == mark(before[j]),
                forall|j: int| i <= j < before.len() ==> #[trigger] self.tasks@[j] == before[j],
            decreases self.tasks@.len() - i,
        {
            let theirs = match &self.tasks[i].action {
                TaskAction::FireTimer { entity_serial: s, .. } => *s == entity_serial,
                TaskAction::Callback(_) => false,
            };
            if theirs {
                self.tasks[i].map_id = Some(new_map);
            }
            i += 1;
        }
        assert(self.tasks@ =~= before.map_values(mark));
    }

    /// Number of tasks, cancelled ones that were not dropped yet included.
    pub fn len(&self) -> (n: usize)
        ensures
            n == self.tasks@.len(),
    {
        self.tasks.len()
    }

    /// Whether there is no task.
    pub fn is_empty(&self) -> (b: bool)
        ensures
            b == (self.tasks@.len() == 0),
    {
        self.tasks.len() == 0
    }

    /// Index of the first of the earliest tasks.
    fn earliest(&self) -> (r: Option<usize>)
        ensures
            r is None <==> self.tasks@.len() == 0,
            r matches Some(k) ==> k < self.tasks@.len() && forall|i: int|
                0 <= i < self.tasks@.len() ==> self.tasks@[k as int].fire_at.nanos <= (
                #[trigger] self.tasks@[i]).fire_at.nanos,
    {
        if self.tasks.len() == 0 {
            return None;
        }
        let mut k: usize = 0;
        let mut i: usize = 1;
        while i < self.tasks.len()
            invariant
                k < i <= self.tasks@.len(),
                forall|j: int|
                    0 <= j < i ==> self.tasks@[k as int].fire_at.nanos <= (
                    #[trigger] self.tasks@[j]).fire_at.nanos,
            decreases self.tasks@.len() - i,
        {
            if self.tasks[i].fire_at.nanos < self.tasks[k].fire_at.nanos {
                k = i;
            }
            i += 1;
        }
        Some(k)
    }

    /// Whether only cancelled tasks are gone, none of them due later than a task that
    /// is not cancelled; all others stay as they were.
    pub open spec fn tidied(before: Self, after: Self) -> bool {
        &&& after.next_id == before.next_id
        &&& after.clock == before.clock
        &&& forall|id: u64| #[trigger]
            has_id(after.tasks@, id) ==> has_id(before.tasks@, id) && task_of(after.tasks@, id)
                == task_of(before.tasks@, id)
        &&& forall|id: u64|
            has_id(before.tasks@, id) && !has_id(after.tasks@, id) ==> (#[trigger] task_of(
                before.tasks@,
                id,
            )).cancelled
        &&& forall|id: u64, i: int|
            has_id(before.tasks@, id) && !has_id(after.tasks@, id) && 0 <= i < before.tasks@.len()
                && !(#[trigger] before.tasks@[i]).cancelled ==> (#[trigger] task_of(
                before.tasks@,
                id,
            )).fire_at.nanos <= before.tasks@[i].fire_at.nanos
    }

    /// When the earliest task that is not cancelled is due. Cancelled tasks
    /// ahead of it are dropped.
    pub fn next_fire_at(&mut self) -> (r: Option<Moment>)
        requires
            old(self).wf(),
        ensures
            final(self).wf(),
            final(self).next_id == old(self).next_id,
            final(self).clock == old(self).clock,
            r is None <==> forall|i: int|
                0 <= i < old(self).tasks@.len() ==> (#[trigger] old(self).tasks@[i]).cancelled,
            r matches Some(t) ==> {
                &&& exists|i: int|
                    0 <= i < old(self).tasks@.len() && !(#[trigger] old(self).tasks@[i]).cancelled
                        && old(self).tasks@[i].fire_at == t
                &&& forall|i: int|
                    0 <= i < old(self).tasks@.len() && !(#[trigger] old(self).tasks@[i]).cancelled
                        ==> t.nanos <= old(self).tasks@[i].fire_at.nanos
            },
            forall|id: u64|
                has_id(old(self).tasks@, id) && !has_id(final(self).tasks@, id)
                    ==> (#[trigger] task_of(old(self).tasks@, id)).cancelled && (r matches Some(t)
                    ==> task_of(old(self).tasks@, id).fire_at.nanos <= t.nanos),
            Scheduler::tidied(*old(self), *final(self)),
    {
        let ghost start = self.tasks@;
        loop
            invariant
                self.wf(),
                ids_unique(start),
                start == old(self).tasks@,
                self.next_id == old(self).next_id,
                self.clock == old(self).clock,
                forall|id: u64| #[trigger]
                    has_id(self.tasks@, id) ==> has_id(start, id) && task_of(self.tasks@, id)
                        == task_of(start, id),
                forall|id: u64|
                    has_id(start, id) && !has_id(self.tasks@, id) ==> (#[trigger] task_of(
                        start,
                        id,
                    )).cancelled,
                forall|id: u64, i: int|
                    has_id(start, id) && !has_id(self.tasks@, id) && 0 <= i < self.tasks@.len()
                        ==> (#[trigger] task_of(start, id)).fire_at.nanos <= (
                    #[trigger] self.tasks@[i]).fire_at.nanos,
            decreases self.tasks@.len(),
        {
            let found = self.earliest();
            match found {
                None => {
                    assert forall|i: int| 0 <= i < start.len() implies (
                    #[trigger] start[i]).cancelled by {
                        lemma_task_of(start, i);
                        assert(!has_id(self.tasks@, start[i].id.0));
                    }
                    return None;
                },
                Some(k) => {
                    let ghost now_tasks = self.tasks@;
                    if self.tasks[k].cancelled {
                        proof {
                            lemma_remove_task(self.tasks@, k as int);
                            lemma_task_of(self.tasks@, k as int);
                        }
                        let dropped = self.tasks.remove(k);
                        proof {
                            assert forall|i: int| 0 <= i < self.tasks@.len() implies (
                            #[trigger] self.tasks@[i]) == now_tasks[if i < k {
                                i
                            } else {
                                i + 1
                            }] by {}
                            assert forall|id: u64, i: int|
                                has_id(start, id) && !has_id(self.tasks@, id) && 0 <= i
                                    < self.tasks@.len() implies (#[trigger] task_of(
                                start,
                                id,
                            )).fire_at.nanos <= (#[trigger] self.tasks@[i]).fire_at.nanos by {
                                let j = if i < k {
                                    i
                                } else {
                                    i + 1
                                };
                                assert(self.tasks@[i] == now_tasks[j]);
                                if id == now_tasks[k as int].id.0 {
                                    assert(task_of(now_tasks, id) == now_tasks[k as int]);
                                } else {
                                    assert(!has_id(now_tasks, id));
                                }
                            }
                        }
                    } else {
                        let t = self.tasks[k].fire_at;
                        proof {
                            lemma_task_of(self.tasks@, k as int);
                            let id = self.tasks@[k as int].id.0;
                            assert(has_id(start, id));
                            let m = choose|m: int|
                                0 <= m < start.len() && (#[trigger] start[m]).id.0 == id;
                            lemma_task_of(start, m);
                            assert(!start[m].cancelled && start[m].fire_at == t);
                            assert forall|i: int|
                                0 <= i < start.len() && !(
                                #[trigger] start[i]).cancelled implies t.nanos
                                <= start[i].fire_at.nanos by {
                                lemma_task_of(start, i);
                                let d = start[i].id.0;
                                assert(has_id(self.tasks@, d));
                                let j = choose|j: int|
                                    0 <= j < self.tasks@.len() && (#[trigger] self.tasks@[j]).id.0
                                        == d;
                                lemma_task_of(self.tasks@, j);
                            }
                        }
                        return Some(t);
                    }
                },
            }
        }
    }
}


/// Time the task is behind, plus one; zero if it is not due.
spec fn backlog<F>(t: ScheduledTask<F>, now: Moment) -> nat {
    if t.fire_at.nanos <= now.nanos {
        (now.nanos - t.fire_at.nanos + 1) as nat
    } else {
        0
    }
}

/// Sum of the backlogs of the first `n` tasks.
spec fn load<F>(tasks: Seq<ScheduledTask<F>>, now: Moment, n: int) -> nat
    decreases n,
{
    if n <= 0 {
        0
    } else {
        load(tasks, now, n - 1) + backlog(tasks[n - 1], now)
    }
}

proof fn lemma_load_remove<F>(tasks: Seq<ScheduledTask<F>>, now: Moment, k: int, n: int)
    requires
        0 <= k < n <= tasks.len(),
    ensures
        load(tasks.remove(k), now, n - 1) + backlog(tasks[k], now) == load(tasks, now, n),
    decreases n,
{
    let r = tasks.remove(k);
    if k == n - 1 {
        lemma_load_prefix(tasks, r, now, n - 1);
    } else {
        lemma_load_remove(tasks, now, k, n - 1);
        assert(r[n - 2] == tasks[n - 1]);
    }
}

proof fn lemma_load_prefix<F>(
    a: Seq<ScheduledTask<F>>,
    b: Seq<ScheduledTask<F>>,
    now: Moment,
    n: int,
)
    requires
        0 <= n <= a.len(),
        n <= b.len(),
        forall|i: int| 0 <= i < n ==> a[i] == b[i],
    ensures
        load(a, now, n) == load(b, now, n),
    decreases n,
{
    if n > 0 {
        lemma_load_prefix(a, b, now, n - 1);
    }
}

/// Where the task with this number stands in the middle of a tick.
spec fn standing<F>(
    start: Seq<ScheduledTask<F>>,
    heap: Seq<ScheduledTask<F>>,
    aside: Seq<ScheduledTask<F>>,
    log: Seq<Firing>,
    low: int,
    now: Moment,
    map_id: u8,
    id: u64,
) -> bool {
    if !has_id(start, id) {
        &&& !has_id(heap, id)
        &&& !has_id(aside, id)
        &&& forall|t: int| !#[trigger] log.contains((id, t))
    } else {
        let o = task_of(start, id);
        let f = o.fire_at.nanos as int;
        if has_id(heap, id) {
            let h = task_of(heap, id);
            let d = (o.repeat->0).nanos as int;
            &&& !has_id(aside, id)
            &&& h == (ScheduledTask { fire_at: h.fire_at, ..o })
            &&& h.fire_at == o.fire_at || {
                &&& o.repeats()
                &&& !o.cancelled
                &&& o.on_map(map_id)
                &&& f <= now.nanos
                &&& on_beat(f, d, h.fire_at.nanos as int)
                &&& h.fire_at.nanos - d <= now.nanos
            }
            &&& forall|t: int| #[trigger]
                log.contains((id, t)) <==> o.beats(t, map_id) && t < h.fire_at.nanos
        } else if has_id(aside, id) {
            &&& task_of(aside, id) == o
            &&& !o.cancelled
            &&& !o.on_map(map_id)
            &&& f <= now.nanos
            &&& forall|t: int| !#[trigger] log.contains((id, t))
        } else {
            ||| {
                &&& o.cancelled
                &&& f <= low
                &&& forall|t: int| !#[trigger] log.contains((id, t))
            }
            ||| {
                &&& !o.cancelled
                &&& o.on_map(map_id)
                &&& !o.repeats()
                &&& f <= now.nanos
                &&& forall|t: int| #[trigger]
                    log.contains((id, t)) <==> o.beats(t, map_id)
            }
        }
    }
}

/// What holds in the middle of a tick.
spec fn run_ok<F>(
    start: Seq<ScheduledTask<F>>,
    heap: Seq<ScheduledTask<F>>,
    aside: Seq<ScheduledTask<F>>,
    log: Seq<Firing>,
    low: int,
    now: Moment,
    map_id: u8,
) -> bool {
    &&& ids_unique(start)
    &&& ids_unique(heap)
    &&& ids_unique(aside)
    &&& forall|i: int| 0 <= i < heap.len() ==> low <= (#[trigger] heap[i]).fire_at.nanos
    &&& forall|i: int| 0 <= i < log.len() ==> (#[trigger] log[i]).1 <= low
    &&& log.no_duplicates()
    &&& forall|i: int, j: int| 0 <= i < j < log.len() ==> (#[trigger] log[i]).1 <= (
    #[trigger] log[j]).1
    &&& forall|id: u64| #[trigger] standing(start, heap, aside, log, low, now, map_id, id)
}

/// Whether task `k` is an earliest one.
spec fn at_front<F>(heap: Seq<ScheduledTask<F>>, k: int) -> bool {
    &&& 0 <= k < heap.len()
    &&& forall|i: int|
        0 <= i < heap.len() ==> heap[k].fire_at.nanos <= (#[trigger] heap[i]).fire_at.nanos
}

proof fn lemma_rest_is_later<F>(heap: Seq<ScheduledTask<F>>, k: int)
    requires
        at_front(heap, k),
    ensures
        forall|i: int|
            0 <= i < heap.remove(k).len() ==> heap[k].fire_at.nanos <= (
            #[trigger] heap.remove(k)[i]).fire_at.nanos,
{
    let r = heap.remove(k);
    assert forall|i: int| 0 <= i < r.len() implies heap[k].fire_at.nanos <= (
    #[trigger] r[i]).fire_at.nanos by {
        let j = if i < k {
            i
        } else {
            i + 1
        };
        assert(r[i] == heap[j]);
    }
}

proof fn lemma_discard<F>(
    start: Seq<ScheduledTask<F>>,
    heap: Seq<ScheduledTask<F>>,
    aside: Seq<ScheduledTask<F>>,
    log: Seq<Firing>,
    low: int,
    now: Moment,
    map_id: u8,
    k: int,
)
    requires
        run_ok(start, heap, aside, log, low, now, map_id),
        at_front(heap, k),
        heap[k].cancelled,
    ensures
        run_ok(
            start,
            heap.remove(k),
            aside,
            log,
            heap[k].fire_at.nanos as int,
            now,
            map_id,
        ),
{
    lemma_remove_task(heap, k);
    lemma_task_of(heap, k);
    lemma_rest_is_later(heap, k);
    let low2 = heap[k].fire_at.nanos as int;
    let heap2 = heap.remove(k);
    assert forall|id: u64| #[trigger]
        standing(start, heap2, aside, log, low2, now, map_id, id) by {
        assert(standing(start, heap, aside, log, low, now, map_id, id));
        if id == heap[k].id.0 {
            let o = task_of(start, id);
            assert(o.cancelled);
            assert forall|t: int| !#[trigger] log.contains((id, t)) by {
                assert(!o.beats(t, map_id));
            }
        }
    }
}

proof fn lemma_set_aside<F>(
    start: Seq<ScheduledTask<F>>,
    heap: Seq<ScheduledTask<F>>,
    aside: Seq<ScheduledTask<F>>,
    log: Seq<Firing>,
    low: int,
    now: Moment,
    map_id: u8,
    k: int,
)
    requires
        run_ok(start, heap, aside, log, low, now, map_id),
        at_front(heap, k),
        !heap[k].cancelled,
        heap[k].fire_at.nanos <= now.nanos,
        !heap[k].on_map(map_id),
    ensures
        run_ok(
            start,
            heap.remove(k),
            aside.push(heap[k]),
            log,
            heap[k].fire_at.nanos as int,
            now,
            map_id,
        ),
{
    lemma_remove_task(heap, k);
    lemma_task_of(heap, k);
    lemma_rest_is_later(heap, k);
    let low2 = heap[k].fire_at.nanos as int;
    let heap2 = heap.remove(k);
    let mine = heap[k].id.0;
    assert(standing(start, heap, aside, log, low, now, map_id, mine));
    lemma_push_task(aside, heap[k]);
    let aside2 = aside.push(heap[k]);
    let o = task_of(start, mine);
    assert(heap[k] == o);
    assert forall|id: u64| #[trigger]
        standing(start, heap2, aside2, log, low2, now, map_id, id) by {
        assert(standing(start, heap, aside, log, low, now, map_id, id));
        if id == mine {
            assert forall|t: int| !#[trigger] log.contains((id, t)) by {
                assert(!o.beats(t, map_id));
            }
        }
    }
}

proof fn lemma_log_push(log: Seq<Firing>, f: Firing, low: int)
    requires
        log.no_duplicates(),
        !log.contains(f),
        forall|i: int| 0 <= i < log.len() ==> (#[trigger] log[i]).1 <= low,
        low <= f.1,
        forall|i: int, j: int| 0 <= i < j < log.len() ==> (#[trigger] log[i]).1 <= (
        #[trigger] log[j]).1,
    ensures
        log.push(f).no_duplicates(),
        forall|g: Firing| #[trigger] log.push(f).contains(g) <==> log.contains(g) || g == f,
        forall|i: int| 0 <= i < log.push(f).len() ==> (#[trigger] log.push(f)[i]).1 <= f.1,
        forall|i: int, j: int|
            0 <= i < j < log.push(f).len() ==> (#[trigger] log.push(f)[i]).1 <= (
            #[trigger] log.push(f)[j]).1,
{
    let p = log.push(f);
    assert forall|i: int, j: int| 0 <= i < p.len() && 0 <= j < p.len() && i != j implies p[i]
        != p[j] by {
        if i == log.len() {
            assert(log[j] != f);
        } else if j == log.len() {
            assert(log[i] != f);
        }
    }
    assert forall|g: Firing| #[trigger] p.contains(g) <==> log.contains(g) || g == f by {
        if log.contains(g) {
            let i = choose|i: int| 0 <= i < log.len() && log[i] == g;
            assert(p[i] == g);
        }
        if g == f {
            assert(p[log.len() as int] == g);
        }
        if p.contains(g) {
            let i = choose|i: int| 0 <= i < p.len() && p[i] == g;
            if i < log.len() {
                assert(log[i] == g);
            }
        }
    }
}

proof fn lemma_fire_once<F>(
    start: Seq<ScheduledTask<F>>,
    heap: Seq<ScheduledTask<F>>,
    aside: Seq<ScheduledTask<F>>,
    log: Seq<Firing>,
    low: int,
    now: Moment,
    map_id: u8,
    k: int,
)
    requires
        run_ok(start, heap, aside, log, low, now, map_id),
        at_front(heap, k),
        !heap[k].cancelled,
        heap[k].fire_at.nanos <= now.nanos,
        heap[k].on_map(map_id),
        !heap[k].repeats(),
    ensures
        run_ok(
            start,
            heap.remove(k),
            aside,
            if heap[k].loaded() {
                log.push((heap[k].id.0, heap[k].fire_at.nanos as int))
            } else {
                log
            },
            heap[k].fire_at.nanos as int,
            now,
            map_id,
        ),
        heap[k] == task_of(start, heap[k].id.0),
{
    lemma_remove_task(heap, k);
    lemma_task_of(heap, k);
    lemma_rest_is_later(heap, k);
    let low2 = heap[k].fire_at.nanos as int;
    let heap2 = heap.remove(k);
    let mine = heap[k].id.0;
    assert(standing(start, heap, aside, log, low, now, map_id, mine));
    let o = task_of(start, mine);
    assert(heap[k] == o);
    let f = (mine, low2);
    let log2 = if o.loaded() {
        log.push(f)
    } else {
        log
    };
    assert(!log.contains(f));
    lemma_log_push(log, f, low);
    assert forall|id: u64| #[trigger] standing(start, heap2, aside, log2, low2, now, map_id, id) by {
        assert(standing(start, heap, aside, log, low, now, map_id, id));
        assert forall|t: int| id != mine implies (#[trigger] log2.contains((id, t))
            <==> log.contains((id, t))) by {
            assert(log.push(f).contains((id, t)) <==> log.contains((id, t)) || (id, t) == f);
        }
        if id == mine {
            assert forall|t: int| #[trigger] log2.contains((id, t)) <==> o.beats(t, map_id) by {
                assert(log.push(f).contains((id, t)) <==> log.contains((id, t)) || (id, t) == f);
                assert(log.contains((id, t)) <==> o.beats(t, map_id) && t < low2);
            }
        }
    }
}

proof fn lemma_fire_again<F>(
    start: Seq<ScheduledTask<F>>,
    heap: Seq<ScheduledTask<F>>,
    aside: Seq<ScheduledTask<F>>,
    log: Seq<Firing>,
    low: int,
    now: Moment,
    map_id: u8,
    k: int,
    next: ScheduledTask<F>,
)
    requires
        run_ok(start, heap, aside, log, low, now, map_id),
        at_front(heap, k),
        !heap[k].cancelled,
        heap[k].fire_at.nanos <= now.nanos,
        heap[k].on_map(map_id),
        heap[k].repeats(),
        (heap[k].repeat->0).nanos > 0,
        next == (ScheduledTask { fire_at: next.fire_at, ..heap[k] }),
        next.fire_at.nanos == heap[k].fire_at.nanos + (heap[k].repeat->0).nanos,
    ensures
        run_ok(
            start,
            heap.remove(k).push(next),
            aside,
            log.push((heap[k].id.0, heap[k].fire_at.nanos as int)),
            heap[k].fire_at.nanos as int,
            now,
            map_id,
        ),
        heap[k].action == task_of(start, heap[k].id.0).action,
{
    lemma_remove_task(heap, k);
    lemma_task_of(heap, k);
    lemma_rest_is_later(heap, k);
    let low2 = heap[k].fire_at.nanos as int;
    let rest = heap.remove(k);
    lemma_push_task(rest, next);
    let heap2 = rest.push(next);
    let mine = heap[k].id.0;
    assert(standing(start, heap, aside, log, low, now, map_id, mine));
    let o = task_of(start, mine);
    let d = (o.repeat->0).nanos as int;
    let f0 = o.fire_at.nanos as int;
    if heap[k].fire_at == o.fire_at {
        lemma_mod_self_0(d);
        lemma_small_mod(0, d as nat);
        assert(on_beat(f0, d, low2));
    }
    lemma_beat_steps(f0, d, low2);
    let f = (mine, low2);
    let log2 = log.push(f);
    assert(!log.contains(f));
    lemma_log_push(log, f, low);
    assert forall|id: u64| #[trigger] standing(start, heap2, aside, log2, low2, now, map_id, id) by {
        assert(standing(start, heap, aside, log, low, now, map_id, id));
        assert forall|t: int| id != mine implies (#[trigger] log2.contains((id, t))
            <==> log.contains((id, t))) by {
            assert(log.push(f).contains((id, t)) <==> log.contains((id, t)) || (id, t) == f);
        }
        if id == mine {
            assert(task_of(heap2, id) == next);
            assert forall|t: int| #[trigger] log2.contains((id, t)) <==> o.beats(t, map_id) && t
                < next.fire_at.nanos by {
                assert(log.push(f).contains((id, t)) <==> log.contains((id, t)) || (id, t) == f);
                assert(log.contains((id, t)) <==> o.beats(t, map_id) && t < low2);
                if o.beats(t, map_id) && low2 <= t < low2 + d {
                    assert(on_beat(f0, d, t));
                }
            }
        } else {
            assert(has_id(heap2, id) <==> has_id(heap, id));
            if has_id(heap, id) {
                assert(task_of(heap2, id) == task_of(rest, id));
            }
        }
    }
    assert forall|i: int| 0 <= i < heap2.len() implies low2 <= (
    #[trigger] heap2[i]).fire_at.nanos by {
        if i < rest.len() {
            assert(heap2[i] == rest[i]);
        }
    }
}

proof fn lemma_joined<F>(heap: Seq<ScheduledTask<F>>, aside: Seq<ScheduledTask<F>>)
    requires
        ids_unique(heap),
        ids_unique(aside),
        forall|id: u64| !(#[trigger] has_id(heap, id) && has_id(aside, id)),
    ensures
        ids_unique(heap + aside),
        forall|id: u64| #[trigger]
            has_id(heap + aside, id) <==> has_id(heap, id) || has_id(aside, id),
        forall|id: u64|
            has_id(heap, id) ==> #[trigger] task_of(heap + aside, id) == task_of(heap, id),
        forall|id: u64|
            has_id(aside, id) ==> #[trigger] task_of(heap + aside, id) == task_of(aside, id),
{
    let all = heap + aside;
    assert forall|i: int, j: int| 0 <= i < j < all.len() implies (#[trigger] all[i]).id.0 != (
    #[trigger] all[j]).id.0 by {
        if i < heap.len() && j >= heap.len() {
            lemma_task_of(heap, i);
            lemma_task_of(aside, j - heap.len());
            assert(!(has_id(heap, all[i].id.0) && has_id(aside, all[i].id.0)));
        } else if j < heap.len() {
            assert(heap[i].id.0 != heap[j].id.0);
        } else {
            assert(aside[i - heap.len()].id.0 != aside[j - heap.len()].id.0);
        }
    }
    assert forall|id: u64| #[trigger] has_id(all, id) <==> has_id(heap, id) || has_id(aside, id) by {
        if has_id(heap, id) {
            let i = choose|i: int| 0 <= i < heap.len() && (#[trigger] heap[i]).id.0 == id;
            assert(all[i].id.0 == id);
        }
        if has_id(aside, id) {
            let i = choose|i: int| 0 <= i < aside.len() && (#[trigger] aside[i]).id.0 == id;
            assert(all[heap.len() + i].id.0 == id);
        }
        if has_id(all, id) {
            let i = choose|i: int| 0 <= i < all.len() && (#[trigger] all[i]).id.0 == id;
            if i < heap.len() {
                assert(heap[i].id.0 == id);
            } else {
                assert(aside[i - heap.len()].id.0 == id);
            }
        }
    }
    assert forall|id: u64| has_id(heap, id) implies #[trigger] task_of(all, id) == task_of(
        heap,
        id,
    ) by {
        let i = choose|i: int| 0 <= i < heap.len() && (#[trigger] heap[i]).id.0 == id;
        lemma_task_of(heap, i);
        lemma_task_of(all, i);
    }
    assert forall|id: u64| has_id(aside, id) implies #[trigger] task_of(all, id) == task_of(
        aside,
        id,
    ) by {
        let i = choose|i: int| 0 <= i < aside.len() && (#[trigger] aside[i]).id.0 == id;
        lemma_task_of(aside, i);
        lemma_task_of(all, heap.len() + i);
    }
}

/// What a run amounts to once nothing live is due.
proof fn lemma_run_ends<F>(
    start: Seq<ScheduledTask<F>>,
    heap: Seq<ScheduledTask<F>>,
    aside: Seq<ScheduledTask<F>>,
    log: Seq<Firing>,
    low: int,
    now: Moment,
    map_id: u8,
    front: int,
)
    requires
        run_ok(start, heap, aside, log, low, now, map_id),
        heap.len() > 0 ==> at_front(heap, front) && !heap[front].cancelled
            && heap[front].fire_at.nanos > now.nanos,
        forall|i: int|
            0 <= i < start.len() && #[trigger] busy(start[i], now, map_id) ==> (
            start[i].repeat->0).nanos > 0,
    ensures
        ids_unique(heap + aside),
        log_of(start, log, now, map_id),
        forall|i: int| 0 <= i < start.len() ==> ticked(#[trigger] start[i], heap + aside, now, map_id),
        forall|id: u64| #[trigger] has_id(heap + aside, id) ==> has_id(start, id) && task_of(
            heap + aside,
            id,
        ).repeat == task_of(start, id).repeat,
{
    let after = heap + aside;
    assert forall|id: u64| !(#[trigger] has_id(heap, id) && has_id(aside, id)) by {
        assert(standing(start, heap, aside, log, low, now, map_id, id));
    }
    lemma_joined(heap, aside);
    assert forall|id: u64| #[trigger] has_id(after, id) implies has_id(start, id) && task_of(
        after,
        id,
    ).repeat == task_of(start, id).repeat by {
        assert(standing(start, heap, aside, log, low, now, map_id, id));
    }
    assert forall|f: Firing| #[trigger] log.contains(f) <==> owed(start, f, now, map_id) by {
        let (id, t) = f;
        assert(standing(start, heap, aside, log, low, now, map_id, id));
        assert(log.contains((id, t)) <==> log.contains(f));
        if has_id(start, id) && has_id(heap, id) {
            let o = task_of(start, id);
            let h = task_of(heap, id);
            let i = choose|i: int| 0 <= i < heap.len() && (#[trigger] heap[i]).id.0 == id;
            lemma_task_of(heap, i);
            assert(h.fire_at.nanos > now.nanos);
            if h.fire_at != o.fire_at {
                let m = choose|m: int| 0 <= m < start.len() && (#[trigger] start[m]).id.0 == id;
                lemma_task_of(start, m);
                assert(busy(start[m], now, map_id));
                lemma_beat_steps(
                    o.fire_at.nanos as int,
                    (o.repeat->0).nanos as int,
                    h.fire_at.nanos as int,
                );
                if o.beats(t, map_id) && t < h.fire_at.nanos {
                    assert(on_beat(o.fire_at.nanos as int, (o.repeat->0).nanos as int, t));
                }
            } else if o.beats(t, map_id) {
                assert(t >= o.fire_at.nanos);
            }
        }
    }
    assert forall|i: int| 0 <= i < start.len() implies ticked(
        #[trigger] start[i],
        after,
        now,
        map_id,
    ) by {
        let o = start[i];
        let id = o.id.0;
        lemma_task_of(start, i);
        assert(standing(start, heap, aside, log, low, now, map_id, id));
        if has_id(heap, id) {
            let h = task_of(heap, id);
            let j = choose|j: int| 0 <= j < heap.len() && (#[trigger] heap[j]).id.0 == id;
            lemma_task_of(heap, j);
            assert(task_of(after, id) == h);
            if o.cancelled {
                lemma_task_of(heap, front);
                let b = heap[front].id.0;
                assert(has_id(after, b) && task_of(after, b) == heap[front]);
            } else if h.fire_at == o.fire_at {
                assert(o.fire_at.nanos > now.nanos);
            }
        } else if o.cancelled {
            assert forall|k: u64| #[trigger]
                has_id(after, k) && !task_of(after, k).cancelled && task_of(after, k).fire_at.nanos
                    > now.nanos implies task_of(after, k).fire_at.nanos >= o.fire_at.nanos by {
                assert(standing(start, heap, aside, log, low, now, map_id, k));
                if has_id(heap, k) {
                    let j = choose|j: int| 0 <= j < heap.len() && (#[trigger] heap[j]).id.0 == k;
                    lemma_task_of(heap, j);
                }
            }
        }
    }
}

/// Whether a tick fires the task as a repeating timer.
pub open spec fn busy<F>(t: ScheduledTask<F>, now: Moment, map_id: u8) -> bool {
    t.repeats() && !t.cancelled && t.fire_at.nanos <= now.nanos && t.on_map(map_id)
}

impl<F> Scheduler<F> {
    /// Whether a tick of a map at this time fires these actions and leaves this.
    pub open spec fn ran(
        before: Self,
        after: Self,
        now: Moment,
        map_id: u8,
        fired: Seq<TaskAction<F>>,
    ) -> bool {
        &&& after.next_id == before.next_id
        &&& after.clock == before.clock
        &&& exists|log: Seq<Firing>| #[trigger]
            log_of(before.tasks@, log, now, map_id) && actions_of(before.tasks@, log, fired)
        &&& forall|i: int|
            0 <= i < before.tasks@.len() ==> ticked(
                #[trigger] before.tasks@[i],
                after.tasks@,
                now,
                map_id,
            )
        &&& forall|id: u64| #[trigger] has_id(after.tasks@, id) ==> has_id(before.tasks@, id)
    }

    /// Whether a tick at this time comes to an end: no timer that it fires repeats
    /// without a pause.
    pub open spec fn can_run(&self, now: Moment, map_id: u8) -> bool {
        forall|i: int|
            0 <= i < self.tasks@.len() && #[trigger] busy(self.tasks@[i], now, map_id) ==> (
            self.tasks@[i].repeat->0).nanos > 0
    }

    /// Fires all tasks that are due on a map, in the order of time, and returns
    /// their actions.
    ///
    /// A task that is tied to another map stays for that map's own tick. A
    /// repeating timer fires once for each interval that has passed and is
    /// scheduled for the next one. A repeating callback fires once.
    pub fn tick(&mut self, now: Moment, map_id: u8) -> (fired: Vec<TaskAction<F>>)
        requires
            old(self).wf(),
            now.wf(),
            old(self).can_run(now, map_id),
        ensures
            final(self).wf(),
            Self::ran(*old(self), *final(self), now, map_id, fired@),
    {
        let ghost start = self.tasks@;
        let ghost mut log: Seq<Firing> = Seq::empty();
        let ghost mut low: int = 0;
        let mut fired: Vec<TaskAction<F>> = Vec::new();
        let mut aside: Vec<ScheduledTask<F>> = Vec::new();
        proof {
            assert forall|id: u64| #[trigger]
                standing(start, self.tasks@, aside@, log, low, now, map_id, id) by {
                if has_id(start, id) {
                    let o = task_of(start, id);
                    assert forall|t: int| #[trigger] log.contains((id, t)) <==> o.beats(t, map_id)
                        && t < o.fire_at.nanos by {}
                }
            }
        }
        loop
            invariant
                start == old(self).tasks@,
                now.wf(),
                old(self).wf(),
                self.next_id == old(self).next_id,
                self.clock == old(self).clock,
                forall|i: int|
                    0 <= i < start.len() && #[trigger] busy(start[i], now, map_id) ==> (
                    start[i].repeat->0).nanos > 0,
                run_ok(start, self.tasks@, aside@, log, low, now, map_id),
                actions_of(start, log, fired@),
            ensures
                run_ok(start, self.tasks@, aside@, log, low, now, map_id),
                actions_of(start, log, fired@),
                self.next_id == old(self).next_id,
                self.clock == old(self).clock,
                self.tasks@.len() > 0 ==> exists|k: int|
                    at_front(self.tasks@, k) && !(#[trigger] self.tasks@[k]).cancelled
                        && self.tasks@[k].fire_at.nanos > now.nanos,
            decreases load(self.tasks@, now, self.tasks@.len() as int), self.tasks@.len(),
        {
            let found = self.earliest();
            if found.is_none() {
                break;
            }
            let k: usize = found.unwrap();
            let ghost heap = self.tasks@;
            if self.tasks[k].cancelled {
                proof {
                    lemma_discard(start, heap, aside@, log, low, now, map_id, k as int);
                    lemma_load_remove(heap, now, k as int, heap.len() as int);
                    low = heap[k as int].fire_at.nanos as int;
                }
                let dropped = self.tasks.remove(k);
                continue;
            }
            if self.tasks[k].fire_at.nanos > now.nanos {
                assert(at_front(self.tasks@, k as int));
                break;
            }
            proof {
                lemma_load_remove(heap, now, k as int, heap.len() as int);
                lemma_task_of(heap, k as int);
                assert(standing(
                    start,
                    heap,
                    aside@,
                    log,
                    low,
                    now,
                    map_id,
                    heap[k as int].id.0,
                ));
            }
            let task = self.tasks.remove(k);
            let elsewhere = match task.map_id {
                Some(m) => m != map_id,
                None => false,
            };
            if elsewhere {
                proof {
                    lemma_set_aside(start, heap, aside@, log, low, now, map_id, k as int);
                    low = heap[k as int].fire_at.nanos as int;
                }
                aside.push(task);
                continue;
            }
            let ghost stamp = (task.id.0, task.fire_at.nanos as int);
            match task.action {
                TaskAction::FireTimer { entity_serial, timer_id } => {
                    match task.repeat {
                        Some(interval) => {
                            proof {
                                let id = task.id.0;
                                let m = choose|m: int|
                                    0 <= m < start.len() && (#[trigger] start[m]).id.0 == id;
                                lemma_task_of(start, m);
                                assert(busy(start[m], now, map_id));
                                assert(old(self).tasks@[m].repeat is Some);
                            }
                            let next = ScheduledTask {
                                id: task.id,
                                fire_at: task.fire_at.after(interval),
                                action: TaskAction::FireTimer { entity_serial, timer_id },
                                repeat: Some(interval),
                                cancelled: false,
                                map_id: task.map_id,
                            };
                            proof {
                                lemma_fire_again(
                                    start,
                                    heap,
                                    aside@,
                                    log,
                                    low,
                                    now,
                                    map_id,
                                    k as int,
                                    next,
                                );
                                let rest = heap.remove(k as int);
                                lemma_load_prefix(
                                    rest,
                                    rest.push(next),
                                    now,
                                    rest.len() as int,
                                );
                            }
                            self.tasks.push(next);
                        },
                        None => {
                            proof {
                                lemma_fire_once(
                                    start,
                                    heap,
                                    aside@,
                                    log,
                                    low,
                                    now,
                                    map_id,
                                    k as int,
                                );
                            }
                        },
                    }
                    proof {
                        low = stamp.1;
                        log = log.push(stamp);
                    }
                    fired.push(TaskAction::FireTimer { entity_serial, timer_id });
                },
                TaskAction::Callback(c) => {
                    proof {
                        lemma_fire_once(start, heap, aside@, log, low, now, map_id, k as int);
                        low = stamp.1;
                    }
                    match c {
                        Some(callback) => {
                            proof {
                                log = log.push(stamp);
                            }
                            fired.push(TaskAction::Callback(Some(callback)));
                        },
                        None => {},
                    }
                },
            }
        }
        proof {
            let front = choose|k: int|
                at_front(self.tasks@, k) && !(#[trigger] self.tasks@[k]).cancelled
                    && self.tasks@[k].fire_at.nanos > now.nanos;
            lemma_run_ends(start, self.tasks@, aside@, log, low, now, map_id, front);
        }
        self.tasks.append(&mut aside);
        proof {
            let after = self.tasks@;
            assert forall|i: int| 0 <= i < after.len() implies (#[trigger] after[i]).id.0
                < self.next_id && (after[i].repeat is Some ==> (after[i].repeat->0).wf()) by {
                lemma_task_of(after, i);
                let id = after[i].id.0;
                assert(has_id(after, id));
                let m = choose|m: int| 0 <= m < start.len() && (#[trigger] start[m]).id.0 == id;
                lemma_task_of(start, m);
            }
        }
        fired
    }
}

/// Law: a cancelled task never fires, however late the tick.
pub proof fn cancelled_never_fires<F>(
    tasks: Seq<ScheduledTask<F>>,
    log: Seq<Firing>,
    now: Moment,
    map_id: u8,
    id: u64,
    t: int,
)
    requires
        has_id(tasks, id),
        task_of(tasks, id).cancelled,
        log_of(tasks, log, now, map_id),
    ensures
        !log.contains((id, t)),
{
    assert(!owed(tasks, (id, t), now, map_id));
}

/// Law: a task tied to another map does not fire and waits unchanged.
pub proof fn other_maps_wait<F>(
    tasks: Seq<ScheduledTask<F>>,
    log: Seq<Firing>,
    after: Seq<ScheduledTask<F>>,
    now: Moment,
    map_id: u8,
    i: int,
    t: int,
)
    requires
        ids_unique(tasks),
        0 <= i < tasks.len(),
        !tasks[i].cancelled,
        !tasks[i].on_map(map_id),
        log_of(tasks, log, now, map_id),
        ticked(tasks[i], after, now, map_id),
    ensures
        !log.contains((tasks[i].id.0, t)),
        has_id(after, tasks[i].id.0),
        task_of(after, tasks[i].id.0) == tasks[i],
{
    lemma_task_of(tasks, i);
    assert(!owed(tasks, (tasks[i].id.0, t), now, map_id));
}

/// Law: a live task fires by the first tick of its map at or after its time.
pub proof fn due_task_fires<F>(
    tasks: Seq<ScheduledTask<F>>,
    log: Seq<Firing>,
    now: Moment,
    map_id: u8,
    i: int,
)
    requires
        ids_unique(tasks),
        0 <= i < tasks.len(),
        !tasks[i].cancelled,
        tasks[i].loaded(),
        tasks[i].on_map(map_id),
        tasks[i].fire_at.nanos <= now.nanos,
        log_of(tasks, log, now, map_id),
    ensures
        log.contains((tasks[i].id.0, tasks[i].fire_at.nanos as int)),
{
    lemma_task_of(tasks, i);
    assert(owed(tasks, (tasks[i].id.0, tasks[i].fire_at.nanos as int), now, map_id));
}

/// Law: a repeating timer that is due fires once at its time and once more after each
/// interval, up to now and not beyond, and is then set for the first time after now.
pub proof fn timers_keep_the_beat<F>(
    tasks: Seq<ScheduledTask<F>>,
    log: Seq<Firing>,
    after: Seq<ScheduledTask<F>>,
    now: Moment,
    map_id: u8,
    i: int,
    n: nat,
)
    requires
        ids_unique(tasks),
        0 <= i < tasks.len(),
        !tasks[i].cancelled,
        tasks[i].action is FireTimer,
        tasks[i].map_id is None || tasks[i].map_id == Some(map_id),
        tasks[i].repeat is Some,
        (tasks[i].repeat->0).nanos > 0,
        tasks[i].fire_at.nanos <= now.nanos,
        log_of(tasks, log, now, map_id),
        ticked(tasks[i], after, now, map_id),
    ensures
        ({
            let o = tasks[i];
            let d = (o.repeat->0).nanos as int;
            let id = o.id.0;
            let a = task_of(after, id);
            &&& log.contains((id, o.fire_at.nanos + n * d)) <==> o.fire_at.nanos + n * d
                <= now.nanos
            &&& forall|t: int| #[trigger]
                log.contains((id, t)) && t > o.fire_at.nanos ==> log.contains((id, t - d))
            &&& forall|t: int| #[trigger]
                log.contains((id, t)) ==> o.fire_at.nanos <= t <= now.nanos
            &&& has_id(after, id)
            &&& a.action == o.action
            &&& a.repeat == o.repeat
            &&& a.map_id == o.map_id
            &&& !a.cancelled
            &&& now.nanos < a.fire_at.nanos
            &&& log.contains((id, a.fire_at.nanos - d))
        }),
{
    let o = tasks[i];
    let f = o.fire_at.nanos as int;
    let d = (o.repeat->0).nanos as int;
    let id = o.id.0;
    lemma_task_of(tasks, i);
    let m: int = n as int;
    assert(n * d == d * m) by (nonlinear_arith)
        requires
            m == n,
    ;
    assert(n * d >= 0) by (nonlinear_arith)
        requires
            d > 0,
    ;
    lemma_mod_multiples_basic(m, d);
    assert(m * d == n * d);
    assert(on_beat(f, d, f + n * d));
    assert(o.beats(f + n * d, map_id));
    assert(log.contains((id, f + n * d)) <==> owed(tasks, (id, f + n * d), now, map_id));
    assert forall|t: int| #[trigger] log.contains((id, t)) && t > f implies log.contains(
        (id, t - d),
    ) by {
        assert(owed(tasks, (id, t), now, map_id));
        lemma_small_mod(0, d as nat);
        assert(on_beat(f, d, f));
        lemma_beat_steps(f, d, f);
        assert(on_beat(f, d, t));
        assert(t >= f + d);
        lemma_mod_sub_multiples_vanish(t - f, d);
        assert((t - d - f) == (-d + (t - f)));
        assert(on_beat(f, d, t - d));
        assert(owed(tasks, (id, t - d), now, map_id));
    }
    assert forall|t: int| #[trigger] log.contains((id, t)) implies f <= t <= now.nanos by {
        assert(owed(tasks, (id, t), now, map_id));
    }
    let a = task_of(after, id);
    let t = a.fire_at.nanos as int;
    lemma_small_mod(0, d as nat);
    assert(on_beat(f, d, f));
    lemma_beat_steps(f, d, f);
    assert(on_beat(f, d, t));
    assert(t >= f + d);
    lemma_mod_sub_multiples_vanish(t - f, d);
    assert((t - d - f) == (-d + (t - f)));
    assert(on_beat(f, d, t - d));
    assert(owed(tasks, (id, t - d), now, map_id));
}

/// Law: a callback, or a timer that does not repeat, fires once, when it is due, and is
/// then gone. A callback that was taken before does not fire.
pub proof fn others_fire_once<F>(
    tasks: Seq<ScheduledTask<F>>,
    log: Seq<Firing>,
    after: Seq<ScheduledTask<F>>,
    now: Moment,
    map_id: u8,
    i: int,
    t: int,
)
    requires
        ids_unique(tasks),
        0 <= i < tasks.len(),
        !tasks[i].cancelled,
        tasks[i].action is Callback || tasks[i].repeat is None,
        tasks[i].map_id is None || tasks[i].map_id == Some(map_id),
        tasks[i].fire_at.nanos <= now.nanos,
        log_of(tasks, log, now, map_id),
        ticked(tasks[i], after, now, map_id),
    ensures
        log.contains((tasks[i].id.0, t)) <==> t == tasks[i].fire_at.nanos && !(
        tasks[i].action matches TaskAction::Callback(c) && c is None),
        !has_id(after, tasks[i].id.0),
{
    lemma_task_of(tasks, i);
    assert(log.contains((tasks[i].id.0, t)) <==> owed(tasks, (tasks[i].id.0, t), now, map_id));
}

/// Law: nothing fires before its time, and what is not due yet waits unchanged.
pub proof fn nothing_fires_early<F>(
    tasks: Seq<ScheduledTask<F>>,
    log: Seq<Firing>,
    after: Seq<ScheduledTask<F>>,
    now: Moment,
    map_id: u8,
    i: int,
    t: int,
)
    requires
        ids_unique(tasks),
        0 <= i < tasks.len(),
        !tasks[i].cancelled,
        tasks[i].fire_at.nanos > now.nanos,
        log_of(tasks, log, now, map_id),
        ticked(tasks[i], after, now, map_id),
    ensures
        !log.contains((tasks[i].id.0, t)),
        has_id(after, tasks[i].id.0),
        task_of(after, tasks[i].id.0) == tasks[i],
{
    lemma_task_of(tasks, i);
    assert(log.contains((tasks[i].id.0, t)) <==> owed(tasks, (tasks[i].id.0, t), now, map_id));
}

/// Law: what a tick fires comes in the order of time, each from a task that was waiting,
/// not cancelled, and due on this map by now.
pub proof fn firings_come_in_the_order_of_time<F>(
    before: Scheduler<F>,
    after: Scheduler<F>,
    now: Moment,
    map_id: u8,
    fired: Seq<TaskAction<F>>,
) -> (log: Seq<Firing>)
    requires
        before.wf(),
        Scheduler::ran(before, after, now, map_id, fired),
    ensures
        log.len() == fired.len(),
        forall|j: int, k: int| 0 <= j < k < log.len() ==> (#[trigger] log[j]).1 <= (
        #[trigger] log[k]).1 && log[j] != log[k],
        forall|k: int|
            0 <= k < log.len() ==> exists|i: int|
                {
                    &&& 0 <= i < before.tasks@.len()
                    &&& (#[trigger] before.tasks@[i]).id.0 == (#[trigger] log[k]).0
                    &&& !before.tasks@[i].cancelled
                    &&& before.tasks@[i].map_id is None || before.tasks@[i].map_id == Some(map_id)
                    &&& before.tasks@[i].fire_at.nanos <= log[k].1 <= now.nanos
                    &&& fired[k] == before.tasks@[i].action
                },
{
    let tasks = before.tasks@;
    let log = choose|log: Seq<Firing>| #[trigger]
        log_of(tasks, log, now, map_id) && actions_of(tasks, log, fired);
    assert forall|k: int| 0 <= k < log.len() implies exists|i: int|
        {
            &&& 0 <= i < tasks.len()
            &&& (#[trigger] tasks[i]).id.0 == (#[trigger] log[k]).0
            &&& !tasks[i].cancelled
            &&& tasks[i].map_id is None || tasks[i].map_id == Some(map_id)
            &&& tasks[i].fire_at.nanos <= log[k].1 <= now.nanos
            &&& fired[k] == tasks[i].action
        } by {
        assert(log.contains(log[k]));
        assert(owed(tasks, log[k], now, map_id));
        let i = choose|i: int| 0 <= i < tasks.len() && (#[trigger] tasks[i]).id.0 == log[k].0;
        lemma_task_of(tasks, i);
        assert(tasks[i].id.0 == log[k].0);
    }
    log
}

impl<F> Default for Scheduler<F> {
    fn default() -> (s: Scheduler<F>)
        ensures
            s.wf(),
            s.tasks@ == Seq::<ScheduledTask<F>>::empty(),
            s.next_id == 1,
    {
        Scheduler::new()
    }
}

} // verus!

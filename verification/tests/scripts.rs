//! Events for scripts, and when scripts run.

use framework::mitos::event_buffer::{event_passes_filter, Received};
use framework::mitos::manager::{ManagerAction, ScriptCommand, ScriptManager};
use framework::mitos::runtime::{setup_code, wait_deadline, wait_turn, WaitTurn};
use framework::mitos::{
    AnimateOpts, BroadcastEventBuffer, EffectParams, EventPosition, SayOpts, SimpleEventBuffer,
    SpatialFilter,
};
use framework::time::Moment;
use tokio::sync::broadcast;

fn filter() -> SpatialFilter {
    SpatialFilter { x_min: 2, y_min: 2, x_max: 4, y_max: 4 }
}

#[test]
fn positions_pass_rectangles() {
    let f = filter();
    assert!(f.contains(2, 4));
    assert!(!f.contains(5, 4));
    assert!(event_passes_filter(EventPosition::Single(3, 3), &f));
    assert!(event_passes_filter(EventPosition::Dual(9, 9, 4, 2), &f));
    assert!(!event_passes_filter(EventPosition::Dual(9, 9, 1, 2), &f));
    assert!(event_passes_filter(EventPosition::Always, &f));
    assert!(!event_passes_filter(EventPosition::Never, &f));
}

#[test]
fn broadcast_events_wait_in_the_buffer() {
    let (tx, rx) = broadcast::channel(4);
    let mut b: BroadcastEventBuffer<u16, fn(&u16) -> EventPosition> = BroadcastEventBuffer::new(rx);
    assert_eq!(b.try_recv(), None);
    tx.send(1).unwrap();
    tx.send(2).unwrap();
    assert!(b.is_empty());
    assert_eq!(b.try_recv(), Some(1));
    assert!(!b.is_empty());
    assert_eq!(b.pop(), Some(2));
    // Too many at once: the oldest are lost, the others come.
    for n in 10..16 {
        tx.send(n).unwrap();
    }
    b.drain_broadcast();
    assert_eq!(b.pop(), Some(12));
    assert_eq!(b.pop(), Some(13));
    drop(tx);
    assert_eq!(b.try_recv(), Some(14));
    assert_eq!(b.try_recv(), Some(15));
    assert_eq!(b.try_recv(), None);
}

#[test]
fn rectangles_leave_events_out() {
    let (tx, rx) = broadcast::channel(8);
    let mut b = BroadcastEventBuffer::with_position_fn(rx, |n: &u16| EventPosition::Single(*n, *n));
    for n in 1..6 {
        tx.send(n).unwrap();
    }
    b.drain_broadcast();
    b.set_filter(filter());
    tx.send(1).unwrap();
    tx.send(3).unwrap();
    b.drain_broadcast();
    let mut held = Vec::new();
    while let Some(n) = b.pop() {
        held.push(n);
    }
    assert_eq!(held, vec![2, 3, 4, 3]);
    b.clear_filter();
    assert!(b.take_in(Received::Event(9)));
    assert!(b.take_in(Received::Lagged(2)));
    assert!(!b.take_in(Received::Empty));
    assert!(!b.take_in(Received::Closed));
    assert_eq!(b.pop(), Some(9));
    assert_eq!(b.pop(), None);
}

#[test]
fn simple_buffers_hold_the_newest() {
    let mut b = SimpleEventBuffer::new(2);
    for n in 1..4 {
        b.push(n);
    }
    assert_eq!(b.len(), 2);
    assert_eq!(b.pop(), Some(2));
    assert_eq!(b.pop(), Some(3));
    assert!(b.is_empty());
    let mut narrow = SimpleEventBuffer::new(0);
    narrow.push(1);
    narrow.push(2);
    assert_eq!(narrow.len(), 1);
    assert_eq!(narrow.pop(), Some(2));
}

#[test]
fn one_script_runs_at_a_time() {
    let mut m = ScriptManager::new();
    assert!(m.handle(ScriptCommand::Reload).is_empty());
    let a = m.handle(ScriptCommand::RunFile("a.lua".to_string()));
    assert!(matches!(
        &a[..],
        [ManagerAction::StartFile(f), ManagerAction::StartWatcher(w)] if f == "a.lua" && w == "a.lua"
    ));
    let a = m.handle(ScriptCommand::Reload);
    assert!(matches!(
        &a[..],
        [ManagerAction::StopTask, ManagerAction::StartFile(f)] if f == "a.lua"
    ));
    let a = m.handle(ScriptCommand::RunCode { code: "log(1)".to_string() });
    assert!(matches!(
        &a[..],
        [ManagerAction::StopTask, ManagerAction::StopWatcher, ManagerAction::StartCode(c)]
            if c == "log(1)"
    ));
    assert!(m.handle(ScriptCommand::Reload).is_empty());
    assert!(matches!(&m.handle(ScriptCommand::Stop)[..], [ManagerAction::StopTask]));
    assert!(m.handle(ScriptCommand::Stop).is_empty());
    m.handle(ScriptCommand::RunFile("b.lua".to_string()));
    assert!(matches!(
        &m.shut_down()[..],
        [ManagerAction::AbortTask, ManagerAction::StopWatcher]
    ));
}

#[test]
fn scripts_find_others_in_their_directory() {
    let code = setup_code("C:\\lua");
    assert_eq!(
        code,
        "\n            package.path = \"C:/lua/?.lua;C:/lua/?/init.lua;\" .. package.path\n            SCRIPTS_DIR = \"C:/lua\"\n            "
    );
}

#[test]
fn waiting_ends_at_the_deadline() {
    let at = |nanos| Moment { nanos };
    let end = wait_deadline(at(5), 60);
    assert_eq!(end, at(60_000_005));
    assert_eq!(wait_turn(end, at(5)), WaitTurn::PollOrSleep(at(50_000_005)));
    assert_eq!(wait_turn(end, at(20_000_000)), WaitTurn::PollOrSleep(end));
    assert_eq!(wait_turn(end, end), WaitTurn::GiveUp);
}

#[test]
fn parameters_have_defaults() {
    let e = EffectParams::default();
    assert_eq!((e.direction_type, e.speed, e.duration, e.fixed_direction), (2, 10, 30, true));
    assert_eq!(AnimateOpts::default().repeat_count, 1);
    let s = SayOpts::default();
    assert_eq!((s.speech_type, s.color, s.font, s.name), (0, 0x03B2, 3, None));
}

//! How controllers have their turns.

use std::sync::Arc;

use vstd::prelude::*;

use super::context::Scene;
use super::host::{ControllerHost, Stage};
use super::traits::{ControllerDef, EntityController, Occasion};
use crate::continuum::container::ZoneContainers;
use crate::continuum::item_props::ZoneItemProps;
use crate::continuum::traits::EntityStore;
use crate::continuum::world_event::WorldEvent;
use crate::time::{Duration, Moment};
use crate::vessel::entity::Entity;
use crate::vessel::static_data::StaticDataProvider;

verus! {

/// What a controller finds on a stage.
pub open spec fn scene_of<
    E: Entity,
    S: EntityStore<E>,
    D: StaticDataProvider,
    C: ZoneContainers,
    P: ZoneItemProps,
    K,
    F,
>(s: Stage<E, S, D, C, P, K, F>) -> Scene<E, S, D, C, P, F> {
    Scene { zone: s.zone, out: s.out, timers: s.timers }
}

/// Law: one controller at a time is called, for its entity and with the access that it
/// wants. No other controller changes, and it stays with its entity and on its map.
pub proof fn calls_reach_one_controller<
    Def: ControllerDef,
    E: Entity,
    S: EntityStore<E>,
    D: StaticDataProvider,
    C: ZoneContainers,
    P: ZoneItemProps,
    K: EntityController<Def, E, S, D, C, P, F>,
    F,
>(
    a: Stage<E, S, D, C, P, K, F>,
    b: Stage<E, S, D, C, P, K, F>,
    serial: u32,
    occasion: Occasion<Def>,
    other: u32,
)
    requires
        ControllerHost::<Def, K, F>::called(a, b, serial, occasion),
    ensures
        !a.controllers.contains_key(serial) ==> b == a,
        a.controllers.contains_key(serial) ==> {
            let was = a.controllers[serial];
            let now = b.controllers[serial];
            &&& b.controllers.contains_key(serial)
            &&& now.entity_serial == was.entity_serial
            &&& now.map_id == was.map_id
            &&& K::acts(
                was.controller,
                now.controller,
                was.entity_serial,
                was.controller.level(),
                scene_of(a),
                scene_of(b),
                occasion,
            )
        },
        other != serial ==> (b.controllers.contains_key(other) <==> a.controllers.contains_key(
            other,
        )) && (a.controllers.contains_key(other) ==> b.controllers[other]
            == a.controllers[other]),
        b.zone.map_id == a.zone.map_id,
{
}

/// Law: a controller on the map of the zone for which nothing waits is called once in its
/// turn, for the tick, with the time that has passed; one on another map is not called.
pub proof fn turns_are_ticks<
    Def: ControllerDef,
    E: Entity,
    S: EntityStore<E>,
    D: StaticDataProvider,
    C: ZoneContainers,
    P: ZoneItemProps,
    K: EntityController<Def, E, S, D, C, P, F>,
    F,
>(a: Stage<E, S, D, C, P, K, F>, b: Stage<E, S, D, C, P, K, F>, serial: u32, dt: Duration)
    requires
        ControllerHost::<Def, K, F>::had_turn(a, b, serial, dt),
        a.controllers.contains_key(serial),
        !a.out.watchers.contains_key(serial) || !(a.out.watchers[serial].target is Buffer),
    ensures
        a.controllers[serial].map_id == a.zone.map_id ==> K::acts(
            a.controllers[serial].controller,
            b.controllers[serial].controller,
            a.controllers[serial].entity_serial,
            a.controllers[serial].controller.level(),
            scene_of(a),
            scene_of(b),
            Occasion::Tick(dt),
        ),
        a.controllers[serial].map_id != a.zone.map_id ==> b == a,
{
}

/// Law: what waits for a controller that watches the world is all that its buffer holds; when
/// it was taken the buffer is empty, and nothing else has changed.
pub proof fn waiting_events_are_taken<
    E: Entity,
    S: EntityStore<E>,
    D: StaticDataProvider,
    C: ZoneContainers,
    P: ZoneItemProps,
    K,
    F,
>(a: Stage<E, S, D, C, P, K, F>, serial: u32, other: u32)
    requires
        a.out.observing,
        a.out.watchers.contains_key(serial),
        a.out.watchers[serial].target is Buffer,
    ensures
        a.waiting(serial) == a.out.watchers[serial].target->Buffer_0,
        ({
            let b = a.collected(serial);
            &&& b.waiting(serial).len() == 0
            &&& b.out.watchers.contains_key(serial)
            &&& b.out.watchers[serial].view_rect == a.out.watchers[serial].view_rect
            &&& b.out.watchers[serial].map_id == a.out.watchers[serial].map_id
            &&& other != serial ==> b.waiting(other) == a.waiting(other)
            &&& b.out.events == a.out.events
            &&& b.zone == a.zone
            &&& b.controllers == a.controllers
            &&& b.timers == a.timers
        }),
{
}

/// Law: a controller hears of events one by one, the oldest first, each once: there is a
/// stage after each, and from one to the next it was called for the event between them.
pub proof fn events_are_heard_in_order<
    Def: ControllerDef,
    E: Entity,
    S: EntityStore<E>,
    D: StaticDataProvider,
    C: ZoneContainers,
    P: ZoneItemProps,
    K: EntityController<Def, E, S, D, C, P, F>,
    F,
>(
    a: Stage<E, S, D, C, P, K, F>,
    b: Stage<E, S, D, C, P, K, F>,
    serial: u32,
    events: Seq<Arc<WorldEvent>>,
) -> (stages: Seq<Stage<E, S, D, C, P, K, F>>)
    requires
        ControllerHost::<Def, K, F>::heard_all(a, b, serial, events),
    ensures
        stages.len() == events.len() + 1,
        stages[0] == a,
        stages.last() == b,
        forall|i: int|
            0 <= i < events.len() ==> ControllerHost::<Def, K, F>::called_apart(
                stages[i],
                stages[i + 1],
                serial,
                Occasion::WorldEvent(#[trigger] events[i]),
            ),
    decreases events.len(),
{
    if events.len() == 0 {
        seq![a]
    } else {
        let head = events.drop_last();
        let mid = choose|mid: Stage<E, S, D, C, P, K, F>|
            ControllerHost::<Def, K, F>::heard_all(a, mid, serial, head)
                && #[trigger] ControllerHost::<Def, K, F>::called_apart(
                mid,
                b,
                serial,
                Occasion::WorldEvent(events.last()),
            );
        let before = events_are_heard_in_order::<Def, E, S, D, C, P, K, F>(a, mid, serial, head);
        let stages = before.push(b);
        assert forall|i: int| 0 <= i < events.len() implies ControllerHost::<Def, K, F>::called_apart(
            stages[i],
            stages[i + 1],
            serial,
            Occasion::WorldEvent(#[trigger] events[i]),
        ) by {
            if i < head.len() {
                assert(head[i] == events[i]);
            }
        }
        stages
    }
}

/// Law: all controllers have their turns, each once, one after the other.
pub proof fn everyone_has_a_turn<
    Def: ControllerDef,
    E: Entity,
    S: EntityStore<E>,
    D: StaticDataProvider,
    C: ZoneContainers,
    P: ZoneItemProps,
    K: EntityController<Def, E, S, D, C, P, F>,
    F,
>(
    a: Stage<E, S, D, C, P, K, F>,
    b: Stage<E, S, D, C, P, K, F>,
    serials: Seq<u32>,
    dt: Duration,
) -> (stages: Seq<Stage<E, S, D, C, P, K, F>>)
    requires
        ControllerHost::<Def, K, F>::had_turns(a, b, serials, dt),
    ensures
        stages.len() == serials.len() + 1,
        stages[0] == a,
        stages.last() == b,
        forall|i: int|
            0 <= i < serials.len() ==> ControllerHost::<Def, K, F>::had_turn(
                stages[i],
                stages[i + 1],
                #[trigger] serials[i],
                dt,
            ),
    decreases serials.len(),
{
    if serials.len() == 0 {
        seq![a]
    } else {
        let head = serials.drop_last();
        let mid = choose|mid: Stage<E, S, D, C, P, K, F>|
            ControllerHost::<Def, K, F>::had_turns(a, mid, head, dt)
                && #[trigger] ControllerHost::<Def, K, F>::had_turn(mid, b, serials.last(), dt);
        let before = everyone_has_a_turn::<Def, E, S, D, C, P, K, F>(a, mid, head, dt);
        let stages = before.push(b);
        assert forall|i: int| 0 <= i < serials.len() implies ControllerHost::<Def, K, F>::had_turn(
            stages[i],
            stages[i + 1],
            #[trigger] serials[i],
            dt,
        ) by {
            if i < head.len() {
                assert(head[i] == serials[i]);
            }
        }
        stages
    }
}

/// Law: the time that a tick brings is the time since the tick before, and the first one
/// brings none: two spans between three ticks add up to the span between the outer ones.
pub proof fn spans_between_ticks_add_up<Def: ControllerDef, K, F>(
    first: ControllerHost<Def, K, F>,
    second: ControllerHost<Def, K, F>,
    t0: Moment,
    t1: Moment,
    t2: Moment,
)
    requires
        first.last_tick == Some(t0),
        second.last_tick == Some(t1),
        t0.nanos <= t1.nanos <= t2.nanos,
    ensures
        first.since_last(t1).nanos + second.since_last(t2).nanos == first.since_last(t2).nanos,
        t0.nanos + first.since_last(t1).nanos == t1.nanos,
        second.since_last(t0).nanos == 0,
{
}

/// Law: a host that has not ticked yet brings no time along.
pub proof fn the_first_tick_brings_no_time<Def: ControllerDef, K, F>(
    host: ControllerHost<Def, K, F>,
    now: Moment,
)
    requires
        host.last_tick is None,
    ensures
        host.since_last(now).nanos == 0,
{
}

} // verus!

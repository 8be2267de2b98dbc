//! The host of all controllers.

use std::collections::HashMap;
use std::marker::PhantomData;
use std::sync::Arc;

use vstd::prelude::*;

use super::context::{ControlContext, Scene};
use super::scheduler::{ScheduledTask, Scheduler, TaskAction};
use super::traits::{ControllerDef, ControllerProfile, EntityController, Occasion};
use super::zone_access::{Outlet, OutletView};
use crate::collections::map_keys;
use crate::continuum::container::ZoneContainers;
use crate::continuum::item_props::ZoneItemProps;
use crate::continuum::observer::{ObserverRegistry, ObserverView, TargetView};
use crate::continuum::traits::EntityStore;
use crate::continuum::world_event::WorldEvent;
use crate::continuum::zone::Zone;
use crate::time::{Duration, Moment};
use crate::vessel::entity::Entity;
use crate::vessel::static_data::StaticDataProvider;

verus! {

broadcast use vstd::std_specs::hash::group_hash_axioms;

/// A controller, whom it controls, and the map on which that entity is.
pub struct ControllerEntry<K> {
    pub controller: K,
    pub entity_serial: u32,
    pub map_id: u8,
}

/// All controllers, on whatever map, and their timers. The host is called for one
/// zone at a time; controllers of entities on other maps are left alone.
pub struct ControllerHost<Def: ControllerDef, K, F> {
    pub controllers: HashMap<u32, ControllerEntry<K>>,
    pub scheduler: Scheduler<F>,
    pub last_tick: Option<Moment>,
    /// Marks the types of news and commands.
    pub marker: PhantomData<Def>,
}

/// All that a call of controllers can change.
pub struct Stage<
    E: Entity,
    S: EntityStore<E>,
    D: StaticDataProvider,
    C: ZoneContainers,
    P: ZoneItemProps,
    K,
    F,
> {
    pub controllers: Map<u32, ControllerEntry<K>>,
    pub timers: Scheduler<F>,
    pub zone: Zone<E, S, D, C, P>,
    pub out: OutletView,
}

impl<
    E: Entity,
    S: EntityStore<E>,
    D: StaticDataProvider,
    C: ZoneContainers,
    P: ZoneItemProps,
    K,
    F,
> Stage<E, S, D, C, P, K, F> {
    /// The stage with the way to those who watch the world closed.
    pub open spec fn secluded(self) -> Self {
        Stage { out: OutletView { observing: false, ..self.out }, ..self }
    }

    /// The events that wait for the controller of an entity.
    pub open spec fn waiting(self, serial: u32) -> Seq<Arc<WorldEvent>> {
        if self.out.observing && self.out.watches(serial) {
            self.out.watchers[serial].target->Buffer_0
        } else {
            Seq::empty()
        }
    }

    /// After the waiting events were taken.
    pub open spec fn collected(self, serial: u32) -> Self {
        if self.out.observing && self.out.watches(serial) {
            Stage {
                out: OutletView {
                    watchers: self.out.watchers.insert(
                        serial,
                        ObserverView {
                            target: TargetView::Buffer(Seq::empty()),
                            ..self.out.watchers[serial]
                        },
                    ),
                    ..self.out
                },
                ..self
            }
        } else {
            self
        }
    }
}

impl<Def: ControllerDef, K, F> ControllerHost<Def, K, F> {
    /// Whether a controller was called for an occasion. Without one nothing happens.
    pub open spec fn called<
        E: Entity,
        S: EntityStore<E>,
        D: StaticDataProvider,
        C: ZoneContainers,
        P: ZoneItemProps,
    >(a: Stage<E, S, D, C, P, K, F>, b: Stage<E, S, D, C, P, K, F>, serial: u32, occasion: Occasion<Def>) -> bool where K: EntityController<Def, E, S, D, C, P, F> {
        if a.controllers.contains_key(serial) {
            let entry = a.controllers[serial];
            &&& b.controllers.contains_key(serial)
            &&& b.controllers == a.controllers.insert(
                serial,
                ControllerEntry { controller: b.controllers[serial].controller, ..entry },
            )
            &&& b.zone.map_id == a.zone.map_id
            &&& b.out.publishing == a.out.publishing
            &&& b.out.observing == a.out.observing
            &&& K::acts(
                entry.controller,
                b.controllers[serial].controller,
                entry.entity_serial,
                entry.controller.level(),
                Scene { zone: a.zone, out: a.out, timers: a.timers },
                Scene { zone: b.zone, out: b.out, timers: b.timers },
                occasion,
            )
        } else {
            b == a
        }
    }

    /// Whether a controller was called for an occasion, out of reach of those who watch
    /// the world.
    pub open spec fn called_apart<
        E: Entity,
        S: EntityStore<E>,
        D: StaticDataProvider,
        C: ZoneContainers,
        P: ZoneItemProps,
    >(a: Stage<E, S, D, C, P, K, F>, b: Stage<E, S, D, C, P, K, F>, serial: u32, occasion: Occasion<Def>) -> bool where K: EntityController<Def, E, S, D, C, P, F> {
        &&& Self::called(a.secluded(), b.secluded(), serial, occasion)
        &&& b.out.observing == a.out.observing
    }

    /// Whether what fired was dealt with, one after the other: a timer is news for its
    /// entity, a callback is called.
    pub open spec fn fired_off<
        E: Entity,
        S: EntityStore<E>,
        D: StaticDataProvider,
        C: ZoneContainers,
        P: ZoneItemProps,
    >(a: Stage<E, S, D, C, P, K, F>, b: Stage<E, S, D, C, P, K, F>, fired: Seq<TaskAction<F>>) -> bool where K: EntityController<Def, E, S, D, C, P, F>, F: FnOnce()
        decreases fired.len(),
    {
        if fired.len() == 0 {
            b == a
        } else {
            match fired.last() {
                TaskAction::FireTimer { entity_serial, timer_id } => exists|mid: Stage<E, S, D, C, P, K, F>|
                    Self::fired_off(a, mid, fired.drop_last()) && #[trigger] Self::called_apart(
                        mid,
                        b,
                        entity_serial,
                        Occasion::Event(Def::timer_news(entity_serial, timer_id)),
                    ),
                TaskAction::Callback(callback) => {
                    &&& Self::fired_off(a, b, fired.drop_last())
                    &&& callback matches Some(f) ==> call_ensures(f, (), ())
                },
            }
        }
    }

    /// Whether a controller heard of events, one after the other.
    pub open spec fn heard_all<
        E: Entity,
        S: EntityStore<E>,
        D: StaticDataProvider,
        C: ZoneContainers,
        P: ZoneItemProps,
    >(a: Stage<E, S, D, C, P, K, F>, b: Stage<E, S, D, C, P, K, F>, serial: u32, events: Seq<Arc<WorldEvent>>) -> bool where K: EntityController<Def, E, S, D, C, P, F>
        decreases events.len(),
    {
        if events.len() == 0 {
            b == a
        } else {
            exists|mid: Stage<E, S, D, C, P, K, F>|
                Self::heard_all(a, mid, serial, events.drop_last()) && #[trigger] Self::called_apart(
                    mid,
                    b,
                    serial,
                    Occasion::WorldEvent(events.last()),
                )
        }
    }

    /// Whether a controller had its turn: on the map of its entity it hears of what
    /// waits for it and then has its tick; on any other map nothing happens.
    pub open spec fn had_turn<
        E: Entity,
        S: EntityStore<E>,
        D: StaticDataProvider,
        C: ZoneContainers,
        P: ZoneItemProps,
    >(a: Stage<E, S, D, C, P, K, F>, b: Stage<E, S, D, C, P, K, F>, serial: u32, dt: Duration) -> bool where K: EntityController<Def, E, S, D, C, P, F> {
        if a.controllers.contains_key(serial) && a.controllers[serial].map_id == a.zone.map_id {
            exists|mid: Stage<E, S, D, C, P, K, F>|
                Self::heard_all(a.collected(serial), mid, serial, a.waiting(serial))
                    && #[trigger] Self::called(mid, b, serial, Occasion::Tick(dt))
        } else {
            b == a
        }
    }

    /// Whether the controllers of a list had their turns, one after the other.
    pub open spec fn had_turns<
        E: Entity,
        S: EntityStore<E>,
        D: StaticDataProvider,
        C: ZoneContainers,
        P: ZoneItemProps,
    >(a: Stage<E, S, D, C, P, K, F>, b: Stage<E, S, D, C, P, K, F>, serials: Seq<u32>, dt: Duration) -> bool where K: EntityController<Def, E, S, D, C, P, F>
        decreases serials.len(),
    {
        if serials.len() == 0 {
            b == a
        } else {
            exists|mid: Stage<E, S, D, C, P, K, F>|
                Self::had_turns(a, mid, serials.drop_last(), dt) && #[trigger] Self::had_turn(
                    mid,
                    b,
                    serials.last(),
                    dt,
                )
        }
    }

    /// Whether all controllers had their turn, each once, in whichever order.
    pub open spec fn all_had_turns<
        E: Entity,
        S: EntityStore<E>,
        D: StaticDataProvider,
        C: ZoneContainers,
        P: ZoneItemProps,
    >(a: Stage<E, S, D, C, P, K, F>, b: Stage<E, S, D, C, P, K, F>, dt: Duration) -> bool where K: EntityController<Def, E, S, D, C, P, F> {
        exists|serials: Seq<u32>|
            {
                &&& #[trigger] Self::had_turns(a, b, serials, dt)
                &&& serials.no_duplicates()
                &&& serials.to_set() == a.controllers.dom()
            }
    }

    /// Whether a controller heard of news for all, on the map of its entity.
    pub open spec fn got_news<
        E: Entity,
        S: EntityStore<E>,
        D: StaticDataProvider,
        C: ZoneContainers,
        P: ZoneItemProps,
    >(a: Stage<E, S, D, C, P, K, F>, b: Stage<E, S, D, C, P, K, F>, serial: u32, event: Def::GlobalEvent) -> bool where K: EntityController<Def, E, S, D, C, P, F> {
        if a.controllers.contains_key(serial) && a.controllers[serial].map_id == a.zone.map_id {
            exists|copy: Def::GlobalEvent| #[trigger]
                Def::copy_of(event, copy) && Self::called(
                    a,
                    b,
                    serial,
                    Occasion::GlobalEvent(copy),
                )
        } else {
            b == a
        }
    }

    /// Whether the controllers of a list heard of news for all, one after the other.
    pub open spec fn got_news_all<
        E: Entity,
        S: EntityStore<E>,
        D: StaticDataProvider,
        C: ZoneContainers,
        P: ZoneItemProps,
    >(a: Stage<E, S, D, C, P, K, F>, b: Stage<E, S, D, C, P, K, F>, serials: Seq<u32>, event: Def::GlobalEvent) -> bool where K: EntityController<Def, E, S, D, C, P, F>
        decreases serials.len(),
    {
        if serials.len() == 0 {
            b == a
        } else {
            exists|mid: Stage<E, S, D, C, P, K, F>|
                Self::got_news_all(a, mid, serials.drop_last(), event) && #[trigger] Self::got_news(
                    mid,
                    b,
                    serials.last(),
                    event,
                )
        }
    }

    /// Whether all controllers heard of news for all, each once, in whichever order.
    pub open spec fn spread<
        E: Entity,
        S: EntityStore<E>,
        D: StaticDataProvider,
        C: ZoneContainers,
        P: ZoneItemProps,
    >(a: Stage<E, S, D, C, P, K, F>, b: Stage<E, S, D, C, P, K, F>, event: Def::GlobalEvent) -> bool where K: EntityController<Def, E, S, D, C, P, F> {
        exists|serials: Seq<u32>|
            {
                &&& #[trigger] Self::got_news_all(a, b, serials, event)
                &&& serials.no_duplicates()
                &&& serials.to_set() == a.controllers.dom()
            }
    }

    /// The host with a zone and the ways to tell.
    pub open spec fn stage<
        E: Entity,
        S: EntityStore<E>,
        D: StaticDataProvider,
        C: ZoneContainers,
        P: ZoneItemProps,
    >(&self, zone: Zone<E, S, D, C, P>, out: OutletView) -> Stage<E, S, D, C, P, K, F> {
        Stage { controllers: self.controllers@, timers: self.scheduler, zone, out }
    }

    /// The host with other timers, a zone and the ways to tell.
    pub open spec fn stage_with<
        E: Entity,
        S: EntityStore<E>,
        D: StaticDataProvider,
        C: ZoneContainers,
        P: ZoneItemProps,
    >(
        &self,
        timers: Scheduler<F>,
        zone: Zone<E, S, D, C, P>,
        out: OutletView,
    ) -> Stage<E, S, D, C, P, K, F> {
        Stage { controllers: self.controllers@, timers, zone, out }
    }

    pub open spec fn wf(&self) -> bool {
        self.scheduler.wf()
    }

    /// A host without controllers.
    pub fn new() -> (h: Self)
        ensures
            h.wf(),
            h.controllers@ == Map::<u32, ControllerEntry<K>>::empty(),
            h.scheduler.tasks@.len() == 0,
            h.last_tick is None,
    {
        ControllerHost {
            controllers: HashMap::new(),
            scheduler: Scheduler::new(),
            last_tick: None,
            marker: PhantomData,
        }
    }

    /// Gives an entity on a map a controller, in place of the one it has. Its pending
    /// timers follow it to the map.
    pub fn attach(&mut self, entity_serial: u32, controller: K, map_id: u8)
        requires
            old(self).wf(),
        ensures
            final(self).wf(),
            final(self).last_tick == old(self).last_tick,
            final(self).controllers@ == old(self).controllers@.insert(
                entity_serial,
                ControllerEntry { controller, entity_serial, map_id },
            ),
            final(self).scheduler.tasks@ == old(self).scheduler.tasks@.map_values(
                |t: ScheduledTask<F>|
                    if t.action matches TaskAction::FireTimer { entity_serial: s, .. } && s
                        == entity_serial {
                        ScheduledTask { map_id: Some(map_id), ..t }
                    } else {
                        t
                    },
            ),
            final(self).scheduler.next_id == old(self).scheduler.next_id,
    {
        self.scheduler.reassign_entity_map(entity_serial, map_id);
        self.controllers.insert(
            entity_serial,
            ControllerEntry { controller, entity_serial, map_id },
        );
    }

    /// Takes the controller of an entity away, and hands it out. Its timers stay.
    pub fn detach(&mut self, entity_serial: u32) -> (r: Option<K>)
        requires
            old(self).wf(),
        ensures
            final(self).wf(),
            r == if old(self).controllers@.contains_key(entity_serial) {
                Some(old(self).controllers@[entity_serial].controller)
            } else {
                None
            },
            final(self).controllers@ == old(self).controllers@.remove(entity_serial),
            final(self).scheduler == old(self).scheduler,
            final(self).last_tick == old(self).last_tick,
    {
        match self.controllers.remove(&entity_serial) {
            Some(e) => Some(e.controller),
            None => {
                assert(self.controllers@ =~= old(self).controllers@.remove(entity_serial));
                None
            },
        }
    }

    pub fn has_controller(&self, entity_serial: u32) -> (b: bool)
        ensures
            b == self.controllers@.contains_key(entity_serial),
    {
        self.controllers.contains_key(&entity_serial)
    }

    pub fn controller_count(&self) -> (n: usize)
        ensures
            n == self.controllers@.dom().len(),
    {
        self.controllers.len()
    }

    pub fn scheduler(&self) -> (s: &Scheduler<F>)
        ensures
            *s == self.scheduler,
    {
        &self.scheduler
    }

    /// Access to the timers.
    pub fn scheduler_mut(&mut self) -> (s: &mut Scheduler<F>)
        ensures
            *s == old(self).scheduler,
            *final(self) == (ControllerHost { scheduler: *final(s), ..*old(self) }),
    {
        &mut self.scheduler
    }

    fn call_tick<
        E: Entity,
        S: EntityStore<E>,
        D: StaticDataProvider,
        C: ZoneContainers,
        P: ZoneItemProps,
    >(&mut self, zone: &mut Zone<E, S, D, C, P>, outlet: &mut Outlet, serial: u32, dt: Duration) -> (found: bool)
        where K: EntityController<Def, E, S, D, C, P, F>,
        requires
            old(self).wf(),
            old(zone).wf(),
            old(outlet).wf(),
        ensures
            final(self).wf(),
            final(zone).wf(),
            final(outlet).wf(),
            final(self).last_tick == old(self).last_tick,
            found == old(self).controllers@.contains_key(serial),
            Self::called(
                old(self).stage(*old(zone), old(outlet)@),
                final(self).stage(*final(zone), final(outlet)@),
                serial,
                Occasion::Tick(dt),
            ),
    {
        let ghost before = *self;
        match self.controllers.remove(&serial) {
            Some(mut entry) => {
                let level = entry.controller.access_level();
                let mut ctx = ControlContext::new(
                    entry.entity_serial,
                    level,
                    zone,
                    outlet,
                    &mut self.scheduler,
                );
                entry.controller.tick(&mut ctx, dt);
                self.controllers.insert(serial, entry);
                assert(before.controllers@.remove(serial).insert(serial, entry)
                    =~= before.controllers@.insert(serial, entry));
                true
            },
            None => {
                assert(before.controllers@.remove(serial) =~= before.controllers@);
                false
            },
        }
    }

    fn call_event<
        E: Entity,
        S: EntityStore<E>,
        D: StaticDataProvider,
        C: ZoneContainers,
        P: ZoneItemProps,
    >(&mut self, zone: &mut Zone<E, S, D, C, P>, outlet: &mut Outlet, serial: u32, event: Def::Event) -> (found: bool)
        where K: EntityController<Def, E, S, D, C, P, F>,
        requires
            old(self).wf(),
            old(zone).wf(),
            old(outlet).wf(),
        ensures
            final(self).wf(),
            final(zone).wf(),
            final(outlet).wf(),
            final(self).last_tick == old(self).last_tick,
            found == old(self).controllers@.contains_key(serial),
            Self::called(
                old(self).stage(*old(zone), old(outlet)@),
                final(self).stage(*final(zone), final(outlet)@),
                serial,
                Occasion::Event(event),
            ),
    {
        let ghost before = *self;
        match self.controllers.remove(&serial) {
            Some(mut entry) => {
                let level = entry.controller.access_level();
                let mut ctx = ControlContext::new(
                    entry.entity_serial,
                    level,
                    zone,
                    outlet,
                    &mut self.scheduler,
                );
                entry.controller.on_event(&mut ctx, event);
                self.controllers.insert(serial, entry);
                assert(before.controllers@.remove(serial).insert(serial, entry)
                    =~= before.controllers@.insert(serial, entry));
                true
            },
            None => {
                assert(before.controllers@.remove(serial) =~= before.controllers@);
                false
            },
        }
    }

    fn call_global<
        E: Entity,
        S: EntityStore<E>,
        D: StaticDataProvider,
        C: ZoneContainers,
        P: ZoneItemProps,
    >(&mut self, zone: &mut Zone<E, S, D, C, P>, outlet: &mut Outlet, serial: u32, event: Def::GlobalEvent) -> (found: bool)
        where K: EntityController<Def, E, S, D, C, P, F>,
        requires
            old(self).wf(),
            old(zone).wf(),
            old(outlet).wf(),
        ensures
            final(self).wf(),
            final(zone).wf(),
            final(outlet).wf(),
            final(self).last_tick == old(self).last_tick,
            found == old(self).controllers@.contains_key(serial),
            Self::called(
                old(self).stage(*old(zone), old(outlet)@),
                final(self).stage(*final(zone), final(outlet)@),
                serial,
                Occasion::GlobalEvent(event),
            ),
    {
        let ghost before = *self;
        match self.controllers.remove(&serial) {
            Some(mut entry) => {
                let level = entry.controller.access_level();
                let mut ctx = ControlContext::new(
                    entry.entity_serial,
                    level,
                    zone,
                    outlet,
                    &mut self.scheduler,
                );
                entry.controller.on_global_event(&mut ctx, event);
                self.controllers.insert(serial, entry);
                assert(before.controllers@.remove(serial).insert(serial, entry)
                    =~= before.controllers@.insert(serial, entry));
                true
            },
            None => {
                assert(before.controllers@.remove(serial) =~= before.controllers@);
                false
            },
        }
    }

    fn call_command<
        E: Entity,
        S: EntityStore<E>,
        D: StaticDataProvider,
        C: ZoneContainers,
        P: ZoneItemProps,
    >(&mut self, zone: &mut Zone<E, S, D, C, P>, outlet: &mut Outlet, serial: u32, cmd: Def::Command) -> (found: bool)
        where K: EntityController<Def, E, S, D, C, P, F>,
        requires
            old(self).wf(),
            old(zone).wf(),
            old(outlet).wf(),
        ensures
            final(self).wf(),
            final(zone).wf(),
            final(outlet).wf(),
            final(self).last_tick == old(self).last_tick,
            found == old(self).controllers@.contains_key(serial),
            Self::called(
                old(self).stage(*old(zone), old(outlet)@),
                final(self).stage(*final(zone), final(outlet)@),
                serial,
                Occasion::Command(cmd),
            ),
    {
        let ghost before = *self;
        match self.controllers.remove(&serial) {
            Some(mut entry) => {
                let level = entry.controller.access_level();
                let mut ctx = ControlContext::new(
                    entry.entity_serial,
                    level,
                    zone,
                    outlet,
                    &mut self.scheduler,
                );
                entry.controller.on_command(&mut ctx, cmd);
                self.controllers.insert(serial, entry);
                assert(before.controllers@.remove(serial).insert(serial, entry)
                    =~= before.controllers@.insert(serial, entry));
                true
            },
            None => {
                assert(before.controllers@.remove(serial) =~= before.controllers@);
                false
            },
        }
    }

    fn call_world<
        E: Entity,
        S: EntityStore<E>,
        D: StaticDataProvider,
        C: ZoneContainers,
        P: ZoneItemProps,
    >(&mut self, zone: &mut Zone<E, S, D, C, P>, outlet: &mut Outlet, serial: u32, event: &Arc<WorldEvent>) -> (found: bool)
        where K: EntityController<Def, E, S, D, C, P, F>,
        requires
            old(self).wf(),
            old(zone).wf(),
            old(outlet).wf(),
        ensures
            final(self).wf(),
            final(zone).wf(),
            final(outlet).wf(),
            final(self).last_tick == old(self).last_tick,
            found == old(self).controllers@.contains_key(serial),
            Self::called(
                old(self).stage(*old(zone), old(outlet)@),
                final(self).stage(*final(zone), final(outlet)@),
                serial,
                Occasion::WorldEvent(*event),
            ),
    {
        let ghost before = *self;
        match self.controllers.remove(&serial) {
            Some(mut entry) => {
                let level = entry.controller.access_level();
                let mut ctx = ControlContext::new(
                    entry.entity_serial,
                    level,
                    zone,
                    outlet,
                    &mut self.scheduler,
                );
                entry.controller.on_world_event(&mut ctx, event);
                self.controllers.insert(serial, entry);
                assert(before.controllers@.remove(serial).insert(serial, entry)
                    =~= before.controllers@.insert(serial, entry));
                true
            },
            None => {
                assert(before.controllers@.remove(serial) =~= before.controllers@);
                false
            },
        }
    }

    /// Whether a tick of a zone ran: the timers that were due are dealt with, then all
    /// controllers have their turn, with the time since the last tick.
    pub open spec fn ran_tick<
        E: Entity,
        S: EntityStore<E>,
        D: StaticDataProvider,
        C: ZoneContainers,
        P: ZoneItemProps,
    >(
        before: Self,
        after: Self,
        zone: Zone<E, S, D, C, P>,
        zone_after: Zone<E, S, D, C, P>,
        out: OutletView,
        out_after: OutletView,
        now: Moment,
    ) -> bool where K: EntityController<Def, E, S, D, C, P, F>, F: FnOnce() {
        &&& after.last_tick == Some(now)
        &&& exists|timers: Scheduler<F>, fired: Seq<TaskAction<F>>, mid: Stage<E, S, D, C, P, K, F>|
            {
                &&& #[trigger] Scheduler::ran(before.scheduler, timers, now, zone.map_id, fired)
                &&& #[trigger] Self::fired_off(
                    before.stage_with(timers, zone, out),
                    mid,
                    fired,
                )
                &&& Self::all_had_turns(
                    mid,
                    after.stage(zone_after, out_after),
                    before.since_last(now),
                )
            }
    }

    /// The time since the last tick, none if there was none.
    pub open spec fn since_last(&self, now: Moment) -> Duration {
        match self.last_tick {
            Some(t) => if now.nanos >= t.nanos {
                Duration { nanos: (now.nanos - t.nanos) as u128 }
            } else {
                Duration { nanos: 0 }
            },
            None => Duration { nanos: 0 },
        }
    }

    /// Calls the controller of an entity with news, out of reach of those who watch the
    /// world.
    fn call_event_apart<
        E: Entity,
        S: EntityStore<E>,
        D: StaticDataProvider,
        C: ZoneContainers,
        P: ZoneItemProps,
    >(
        &mut self,
        zone: &mut Zone<E, S, D, C, P>,
        outlet: &mut Outlet,
        serial: u32,
        event: Def::Event,
    )
        where K: EntityController<Def, E, S, D, C, P, F>,
        requires
            old(self).wf(),
            old(zone).wf(),
            old(outlet).wf(),
        ensures
            final(self).wf(),
            final(zone).wf(),
            final(outlet).wf(),
            final(self).last_tick == old(self).last_tick,
            final(self).controllers@.dom() == old(self).controllers@.dom(),
            final(zone).map_id == old(zone).map_id,
            Self::called_apart(
                old(self).stage(*old(zone), old(outlet)@),
                final(self).stage(*final(zone), final(outlet)@),
                serial,
                Occasion::Event(event),
            ),
    {
        let observing = outlet.observing;
        let ghost a = self.stage(*zone, outlet@);
        outlet.observing = false;
        assert(outlet@ =~= a.secluded().out);
        self.call_event(zone, outlet, serial, event);
        let ghost b = self.stage(*zone, outlet@);
        outlet.observing = observing;
        assert(self.controllers@.dom() =~= old(self).controllers@.dom());
        assert(self.stage(*zone, outlet@).secluded().out =~= b.out);
    }

    /// Calls the controller of an entity with what happened, out of reach of those who
    /// watch the world.
    fn call_world_apart<
        E: Entity,
        S: EntityStore<E>,
        D: StaticDataProvider,
        C: ZoneContainers,
        P: ZoneItemProps,
    >(
        &mut self,
        zone: &mut Zone<E, S, D, C, P>,
        outlet: &mut Outlet,
        serial: u32,
        event: &Arc<WorldEvent>,
    )
        where K: EntityController<Def, E, S, D, C, P, F>,
        requires
            old(self).wf(),
            old(zone).wf(),
            old(outlet).wf(),
        ensures
            final(self).wf(),
            final(zone).wf(),
            final(outlet).wf(),
            final(self).last_tick == old(self).last_tick,
            final(self).controllers@.dom() == old(self).controllers@.dom(),
            final(zone).map_id == old(zone).map_id,
            Self::called_apart(
                old(self).stage(*old(zone), old(outlet)@),
                final(self).stage(*final(zone), final(outlet)@),
                serial,
                Occasion::WorldEvent(*event),
            ),
    {
        let observing = outlet.observing;
        let ghost a = self.stage(*zone, outlet@);
        outlet.observing = false;
        assert(outlet@ =~= a.secluded().out);
        self.call_world(zone, outlet, serial, event);
        let ghost b = self.stage(*zone, outlet@);
        outlet.observing = observing;
        assert(self.controllers@.dom() =~= old(self).controllers@.dom());
        assert(self.stage(*zone, outlet@).secluded().out =~= b.out);
    }

    /// Gives a controller its turn.
    fn take_turn<
        E: Entity,
        S: EntityStore<E>,
        D: StaticDataProvider,
        C: ZoneContainers,
        P: ZoneItemProps,
    >(
        &mut self,
        zone: &mut Zone<E, S, D, C, P>,
        outlet: &mut Outlet,
        serial: u32,
        dt: Duration,
    )
        where K: EntityController<Def, E, S, D, C, P, F>,
        requires
            old(self).wf(),
            old(zone).wf(),
            old(outlet).wf(),
        ensures
            final(self).wf(),
            final(zone).wf(),
            final(outlet).wf(),
            final(self).last_tick == old(self).last_tick,
            final(self).controllers@.dom() == old(self).controllers@.dom(),
            final(zone).map_id == old(zone).map_id,
            Self::had_turn(
                old(self).stage(*old(zone), old(outlet)@),
                final(self).stage(*final(zone), final(outlet)@),
                serial,
                dt,
            ),
    {
        let in_zone = match self.controllers.get(&serial) {
            Some(e) => e.map_id == zone.map_id,
            None => false,
        };
        if !in_zone {
            return;
        }
        let ghost a = self.stage(*zone, outlet@);
        let ghost out0 = *outlet;
        let events: Vec<Arc<WorldEvent>> = if outlet.observing {
            outlet.observers.drain_controller_events(serial)
        } else {
            Vec::new()
        };
        let ghost start = self.stage(*zone, outlet@);
        proof {
            assert(events@ =~= a.waiting(serial));
            assert(outlet@ =~= a.collected(serial).out);
            assert(start == a.collected(serial));
            assert forall|id: u32| #[trigger]
                outlet.observers.is_controller(id) implies outlet.observers@[id].view_rect.proper() by {
                assert(out0.observers.is_controller(id));
            }
        }
        let mut i: usize = 0;
        assert(events@.take(0) =~= Seq::<Arc<WorldEvent>>::empty());
        while i < events.len()
            invariant
                i <= events@.len(),
                self.wf(),
                zone.wf(),
                outlet.wf(),
                self.last_tick == old(self).last_tick,
                self.controllers@.dom() == old(self).controllers@.dom(),
                zone.map_id == old(zone).map_id,
                Self::heard_all(
                    start,
                    self.stage(*zone, outlet@),
                    serial,
                    events@.take(i as int),
                ),
            decreases events@.len() - i,
        {
            let ghost mid = self.stage(*zone, outlet@);
            self.call_world_apart(zone, outlet, serial, &events[i]);
            proof {
                let post = events@.take(i + 1);
                assert(post.drop_last() =~= events@.take(i as int));
                assert(Self::called_apart(
                    mid,
                    self.stage(*zone, outlet@),
                    serial,
                    Occasion::WorldEvent(post.last()),
                ));
            }
            i += 1;
        }
        assert(events@.take(i as int) =~= events@);
        let ghost mid = self.stage(*zone, outlet@);
        assert(Self::heard_all(a.collected(serial), mid, serial, a.waiting(serial)));
        self.call_tick(zone, outlet, serial, dt);
        assert(self.controllers@.dom() =~= old(self).controllers@.dom());
        assert(Self::called(mid, self.stage(*zone, outlet@), serial, Occasion::Tick(dt)));
    }

    /// Deals with what fired.
    fn fire_off<
        E: Entity,
        S: EntityStore<E>,
        D: StaticDataProvider,
        C: ZoneContainers,
        P: ZoneItemProps,
    >(
        &mut self,
        zone: &mut Zone<E, S, D, C, P>,
        outlet: &mut Outlet,
        fired: Vec<TaskAction<F>>,
    ) where K: EntityController<Def, E, S, D, C, P, F>, F: FnOnce(),
        requires
            old(self).wf(),
            old(zone).wf(),
            old(outlet).wf(),
            forall|f: F| #[trigger] call_requires(f, ()),
        ensures
            final(self).wf(),
            final(zone).wf(),
            final(outlet).wf(),
            final(self).last_tick == old(self).last_tick,
            final(zone).map_id == old(zone).map_id,
            Self::fired_off(
                old(self).stage(*old(zone), old(outlet)@),
                final(self).stage(*final(zone), final(outlet)@),
                fired@,
            ),
    {
        let ghost start = self.stage(*zone, outlet@);
        let ghost all = fired@;
        let mut rest = fired;
        proof {
            assert(rest@ =~= all.skip(0));
            assert(all.take(0) =~= Seq::<TaskAction<F>>::empty());
        }
        while rest.len() > 0
            invariant
                rest@.len() <= all.len(),
                rest@ == all.skip(all.len() - rest@.len()),
                forall|f: F| #[trigger] call_requires(f, ()),
                self.wf(),
                zone.wf(),
                outlet.wf(),
                self.last_tick == old(self).last_tick,
                zone.map_id == old(zone).map_id,
                Self::fired_off(
                    start,
                    self.stage(*zone, outlet@),
                    all.take(all.len() - rest@.len()),
                ),
            decreases rest@.len(),
        {
            let ghost n = all.len() - rest@.len();
            let ghost mid = self.stage(*zone, outlet@);
            let action = rest.remove(0);
            proof {
                assert(all[n] == action);
                assert(all.take(n + 1).drop_last() =~= all.take(n));
                assert(all.take(n + 1).last() == action);
                assert(rest@ =~= all.skip(n + 1));
            }
            match action {
                TaskAction::FireTimer { entity_serial, timer_id } => {
                    let event = Def::timer_event(entity_serial, timer_id);
                    self.call_event_apart(zone, outlet, entity_serial, event);
                    assert(Self::called_apart(
                        mid,
                        self.stage(*zone, outlet@),
                        entity_serial,
                        Occasion::Event(Def::timer_news(entity_serial, timer_id)),
                    ));
                },
                TaskAction::Callback(callback) => {
                    if let Some(f) = callback {
                        f();
                    }
                },
            }
        }
        assert(all.take(all.len() as int) =~= all);
    }

    fn tick_inner<
        E: Entity,
        S: EntityStore<E>,
        D: StaticDataProvider,
        C: ZoneContainers,
        P: ZoneItemProps,
    >(
        &mut self,
        zone: &mut Zone<E, S, D, C, P>,
        outlet: &mut Outlet,
        now: Moment,
    ) where K: EntityController<Def, E, S, D, C, P, F>, F: FnOnce(),
        requires
            old(self).wf(),
            old(zone).wf(),
            old(outlet).wf(),
            now.wf(),
            old(self).scheduler.can_run(now, old(zone).map_id),
            forall|f: F| #[trigger] call_requires(f, ()),
        ensures
            final(self).wf(),
            final(zone).wf(),
            final(outlet).wf(),
            Self::ran_tick(
                *old(self),
                *final(self),
                *old(zone),
                *final(zone),
                old(outlet)@,
                final(outlet)@,
                now,
            ),
    {
        let ghost before = *self;
        let ghost zone0 = *zone;
        let ghost out0 = outlet@;
        let dt = match self.last_tick {
            Some(t) => now.since(t),
            None => Duration { nanos: 0 },
        };
        assert(dt == before.since_last(now));
        self.last_tick = Some(now);
        let fired = self.scheduler.tick(now, zone.map_id);
        let ghost timers = self.scheduler;
        let ghost actions = fired@;
        self.fire_off(zone, outlet, fired);
        let ghost mid = self.stage(*zone, outlet@);
        assert(Self::fired_off(before.stage_with(timers, zone0, out0), mid, actions));
        let serials = map_keys(&self.controllers);
        let mut i: usize = 0;
        assert(serials@.take(0) =~= Seq::<u32>::empty());
        while i < serials.len()
            invariant
                i <= serials@.len(),
                self.wf(),
                zone.wf(),
                outlet.wf(),
                self.last_tick == Some(now),
                Self::had_turns(mid, self.stage(*zone, outlet@), serials@.take(i as int), dt),
            decreases serials@.len() - i,
        {
            let ghost here = self.stage(*zone, outlet@);
            self.take_turn(zone, outlet, serials[i], dt);
            proof {
                let post = serials@.take(i + 1);
                assert(post.drop_last() =~= serials@.take(i as int));
                assert(Self::had_turn(here, self.stage(*zone, outlet@), post.last(), dt));
            }
            i += 1;
        }
        assert(serials@.take(i as int) =~= serials@);
        assert(Self::had_turns(mid, self.stage(*zone, outlet@), serials@, dt));
        assert(Self::all_had_turns(mid, self.stage(*zone, outlet@), dt));
    }

    /// Lets time pass in a zone. Nobody is told of what the controllers do.
    pub fn tick<
        E: Entity,
        S: EntityStore<E>,
        D: StaticDataProvider,
        C: ZoneContainers,
        P: ZoneItemProps,
    >(&mut self, zone: &mut Zone<E, S, D, C, P>, now: Moment)
        where K: EntityController<Def, E, S, D, C, P, F>, F: FnOnce(),
        requires
            old(self).wf(),
            old(zone).wf(),
            now.wf(),
            old(self).scheduler.can_run(now, old(zone).map_id),
            forall|f: F| #[trigger] call_requires(f, ()),
        ensures
            final(self).wf(),
            final(zone).wf(),
            exists|out: OutletView| #[trigger]
                Self::ran_tick(
                    *old(self),
                    *final(self),
                    *old(zone),
                    *final(zone),
                    OutletView::none(),
                    out,
                    now,
                ),
    {
        let mut outlet = Outlet::none();
        self.tick_inner(zone, &mut outlet, now);
    }

    /// Lets time pass in a zone. What the controllers do is added to `events`.
    pub fn tick_with_events<
        E: Entity,
        S: EntityStore<E>,
        D: StaticDataProvider,
        C: ZoneContainers,
        P: ZoneItemProps,
    >(
        &mut self,
        zone: &mut Zone<E, S, D, C, P>,
        now: Moment,
        events: &mut Vec<WorldEvent>,
    )
        where K: EntityController<Def, E, S, D, C, P, F>, F: FnOnce(),
        requires
            old(self).wf(),
            old(zone).wf(),
            now.wf(),
            old(self).scheduler.can_run(now, old(zone).map_id),
            forall|f: F| #[trigger] call_requires(f, ()),
        ensures
            final(self).wf(),
            final(zone).wf(),
            exists|out: OutletView| #[trigger]
                Self::ran_tick(
                    *old(self),
                    *final(self),
                    *old(zone),
                    *final(zone),
                    OutletView::list(old(events)@),
                    out,
                    now,
                ) && final(events)@ == out.events,
    {
        let mut outlet = Outlet::none();
        outlet.publishing = true;
        std::mem::swap(events, &mut outlet.events);
        assert(outlet@ =~= OutletView::list(old(events)@));
        self.tick_inner(zone, &mut outlet, now);
        let ghost out = outlet@;
        std::mem::swap(events, &mut outlet.events);
        assert(events@ == out.events);
    }

    /// Lets time pass in a zone. What the controllers do is added to `events`; those
    /// that watch the world hear of what waits for them, and what they watch goes along
    /// with them.
    pub fn tick_with_observer<
        E: Entity,
        S: EntityStore<E>,
        D: StaticDataProvider,
        C: ZoneContainers,
        P: ZoneItemProps,
    >(
        &mut self,
        zone: &mut Zone<E, S, D, C, P>,
        now: Moment,
        events: &mut Vec<WorldEvent>,
        observers: &mut ObserverRegistry,
    )
        where K: EntityController<Def, E, S, D, C, P, F>, F: FnOnce(),
        requires
            old(self).wf(),
            old(zone).wf(),
            old(observers).wf(),
            forall|id: u32| #[trigger]
                old(observers).is_controller(id) ==> old(observers)@[id].view_rect.proper(),
            now.wf(),
            old(self).scheduler.can_run(now, old(zone).map_id),
            forall|f: F| #[trigger] call_requires(f, ()),
        ensures
            final(self).wf(),
            final(zone).wf(),
            final(observers).wf(),
            exists|out: OutletView| #[trigger]
                Self::ran_tick(
                    *old(self),
                    *final(self),
                    *old(zone),
                    *final(zone),
                    OutletView::all(old(events)@, *old(observers)),
                    out,
                    now,
                ) && final(events)@ == out.events && final(observers)@ == out.watchers,
    {
        let mut outlet = Outlet::none();
        outlet.publishing = true;
        outlet.observing = true;
        std::mem::swap(events, &mut outlet.events);
        std::mem::swap(observers, &mut outlet.observers);
        assert(outlet@ =~= OutletView::all(old(events)@, *old(observers)));
        self.tick_inner(zone, &mut outlet, now);
        let ghost out = outlet@;
        std::mem::swap(events, &mut outlet.events);
        std::mem::swap(observers, &mut outlet.observers);
        assert(events@ == out.events && observers@ == out.watchers);
    }

    /// Calls the controller of an entity with news. Returns whether there is one. Nobody is told of what it does.
    pub fn send_event<
        E: Entity,
        S: EntityStore<E>,
        D: StaticDataProvider,
        C: ZoneContainers,
        P: ZoneItemProps,
    >(
        &mut self,
        zone: &mut Zone<E, S, D, C, P>,
        entity_serial: u32,
        event: Def::Event,
    ) -> (found: bool)
        where K: EntityController<Def, E, S, D, C, P, F>,
        requires
            old(self).wf(),
            old(zone).wf(),
        ensures
            final(self).wf(),
            final(zone).wf(),
            final(self).last_tick == old(self).last_tick,
            found == old(self).controllers@.contains_key(entity_serial),
            exists|out: OutletView|
                #![trigger final(self).stage(*final(zone), out)]
                Self::called(
                    old(self).stage(*old(zone), OutletView::none()),
                    final(self).stage(*final(zone), out),
                    entity_serial,
                    Occasion::Event(event),
                ),
    {
        let mut outlet = Outlet::none();
        let found = self.call_event(zone, &mut outlet, entity_serial, event);
        let ghost b = self.stage(*zone, outlet@);
        found
    }

    /// Calls the controller of an entity with news. Returns whether there is one. What it does is added to `events`.
    pub fn send_event_with_events<
        E: Entity,
        S: EntityStore<E>,
        D: StaticDataProvider,
        C: ZoneContainers,
        P: ZoneItemProps,
    >(
        &mut self,
        zone: &mut Zone<E, S, D, C, P>,
        entity_serial: u32,
        event: Def::Event,
        events: &mut Vec<WorldEvent>,
    ) -> (found: bool)
        where K: EntityController<Def, E, S, D, C, P, F>,
        requires
            old(self).wf(),
            old(zone).wf(),
        ensures
            final(self).wf(),
            final(zone).wf(),
            final(self).last_tick == old(self).last_tick,
            found == old(self).controllers@.contains_key(entity_serial),
            exists|out: OutletView|
                #![trigger final(self).stage(*final(zone), out)]
                Self::called(
                    old(self).stage(
                        *old(zone),
                        OutletView::list(old(events)@),
                    ),
                    final(self).stage(*final(zone), out),
                    entity_serial,
                    Occasion::Event(event),
                ) && final(events)@ == out.events,
    {
        let mut outlet = Outlet::none();
        outlet.publishing = true;
        std::mem::swap(events, &mut outlet.events);
        let found = self.call_event(zone, &mut outlet, entity_serial, event);
        let ghost b = self.stage(*zone, outlet@);
        std::mem::swap(events, &mut outlet.events);
        assert(events@ == b.out.events);
        found
    }

    /// Calls the controller of an entity with a command. Returns whether there is one. Nobody is told of what it does.
    pub fn send_command<
        E: Entity,
        S: EntityStore<E>,
        D: StaticDataProvider,
        C: ZoneContainers,
        P: ZoneItemProps,
    >(
        &mut self,
        zone: &mut Zone<E, S, D, C, P>,
        entity_serial: u32,
        cmd: Def::Command,
    ) -> (found: bool)
        where K: EntityController<Def, E, S, D, C, P, F>,
        requires
            old(self).wf(),
            old(zone).wf(),
        ensures
            final(self).wf(),
            final(zone).wf(),
            final(self).last_tick == old(self).last_tick,
            found == old(self).controllers@.contains_key(entity_serial),
            exists|out: OutletView|
                #![trigger final(self).stage(*final(zone), out)]
                Self::called(
                    old(self).stage(*old(zone), OutletView::none()),
                    final(self).stage(*final(zone), out),
                    entity_serial,
                    Occasion::Command(cmd),
                ),
    {
        let mut outlet = Outlet::none();
        let found = self.call_command(zone, &mut outlet, entity_serial, cmd);
        let ghost b = self.stage(*zone, outlet@);
        found
    }

    /// Calls the controller of an entity with a command. Returns whether there is one. What it does is added to `events`.
    pub fn send_command_with_events<
        E: Entity,
        S: EntityStore<E>,
        D: StaticDataProvider,
        C: ZoneContainers,
        P: ZoneItemProps,
    >(
        &mut self,
        zone: &mut Zone<E, S, D, C, P>,
        entity_serial: u32,
        cmd: Def::Command,
        events: &mut Vec<WorldEvent>,
    ) -> (found: bool)
        where K: EntityController<Def, E, S, D, C, P, F>,
        requires
            old(self).wf(),
            old(zone).wf(),
        ensures
            final(self).wf(),
            final(zone).wf(),
            final(self).last_tick == old(self).last_tick,
            found == old(self).controllers@.contains_key(entity_serial),
            exists|out: OutletView|
                #![trigger final(self).stage(*final(zone), out)]
                Self::called(
                    old(self).stage(
                        *old(zone),
                        OutletView::list(old(events)@),
                    ),
                    final(self).stage(*final(zone), out),
                    entity_serial,
                    Occasion::Command(cmd),
                ) && final(events)@ == out.events,
    {
        let mut outlet = Outlet::none();
        outlet.publishing = true;
        std::mem::swap(events, &mut outlet.events);
        let found = self.call_command(zone, &mut outlet, entity_serial, cmd);
        let ghost b = self.stage(*zone, outlet@);
        std::mem::swap(events, &mut outlet.events);
        assert(events@ == b.out.events);
        found
    }

    /// Calls all controllers on the map of a zone with news, each with its own copy.
    /// Nobody is told of what they do.
    pub fn broadcast_event<
        E: Entity,
        S: EntityStore<E>,
        D: StaticDataProvider,
        C: ZoneContainers,
        P: ZoneItemProps,
    >(&mut self, zone: &mut Zone<E, S, D, C, P>, event: Def::GlobalEvent)
        where K: EntityController<Def, E, S, D, C, P, F>,
        requires
            old(self).wf(),
            old(zone).wf(),
        ensures
            final(self).wf(),
            final(zone).wf(),
            final(self).last_tick == old(self).last_tick,
            exists|out: OutletView|
                #![trigger final(self).stage(*final(zone), out)]
                Self::spread(
                    old(self).stage(*old(zone), OutletView::none()),
                    final(self).stage(*final(zone), out),
                    event,
                ),
    {
        let mut outlet = Outlet::none();
        let ghost a = self.stage(*zone, outlet@);
        let serials = map_keys(&self.controllers);
        let mut i: usize = 0;
        assert(serials@.take(0) =~= Seq::<u32>::empty());
        while i < serials.len()
            invariant
                i <= serials@.len(),
                self.wf(),
                zone.wf(),
                outlet.wf(),
                self.last_tick == old(self).last_tick,
                Self::got_news_all(
                    a,
                    self.stage(*zone, outlet@),
                    serials@.take(i as int),
                    event,
                ),
            decreases serials@.len() - i,
        {
            let ghost here = self.stage(*zone, outlet@);
            let serial: u32 = serials[i];
            let in_zone = match self.controllers.get(&serial) {
                Some(e) => e.map_id == zone.map_id,
                None => false,
            };
            if in_zone {
                let copy = Def::duplicate(&event);
                self.call_global(zone, &mut outlet, serial, copy);
                assert(Def::copy_of(event, copy));
            }
            proof {
                let post = serials@.take(i + 1);
                assert(post.drop_last() =~= serials@.take(i as int));
                assert(Self::got_news(here, self.stage(*zone, outlet@), post.last(), event));
            }
            i += 1;
        }
        assert(serials@.take(i as int) =~= serials@);
        let ghost b = self.stage(*zone, outlet@);
        assert(Self::got_news_all(a, b, serials@, event));
        assert(Self::spread(a, b, event));
    }

    /// Whether a moment is when something next wants to happen: a timer that is not
    /// cancelled, or a tick of a controller.
    pub open spec fn wanted(&self, t: Moment) -> bool where K: ControllerProfile {
        ||| exists|i: int|
            0 <= i < self.scheduler.tasks@.len() && !(#[trigger] self.scheduler.tasks@[i]).cancelled
                && self.scheduler.tasks@[i].fire_at == t
        ||| exists|s: u32| #[trigger]
            self.controllers@.contains_key(s) && self.controllers@[s].controller.next_tick()
                == Some(t)
    }

    /// The first moment at which a timer or a controller wants a tick. Cancelled timers
    /// may be dropped on the way.
    pub fn next_tick_at(&mut self) -> (r: Option<Moment>) where K: ControllerProfile,
        requires
            old(self).wf(),
        ensures
            final(self).wf(),
            final(self).controllers == old(self).controllers,
            final(self).last_tick == old(self).last_tick,
            r is None ==> forall|t: Moment| !#[trigger] old(self).wanted(t),
            r matches Some(t) ==> old(self).wanted(t) && forall|u: Moment| #[trigger]
                old(self).wanted(u) ==> t.nanos <= u.nanos,
            Scheduler::tidied(old(self).scheduler, final(self).scheduler),
    {
        let ghost before = *self;
        let mut best = self.scheduler.next_fire_at();
        let ghost tidy = self.scheduler;
        let ghost timer = best;
        let serials = map_keys(&self.controllers);
        let mut i: usize = 0;
        proof {
            assert forall|j: int|
                0 <= j < before.scheduler.tasks@.len() && !(#[trigger] before.scheduler.tasks@[j]).cancelled implies (
            timer is Some && (timer->0).nanos <= before.scheduler.tasks@[j].fire_at.nanos) by {}
        }
        while i < serials.len()
            invariant
                i <= serials@.len(),
                self.wf(),
                self.controllers == before.controllers,
                self.last_tick == before.last_tick,
                self.scheduler == tidy,
                forall|s: u32| #[trigger]
                    serials@.contains(s) <==> before.controllers@.contains_key(s),
                best matches Some(t) ==> before.wanted(t),
                timer is Some ==> best is Some && (best->0).nanos <= (timer->0).nanos,
                forall|j: int|
                    0 <= j < i && (
                    #[trigger] before.controllers@[serials@[j]]).controller.next_tick() is Some
                        ==> best is Some && (best->0).nanos <= (
                    before.controllers@[serials@[j]].controller.next_tick()->0).nanos,
            decreases serials@.len() - i,
        {
            let ghost s = serials@[i as int];
            assert(serials@.contains(s));
            if let Some(entry) = self.controllers.get(&serials[i]) {
                if let Some(t) = entry.controller.next_tick_at() {
                    assert(before.controllers@.contains_key(s));
                    assert(before.wanted(t));
                    let sooner = match best {
                        Some(b) => t.nanos < b.nanos,
                        None => true,
                    };
                    if sooner {
                        best = Some(t);
                    }
                }
            }
            i += 1;
        }
        proof {
            assert forall|u: Moment| #[trigger] before.wanted(u) implies best is Some && (
            best->0).nanos <= u.nanos by {
                if exists|j: int|
                    0 <= j < before.scheduler.tasks@.len() && !(
                    #[trigger] before.scheduler.tasks@[j]).cancelled
                        && before.scheduler.tasks@[j].fire_at == u {
                    let j = choose|j: int|
                        0 <= j < before.scheduler.tasks@.len() && !(
                        #[trigger] before.scheduler.tasks@[j]).cancelled
                            && before.scheduler.tasks@[j].fire_at == u;
                    assert(!before.scheduler.tasks@[j].cancelled);
                } else {
                    let s = choose|s: u32| #[trigger]
                        before.controllers@.contains_key(s)
                            && before.controllers@[s].controller.next_tick() == Some(u);
                    assert(serials@.contains(s));
                    let j = choose|j: int| 0 <= j < serials@.len() && serials@[j] == s;
                    assert(before.controllers@[serials@[j]].controller.next_tick() is Some);
                }
            }
        }
        best
    }

    proof fn lemma_hearing_spares<
        E: Entity,
        S: EntityStore<E>,
        D: StaticDataProvider,
        C: ZoneContainers,
        P: ZoneItemProps,
    >(
        a: Stage<E, S, D, C, P, K, F>,
        b: Stage<E, S, D, C, P, K, F>,
        serial: u32,
        events: Seq<Arc<WorldEvent>>,
        other: u32,
    )
        where K: EntityController<Def, E, S, D, C, P, F>,
        requires
            Self::heard_all(a, b, serial, events),
            other != serial,
        ensures
            b.zone.map_id == a.zone.map_id,
            b.controllers.dom() == a.controllers.dom(),
            b.controllers.contains_key(serial) ==> b.controllers[serial].map_id
                == a.controllers[serial].map_id,
            b.controllers.contains_key(other) ==> b.controllers[other] == a.controllers[other],
        decreases events.len(),
    {
        if events.len() > 0 {
            let mid = choose|mid: Stage<E, S, D, C, P, K, F>|
                Self::heard_all(a, mid, serial, events.drop_last()) && #[trigger] Self::called_apart(
                    mid,
                    b,
                    serial,
                    Occasion::WorldEvent(events.last()),
                );
            Self::lemma_hearing_spares(a, mid, serial, events.drop_last(), other);
            assert(Self::called(
                mid.secluded(),
                b.secluded(),
                serial,
                Occasion::WorldEvent(events.last()),
            ));
            assert(b.controllers.dom() =~= a.controllers.dom());
        }
    }

    proof fn lemma_turn_spares<
        E: Entity,
        S: EntityStore<E>,
        D: StaticDataProvider,
        C: ZoneContainers,
        P: ZoneItemProps,
    >(
        a: Stage<E, S, D, C, P, K, F>,
        b: Stage<E, S, D, C, P, K, F>,
        serial: u32,
        dt: Duration,
        other: u32,
    )
        where K: EntityController<Def, E, S, D, C, P, F>,
        requires
            Self::had_turn(a, b, serial, dt),
            a.controllers.contains_key(other),
            a.controllers[other].map_id != a.zone.map_id,
        ensures
            b.zone.map_id == a.zone.map_id,
            b.controllers.contains_key(other),
            b.controllers[other] == a.controllers[other],
    {
        if a.controllers.contains_key(serial) && a.controllers[serial].map_id == a.zone.map_id {
            let mid = choose|mid: Stage<E, S, D, C, P, K, F>|
                Self::heard_all(a.collected(serial), mid, serial, a.waiting(serial))
                    && #[trigger] Self::called(mid, b, serial, Occasion::Tick(dt));
            Self::lemma_hearing_spares(
                a.collected(serial),
                mid,
                serial,
                a.waiting(serial),
                other,
            );
            assert(mid.controllers.contains_key(other));
        }
    }

    /// Law: a controller whose entity is on another map is left as it is by a tick.
    pub proof fn other_maps_are_left_alone<
        E: Entity,
        S: EntityStore<E>,
        D: StaticDataProvider,
        C: ZoneContainers,
        P: ZoneItemProps,
    >(
        a: Stage<E, S, D, C, P, K, F>,
        b: Stage<E, S, D, C, P, K, F>,
        serials: Seq<u32>,
        dt: Duration,
        other: u32,
    )
        where K: EntityController<Def, E, S, D, C, P, F>,
        requires
            Self::had_turns(a, b, serials, dt),
            a.controllers.contains_key(other),
            a.controllers[other].map_id != a.zone.map_id,
        ensures
            b.zone.map_id == a.zone.map_id,
            b.controllers.contains_key(other),
            b.controllers[other] == a.controllers[other],
        decreases serials.len(),
    {
        if serials.len() > 0 {
            let mid = choose|mid: Stage<E, S, D, C, P, K, F>|
                Self::had_turns(a, mid, serials.drop_last(), dt) && #[trigger] Self::had_turn(
                    mid,
                    b,
                    serials.last(),
                    dt,
                );
            Self::other_maps_are_left_alone(a, mid, serials.drop_last(), dt, other);
            Self::lemma_turn_spares(mid, b, serials.last(), dt, other);
        }
    }
}

impl<Def: ControllerDef, K, F> Default for ControllerHost<Def, K, F> {
    fn default() -> (h: Self)
        ensures
            h.wf(),
            h.controllers@ == Map::<u32, ControllerEntry<K>>::empty(),
            h.scheduler.tasks@.len() == 0,
            h.last_tick is None,
    {
        ControllerHost::new()
    }
}

} // verus!

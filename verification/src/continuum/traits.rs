//! Storage of the entities of a zone, and who handles its commands.

use std::collections::HashMap;

use vstd::prelude::*;

use super::container::ZoneContainers;
use super::item_props::ZoneItemProps;
use super::world_event::WorldEvent;
use super::zone::Zone;
use crate::collections::{map_get_mut, map_keys};
use crate::time::Moment;
use crate::vessel::entity::Entity;
use crate::vessel::static_data::StaticDataProvider;

verus! {

broadcast use vstd::std_specs::hash::group_hash_axioms;

/// Storage of entities by number.
pub trait EntityStore<E: Entity>: Sized {
    /// What is stored.
    spec fn entities(&self) -> Map<u32, E>;

    fn new() -> (s: Self)
        ensures
            s.entities() == Map::<u32, E>::empty(),
    ;

    fn insert(&mut self, id: u32, data: E)
        ensures
            final(self).entities() == old(self).entities().insert(id, data),
    ;

    fn remove(&mut self, id: u32) -> (r: Option<E>)
        ensures
            r == if old(self).entities().contains_key(id) {
                Some(old(self).entities()[id])
            } else {
                None
            },
            final(self).entities() == old(self).entities().remove(id),
    ;

    fn get(&self, id: u32) -> (r: Option<&E>)
        ensures
            r is Some <==> self.entities().contains_key(id),
            r matches Some(e) ==> *e == self.entities()[id],
    ;

    fn get_mut(&mut self, id: u32) -> (r: Option<&mut E>)
        ensures
            match r {
                Some(e) => {
                    &&& old(self).entities().contains_key(id)
                    &&& *e == old(self).entities()[id]
                    &&& final(self).entities() == old(self).entities().insert(id, *final(e))
                },
                None => {
                    &&& !old(self).entities().contains_key(id)
                    &&& final(self).entities() == old(self).entities()
                },
            },
    ;

    /// The numbers of all entities, each once, in no particular order.
    fn ids(&self) -> (r: Vec<u32>)
        ensures
            r@.no_duplicates(),
            forall|id: u32| #[trigger] r@.contains(id) <==> self.entities().contains_key(id),
    ;

    /// Removes all entities.
    fn clear(&mut self)
        ensures
            final(self).entities() == Map::<u32, E>::empty(),
    ;
}

impl<E: Entity> EntityStore<E> for HashMap<u32, E> {
    open spec fn entities(&self) -> Map<u32, E> {
        self@
    }

    fn new() -> (s: Self) {
        HashMap::new()
    }

    fn insert(&mut self, id: u32, data: E) {
        HashMap::insert(self, id, data);
    }

    fn remove(&mut self, id: u32) -> (r: Option<E>) {
        let r = HashMap::remove(self, &id);
        assert(!old(self)@.contains_key(id) ==> old(self)@.remove(id) =~= old(self)@);
        r
    }

    fn get(&self, id: u32) -> (r: Option<&E>) {
        HashMap::get(self, &id)
    }

    fn get_mut(&mut self, id: u32) -> (r: Option<&mut E>) {
        map_get_mut(self, id)
    }

    fn ids(&self) -> (r: Vec<u32>) {
        map_keys(self)
    }

    fn clear(&mut self) {
        HashMap::clear(self);
    }
}

/// Whether `after` is `before` with more events at its end.
pub open spec fn appended(before: Seq<WorldEvent>, after: Seq<WorldEvent>) -> bool {
    before.len() <= after.len() && after.take(before.len() as int) == before
}

/// The events at the end of `after` that are not in `before`.
pub open spec fn added(before: Seq<WorldEvent>, after: Seq<WorldEvent>) -> Seq<WorldEvent> {
    after.skip(before.len() as int)
}

/// Who handles the commands of zones. `A` is what a handler knows of an entity and
/// gives along when it leaves a zone for another. Each handler says by five predicates what its
/// answers leave; the worker promises nothing beyond them.
pub trait CommandHandler<
    E: Entity,
    S: EntityStore<E>,
    D: StaticDataProvider,
    C: ZoneContainers,
    P: ZoneItemProps,
    A,
>: Sized {
    type Command;

    /// Whether a command, handled in a zone, leaves this and tells of these events.
    spec fn handles(
        before: Self,
        after: Self,
        zone: Zone<E, S, D, C, P>,
        zone_after: Zone<E, S, D, C, P>,
        cmd: Self::Command,
        events: Seq<WorldEvent>,
    ) -> bool;

    /// Whether a tick of a zone leaves this and tells of these events.
    spec fn ticks(
        before: Self,
        after: Self,
        zone: Zone<E, S, D, C, P>,
        zone_after: Zone<E, S, D, C, P>,
        events: Seq<WorldEvent>,
    ) -> bool;

    /// Whether the end of a batch of commands leaves this.
    spec fn settles(before: Self, after: Self) -> bool;

    /// Whether an entity that is about to leave a zone leaves this, and is given
    /// `state` along.
    spec fn lets_go(before: Self, after: Self, serial: u32, state: Option<A>) -> bool;

    /// Whether an entity that came to a zone with `state` leaves this.
    spec fn takes_in(
        before: Self,
        after: Self,
        serial: u32,
        state: Option<A>,
        to_map: u8,
    ) -> bool;

    /// Handles a command in a zone. What is to be told is added to `events`.
    fn handle(
        &mut self,
        zone: &mut Zone<E, S, D, C, P>,
        cmd: Self::Command,
        events: &mut Vec<WorldEvent>,
    )
        requires
            old(zone).wf(),
        ensures
            final(zone).wf(),
            appended(old(events)@, final(events)@),
            Self::handles(
                *old(self),
                *final(self),
                *old(zone),
                *final(zone),
                cmd,
                added(old(events)@, final(events)@),
            ),
    ;

    /// Lets time pass in a zone.
    fn tick(&mut self, zone: &mut Zone<E, S, D, C, P>, events: &mut Vec<WorldEvent>)
        requires
            old(zone).wf(),
        ensures
            final(zone).wf(),
            appended(old(events)@, final(events)@),
            Self::ticks(
                *old(self),
                *final(self),
                *old(zone),
                *final(zone),
                added(old(events)@, final(events)@),
            ),
    ;

    /// When the next tick is wanted; `None` if none is.
    fn next_tick_at(&mut self) -> (r: Option<Moment>);

    /// Called after a batch of commands.
    fn post_command(&mut self)
        ensures
            Self::settles(*old(self), *final(self)),
    ;

    /// Called before an entity leaves a zone for another. What is returned is handed
    /// back when it is there.
    fn on_entity_leaving_zone(&mut self, serial: u32) -> (r: Option<A>)
        ensures
            Self::lets_go(*old(self), *final(self), serial, r),
    ;

    /// Called once an entity came to a zone from another.
    fn on_entity_entering_zone(&mut self, serial: u32, state: Option<A>, to_map: u8)
        ensures
            Self::takes_in(*old(self), *final(self), serial, state, to_map),
    ;
}

} // verus!

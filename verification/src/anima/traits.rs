//! Controllers and what they may do.

use std::sync::Arc;

use vstd::prelude::*;

use super::context::{ControlContext, Scene};
use crate::continuum::container::ZoneContainers;
use crate::continuum::item_props::ZoneItemProps;
use crate::continuum::traits::EntityStore;
use crate::continuum::world_event::WorldEvent;
use crate::time::{Duration, Moment};
use crate::vessel::entity::Entity;
use crate::vessel::static_data::StaticDataProvider;

verus! {

/// How far a controller's access reaches.
#[derive(Debug, Clone, Copy, PartialEq, Eq, Hash, Structural)]
pub enum AccessLevel {
    /// It may look.
    ReadOnly,
    /// It may act, by the rules of the world.
    Safe,
    /// It may do all.
    Full,
}

impl AccessLevel {
    /// The name of the level.
    pub open spec fn wording(&self) -> Seq<char> {
        match self {
            AccessLevel::ReadOnly => "ReadOnly"@,
            AccessLevel::Safe => "Safe"@,
            AccessLevel::Full => "Full"@,
        }
    }

    /// The name of the level.
    pub fn name(&self) -> (s: &'static str)
        ensures
            s@ == self.wording(),
    {
        match self {
            AccessLevel::ReadOnly => "ReadOnly",
            AccessLevel::Safe => "Safe",
            AccessLevel::Full => "Full",
        }
    }
}

/// What the controllers of a game are told and asked.
pub trait ControllerDef: Sized {
    /// News for one entity.
    type Event;

    /// News for all.
    type GlobalEvent;

    /// A command for one entity.
    type Command;

    /// The news that a timer of an entity fired.
    spec fn timer_news(entity_serial: u32, timer_id: u64) -> Self::Event;

    /// Whether one piece of news is a copy of another.
    spec fn copy_of(event: Self::GlobalEvent, copy: Self::GlobalEvent) -> bool;

    fn timer_event(entity_serial: u32, timer_id: u64) -> (e: Self::Event)
        ensures
            e == Self::timer_news(entity_serial, timer_id),
    ;

    /// A copy of news for all, so that each controller gets its own.
    fn duplicate(event: &Self::GlobalEvent) -> (e: Self::GlobalEvent)
        ensures
            Self::copy_of(*event, e),
    ;
}

/// What a controller is called for.
pub enum Occasion<Def: ControllerDef> {
    Tick(Duration),
    Event(Def::Event),
    GlobalEvent(Def::GlobalEvent),
    Command(Def::Command),
    WorldEvent(Arc<WorldEvent>),
}

/// What a controller says of itself.
pub trait ControllerProfile: Sized {
    /// The access it wants.
    spec fn level(&self) -> AccessLevel;

    /// When it next wants a tick.
    spec fn next_tick(&self) -> Option<Moment>;

    fn access_level(&self) -> (l: AccessLevel)
        ensures
            l == self.level(),
    ;

    /// A name for logs.
    fn name(&self) -> (s: &str);

    fn next_tick_at(&self) -> (r: Option<Moment>)
        ensures
            r == self.next_tick(),
    ;
}

/// The behaviour of one entity. Each controller says by one predicate what it does;
/// the host promises nothing beyond it.
pub trait EntityController<
    Def: ControllerDef,
    E: Entity,
    S: EntityStore<E>,
    D: StaticDataProvider,
    C: ZoneContainers,
    P: ZoneItemProps,
    F,
>: ControllerProfile {
    /// Whether a controller of an entity, called for an occasion with this access,
    /// leaves this of itself and of the world.
    spec fn acts(
        before: Self,
        after: Self,
        entity_serial: u32,
        level: AccessLevel,
        from: Scene<E, S, D, C, P, F>,
        to: Scene<E, S, D, C, P, F>,
        occasion: Occasion<Def>,
    ) -> bool;

    /// Called on each tick, with the time since the last one.
    fn tick(&mut self, ctx: &mut ControlContext<'_, E, S, D, C, P, F>, dt: Duration)
        requires
            old(ctx).wf(),
        ensures
            final(ctx).wf(),
            *final(final(ctx).zone.zone) == *final(old(ctx).zone.zone),
            *final(final(ctx).zone.outlet) == *final(old(ctx).zone.outlet),
            *final(final(ctx).scheduler) == *final(old(ctx).scheduler),
            old(ctx).still_there(final(ctx)),
            Self::acts(
                *old(self),
                *final(self),
                old(ctx).entity_serial,
                old(ctx).access_level,
                old(ctx).scene(),
                final(ctx).scene(),
                Occasion::Tick(dt),
            ),
    ;

    /// Called with news for the entity.
    fn on_event(&mut self, ctx: &mut ControlContext<'_, E, S, D, C, P, F>, event: Def::Event)
        requires
            old(ctx).wf(),
        ensures
            final(ctx).wf(),
            *final(final(ctx).zone.zone) == *final(old(ctx).zone.zone),
            *final(final(ctx).zone.outlet) == *final(old(ctx).zone.outlet),
            *final(final(ctx).scheduler) == *final(old(ctx).scheduler),
            old(ctx).still_there(final(ctx)),
            Self::acts(
                *old(self),
                *final(self),
                old(ctx).entity_serial,
                old(ctx).access_level,
                old(ctx).scene(),
                final(ctx).scene(),
                Occasion::Event(event),
            ),
    ;

    /// Called with news for all.
    fn on_global_event(&mut self, ctx: &mut ControlContext<'_, E, S, D, C, P, F>, event: Def::GlobalEvent)
        requires
            old(ctx).wf(),
        ensures
            final(ctx).wf(),
            *final(final(ctx).zone.zone) == *final(old(ctx).zone.zone),
            *final(final(ctx).zone.outlet) == *final(old(ctx).zone.outlet),
            *final(final(ctx).scheduler) == *final(old(ctx).scheduler),
            old(ctx).still_there(final(ctx)),
            Self::acts(
                *old(self),
                *final(self),
                old(ctx).entity_serial,
                old(ctx).access_level,
                old(ctx).scene(),
                final(ctx).scene(),
                Occasion::GlobalEvent(event),
            ),
    ;

    /// Called with a command for the entity.
    fn on_command(&mut self, ctx: &mut ControlContext<'_, E, S, D, C, P, F>, cmd: Def::Command)
        requires
            old(ctx).wf(),
        ensures
            final(ctx).wf(),
            *final(final(ctx).zone.zone) == *final(old(ctx).zone.zone),
            *final(final(ctx).zone.outlet) == *final(old(ctx).zone.outlet),
            *final(final(ctx).scheduler) == *final(old(ctx).scheduler),
            old(ctx).still_there(final(ctx)),
            Self::acts(
                *old(self),
                *final(self),
                old(ctx).entity_serial,
                old(ctx).access_level,
                old(ctx).scene(),
                final(ctx).scene(),
                Occasion::Command(cmd),
            ),
    ;

    /// Called with what happened in the area that the controller watches.
    fn on_world_event(&mut self, ctx: &mut ControlContext<'_, E, S, D, C, P, F>, event: &Arc<WorldEvent>)
        requires
            old(ctx).wf(),
        ensures
            final(ctx).wf(),
            *final(final(ctx).zone.zone) == *final(old(ctx).zone.zone),
            *final(final(ctx).zone.outlet) == *final(old(ctx).zone.outlet),
            *final(final(ctx).scheduler) == *final(old(ctx).scheduler),
            old(ctx).still_there(final(ctx)),
            Self::acts(
                *old(self),
                *final(self),
                old(ctx).entity_serial,
                old(ctx).access_level,
                old(ctx).scene(),
                final(ctx).scene(),
                Occasion::WorldEvent(*event),
            ),
    ;
}

} // verus!

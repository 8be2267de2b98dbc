//! What a controller is given with each call.

use vstd::prelude::*;

use super::error::ControllerError;
use super::scheduler::Scheduler;
use super::traits::AccessLevel;
use super::zone_access::{
    first_of, place_of, step_covered, step_ends, EntityInfo, Outlet, OutletView, ZoneAccess,
};
use crate::continuum::container::ZoneContainers;
use crate::continuum::item_props::ZoneItemProps;
use crate::continuum::traits::EntityStore;
use crate::continuum::world_event::WorldEvent;
use crate::continuum::zone::Zone;
use crate::coords::{Facing, Heading, Pos3D};
use crate::ecumene::line_of_sight::{ray_fits, LosRay};
use crate::ecumene::movement::best_perch;
use crate::ecumene::tile_provider::TileProvider;
use crate::ecumene::tile_rect::TileRect;
use crate::vessel::entity::Entity;
use crate::vessel::static_data::StaticDataProvider;
use crate::vessel::tile_shape::TileShape;

verus! {

/// The world around a controller at one moment.
pub struct Scene<
    E: Entity,
    S: EntityStore<E>,
    D: StaticDataProvider,
    C: ZoneContainers,
    P: ZoneItemProps,
    F,
> {
    pub zone: Zone<E, S, D, C, P>,
    pub out: OutletView,
    pub timers: Scheduler<F>,
}

/// What a controller is given with each call: whom it controls, how far its access
/// reaches, the zone, and the timers.
pub struct ControlContext<
    'a,
    E: Entity,
    S: EntityStore<E>,
    D: StaticDataProvider,
    C: ZoneContainers,
    P: ZoneItemProps,
    F,
> {
    pub entity_serial: u32,
    pub access_level: AccessLevel,
    pub zone: ZoneAccess<'a, E, S, D, C, P>,
    pub scheduler: &'a mut Scheduler<F>,
}

/// Whether an action was denied for want of access.
pub open spec fn denied<T>(r: Result<T, ControllerError>, action: Seq<char>, level: AccessLevel) -> bool {
    r matches Err(ControllerError::AccessDenied { action: a, level: l }) && a@ == action && l
        == level
}

impl<
    'a,
    E: Entity,
    S: EntityStore<E>,
    D: StaticDataProvider,
    C: ZoneContainers,
    P: ZoneItemProps,
    F,
> ControlContext<'a, E, S, D, C, P, F> {
    pub open spec fn wf(&self) -> bool {
        self.zone.wf() && self.scheduler.wf()
    }

    /// The timers as they are.
    pub open spec fn timers(&self) -> Scheduler<F> {
        *self.scheduler
    }

    /// The world as it is.
    pub open spec fn scene(&self) -> Scene<E, S, D, C, P, F> {
        Scene { zone: self.zone.here(), out: self.zone.out(), timers: self.timers() }
    }

    /// Whether the same controller has the same access, with the same timers.
    pub open spec fn same_seat(&self, after: &Self) -> bool {
        &&& after.entity_serial == self.entity_serial
        &&& after.access_level == self.access_level
        &&& after.timers() == self.timers()
    }

    /// Whether it is still the same call: for the same entity, with the same access, on
    /// the same map, with the same ways to tell.
    pub open spec fn still_there(&self, after: &Self) -> bool {
        &&& after.entity_serial == self.entity_serial
        &&& after.access_level == self.access_level
        &&& after.zone.here().map_id == self.zone.here().map_id
        &&& after.zone.out().publishing == self.zone.out().publishing
        &&& after.zone.out().observing == self.zone.out().observing
    }

    /// Whether nothing changed in the world.
    pub open spec fn untouched(&self, after: &Self) -> bool {
        self.zone.untouched(&after.zone)
    }

    pub fn new(
        entity_serial: u32,
        access_level: AccessLevel,
        zone: &'a mut Zone<E, S, D, C, P>,
        outlet: &'a mut Outlet,
        scheduler: &'a mut Scheduler<F>,
    ) -> (c: Self)
        requires
            old(zone).wf(),
            old(outlet).wf(),
            old(scheduler).wf(),
        ensures
            c.wf(),
            c.entity_serial == entity_serial,
            c.access_level == access_level,
            c.scene() == (Scene { zone: *old(zone), out: old(outlet)@, timers: *old(scheduler) }),
            *final(c.zone.zone) == *final(zone),
            *final(c.zone.outlet) == *final(outlet),
            *final(c.scheduler) == *final(scheduler),
    {
        ControlContext {
            entity_serial,
            access_level,
            zone: ZoneAccess { zone, outlet },
            scheduler,
        }
    }

    /// What is seen of the controlled entity.
    pub fn me(&self) -> (r: Option<EntityInfo>)
        ensures
            r is Some <==> self.zone.here().entities().contains_key(self.entity_serial),
            r matches Some(i) ==> i.shows(self.zone.here().entities()[self.entity_serial].state()),
    {
        self.zone.get_entity(self.entity_serial)
    }

    /// What is seen of an entity.
    pub fn get_entity(&self, serial: u32) -> (r: Option<EntityInfo>)
        ensures
            r is Some <==> self.zone.here().entities().contains_key(serial),
            r matches Some(i) ==> i.shows(self.zone.here().entities()[serial].state()),
    {
        self.zone.get_entity(serial)
    }

    /// What is seen of all entities within an area, each once.
    pub fn query_area(&self, area: &TileRect) -> (r: Vec<EntityInfo>)
        requires
            self.wf(),
        ensures
            exists|ids: Seq<u32>| #[trigger]
                ids.no_duplicates() && ids.len() == r@.len() && (forall|id: u32| #[trigger]
                    ids.contains(id) <==> self.zone.here().entities().contains_key(id) && area.has(
                        self.zone.here().entities()[id].state().pos.x as int,
                        self.zone.here().entities()[id].state().pos.y as int,
                    )) && (forall|i: int|
                    0 <= i < ids.len() ==> (#[trigger] r@[i]).shows(
                        self.zone.here().entities()[ids[i]].state(),
                    )),
    {
        self.zone.query_area(area)
    }

    /// The standing height after a step on foot, if the way is free.
    pub fn test_step(&self, x: u16, y: u16, z: i8, direction: Heading) -> (r: Option<i8>)
        requires
            self.wf(),
            step_covered(self.zone.here(), (Pos3D { x, y, z }), direction),
        ensures
            step_ends(self.zone.here(), (Pos3D { x, y, z }), direction, r),
    {
        self.zone.test_step(x, y, z, direction)
    }

    /// The standing height nearest to a hint, where one can stand.
    pub fn resolve_standing_z(&self, x: u16, y: u16, z_hint: i8, direction: Heading) -> (r: Option<
        i8,
    >)
        requires
            self.wf(),
            !self.zone.here().nothing_at(x, y) ==> self.zone.here().tiles().covers(x, y),
        ensures
            self.zone.here().nothing_at(x, y) ==> r == Some(z_hint),
            !self.zone.here().nothing_at(x, y) ==> {
                let shapes = self.zone.here().tiles().stack(x, y, direction).push(
                    TileShape::cap_spec(),
                );
                r == best_perch(shapes, z_hint as int, 0, false, shapes.len() as int)
            },
    {
        self.zone.resolve_standing_z(x, y, z_hint, direction)
    }

    pub fn map_id(&self) -> (m: u8)
        ensures
            m == self.zone.here().map_id,
    {
        self.zone.map_id()
    }

    /// Whether nothing stops sight between two points. The caller adds the height of
    /// the eyes.
    pub fn has_los(&self, x1: u16, y1: u16, z1: i16, x2: u16, y2: u16, z2: i16) -> (b: bool)
        requires
            self.wf(),
            !self.zone.here().nothing_anywhere() ==> ray_fits(x1, y1, z1, x2, y2, z2),
            !self.zone.here().nothing_anywhere() ==> self.zone.here().sight_rules().all_covered(
                LosRay::between(x1, y1, z1, x2, y2, z2).pending(),
            ),
        ensures
            self.zone.here().nothing_anywhere() ==> b,
            !self.zone.here().nothing_anywhere() ==> b == self.zone.here().sight_rules().clear(
                x1,
                y1,
                z1,
                x2,
                y2,
                z2,
            ),
    {
        self.zone.has_los(x1, y1, z1, x2, y2, z2)
    }

    /// The backpack of an entity, if it is there and has one.
    pub fn get_backpack_serial(&self, serial: u32) -> (r: Option<u32>)
        ensures
            r == if self.zone.here().entities().contains_key(serial) {
                self.zone.here().entities()[serial].state().backpack
            } else {
                None
            },
    {
        self.zone.get_backpack_serial(serial)
    }

    /// The first item of a container with this graphic that is not used up, and how
    /// much there is of it.
    pub fn find_item_in_container(&self, container_serial: u32, graphic: u16) -> (r: Option<
        (u32, u16),
    >)
        ensures
            r == if self.zone.here().containers.stored().contains_key(container_serial) {
                first_of(self.zone.here().containers.stored()[container_serial].items, graphic)
            } else {
                None
            },
    {
        self.zone.find_item_in_container(container_serial, graphic)
    }

    /// The properties of an item.
    pub fn get_item_props_any(&self, serial: u32) -> (r: Option<&P::Value>)
        ensures
            r is Some <==> self.zone.here().item_props.stored().contains_key(serial),
            r matches Some(v) ==> *v == self.zone.here().item_props.stored()[serial],
    {
        self.zone.get_item_props_any(serial)
    }

    /// Sets the properties of an item, or takes them away.
    pub fn set_item_props_any(&mut self, serial: u32, props: Option<P::Value>)
        requires
            old(self).wf(),
        ensures
            final(self).wf(),
            *final(final(self).zone.zone) == *final(old(self).zone.zone),
            *final(final(self).zone.outlet) == *final(old(self).zone.outlet),
            *final(final(self).scheduler) == *final(old(self).scheduler),
            old(self).same_seat(final(self)),
            old(self).zone.props_set(&final(self).zone, serial, props),
    {
        self.zone.set_item_props_any(serial, props);
    }

    /// Lets the controller hear of what happens around its entity. One that may only
    /// look hears nothing.
    pub fn subscribe_world_events(&mut self, radius: u16)
        requires
            old(self).wf(),
        ensures
            final(self).wf(),
            *final(final(self).zone.zone) == *final(old(self).zone.zone),
            *final(final(self).zone.outlet) == *final(old(self).zone.outlet),
            *final(final(self).scheduler) == *final(old(self).scheduler),
            old(self).same_seat(final(self)),
            if old(self).access_level is ReadOnly {
                old(self).untouched(final(self))
            } else {
                old(self).zone.now_hears(&final(self).zone, old(self).entity_serial, radius)
            },
    {
        if self.access_level == AccessLevel::ReadOnly {
            return;
        }
        let serial: u32 = self.entity_serial;
        self.zone.subscribe_world_events(serial, radius);
    }

    /// Lets the controller hear no more.
    pub fn unsubscribe_world_events(&mut self)
        requires
            old(self).wf(),
        ensures
            final(self).wf(),
            *final(final(self).zone.zone) == *final(old(self).zone.zone),
            *final(final(self).zone.outlet) == *final(old(self).zone.outlet),
            *final(final(self).scheduler) == *final(old(self).scheduler),
            old(self).same_seat(final(self)),
            old(self).zone.hears_no_more(&final(self).zone, old(self).entity_serial),
    {
        let serial: u32 = self.entity_serial;
        self.zone.unsubscribe_world_events(serial);
    }

    /// Moves the controlled entity one step, if the way is free.
    pub fn step(&mut self, direction: Facing) -> (r: Result<Pos3D, ControllerError>)
        requires
            old(self).wf(),
            old(self).zone.here().entities().contains_key(old(self).entity_serial) ==> step_covered(
                old(self).zone.here(),
                old(self).zone.here().entities()[old(self).entity_serial].state().pos,
                direction.heading_spec(),
            ),
        ensures
            final(self).wf(),
            *final(final(self).zone.zone) == *final(old(self).zone.zone),
            *final(final(self).zone.outlet) == *final(old(self).zone.outlet),
            *final(final(self).scheduler) == *final(old(self).scheduler),
            old(self).same_seat(final(self)),
            if old(self).access_level is ReadOnly {
                &&& denied(r, "step"@, old(self).access_level)
                &&& old(self).untouched(final(self))
            } else {
                old(self).zone.stepped_from(&final(self).zone, old(self).entity_serial, direction, r)
            },
    {
        if self.access_level == AccessLevel::ReadOnly {
            return Err(ControllerError::AccessDenied { action: "step", level: self.access_level });
        }
        let serial: u32 = self.entity_serial;
        self.zone.move_entity(serial, direction)
    }

    /// Puts the controlled entity somewhere else, whatever is in the way.
    pub fn teleport(&mut self, x: u16, y: u16, z: i8) -> (r: Result<(), ControllerError>)
        requires
            old(self).wf(),
        ensures
            final(self).wf(),
            *final(final(self).zone.zone) == *final(old(self).zone.zone),
            *final(final(self).zone.outlet) == *final(old(self).zone.outlet),
            *final(final(self).scheduler) == *final(old(self).scheduler),
            old(self).same_seat(final(self)),
            if old(self).access_level is ReadOnly {
                &&& denied(r, "teleport"@, old(self).access_level)
                &&& old(self).untouched(final(self))
            } else {
                old(self).zone.teleported(&final(self).zone, old(self).entity_serial, x, y, z, r)
            },
    {
        if self.access_level == AccessLevel::ReadOnly {
            return Err(ControllerError::AccessDenied { action: "teleport", level: self.access_level });
        }
        let serial: u32 = self.entity_serial;
        self.zone.teleport_entity(serial, x, y, z)
    }

    /// Turns the controlled entity where it is.
    pub fn set_direction(&mut self, direction: Facing) -> (r: Result<(), ControllerError>)
        requires
            old(self).wf(),
        ensures
            final(self).wf(),
            *final(final(self).zone.zone) == *final(old(self).zone.zone),
            *final(final(self).zone.outlet) == *final(old(self).zone.outlet),
            *final(final(self).scheduler) == *final(old(self).scheduler),
            old(self).same_seat(final(self)),
            if old(self).access_level is ReadOnly {
                &&& denied(r, "set_direction"@, old(self).access_level)
                &&& old(self).untouched(final(self))
            } else {
                old(self).zone.turned_in_place(&final(self).zone, old(self).entity_serial, direction, r)
            },
    {
        if self.access_level == AccessLevel::ReadOnly {
            return Err(ControllerError::AccessDenied { action: "set_direction", level: self.access_level });
        }
        let serial: u32 = self.entity_serial;
        self.zone.set_direction(serial, direction)
    }

    /// Puts any entity somewhere else.
    pub fn teleport_other(&mut self, serial: u32, x: u16, y: u16, z: i8) -> (r: Result<(), ControllerError>)
        requires
            old(self).wf(),
        ensures
            final(self).wf(),
            *final(final(self).zone.zone) == *final(old(self).zone.zone),
            *final(final(self).zone.outlet) == *final(old(self).zone.outlet),
            *final(final(self).scheduler) == *final(old(self).scheduler),
            old(self).same_seat(final(self)),
            if !(old(self).access_level is Full) {
                &&& denied(r, "teleport_other"@, old(self).access_level)
                &&& old(self).untouched(final(self))
            } else {
                old(self).zone.teleported(&final(self).zone, serial, x, y, z, r)
            },
    {
        if self.access_level != AccessLevel::Full {
            return Err(ControllerError::AccessDenied { action: "teleport_other", level: self.access_level });
        }
        self.zone.teleport_entity(serial, x, y, z)
    }

    /// Damages a mobile. Returns its hit points, and whether none are left.
    pub fn deal_damage(&mut self, serial: u32, amount: u16) -> (r: Result<(u16, bool), ControllerError>)
        requires
            old(self).wf(),
        ensures
            final(self).wf(),
            *final(final(self).zone.zone) == *final(old(self).zone.zone),
            *final(final(self).zone.outlet) == *final(old(self).zone.outlet),
            *final(final(self).scheduler) == *final(old(self).scheduler),
            old(self).same_seat(final(self)),
            if old(self).access_level is ReadOnly {
                &&& denied(r, "deal_damage"@, old(self).access_level)
                &&& old(self).untouched(final(self))
            } else {
                old(self).zone.damaged_by(&final(self).zone, serial, amount, old(self).entity_serial, r)
            },
    {
        if self.access_level == AccessLevel::ReadOnly {
            return Err(ControllerError::AccessDenied { action: "deal_damage", level: self.access_level });
        }
        let source: u32 = self.entity_serial;
        self.zone.deal_damage(serial, amount, source)
    }

    /// Heals a mobile. Returns its hit points.
    pub fn heal_entity(&mut self, serial: u32, amount: u16) -> (r: Result<u16, ControllerError>)
        requires
            old(self).wf(),
        ensures
            final(self).wf(),
            *final(final(self).zone.zone) == *final(old(self).zone.zone),
            *final(final(self).zone.outlet) == *final(old(self).zone.outlet),
            *final(final(self).scheduler) == *final(old(self).scheduler),
            old(self).same_seat(final(self)),
            if old(self).access_level is ReadOnly {
                &&& denied(r, "heal_entity"@, old(self).access_level)
                &&& old(self).untouched(final(self))
            } else {
                old(self).zone.healed_by(&final(self).zone, serial, amount, r)
            },
    {
        if self.access_level == AccessLevel::ReadOnly {
            return Err(ControllerError::AccessDenied { action: "heal_entity", level: self.access_level });
        }
        self.zone.heal_entity(serial, amount)
    }

    /// Changes the mana of an entity. Returns what there is.
    pub fn modify_mana(&mut self, serial: u32, delta: i32) -> (r: Result<u16, ControllerError>)
        requires
            old(self).wf(),
        ensures
            final(self).wf(),
            *final(final(self).zone.zone) == *final(old(self).zone.zone),
            *final(final(self).zone.outlet) == *final(old(self).zone.outlet),
            *final(final(self).scheduler) == *final(old(self).scheduler),
            old(self).same_seat(final(self)),
            if old(self).access_level is ReadOnly {
                &&& denied(r, "modify_mana"@, old(self).access_level)
                &&& old(self).untouched(final(self))
            } else {
                old(self).zone.mana_changed(&final(self).zone, serial, delta, r)
            },
    {
        if self.access_level == AccessLevel::ReadOnly {
            return Err(ControllerError::AccessDenied { action: "modify_mana", level: self.access_level });
        }
        self.zone.modify_mana(serial, delta)
    }

    /// Changes the stamina of an entity. Returns what there is.
    pub fn modify_stamina(&mut self, serial: u32, delta: i32) -> (r: Result<u16, ControllerError>)
        requires
            old(self).wf(),
        ensures
            final(self).wf(),
            *final(final(self).zone.zone) == *final(old(self).zone.zone),
            *final(final(self).zone.outlet) == *final(old(self).zone.outlet),
            *final(final(self).scheduler) == *final(old(self).scheduler),
            old(self).same_seat(final(self)),
            if old(self).access_level is ReadOnly {
                &&& denied(r, "modify_stamina"@, old(self).access_level)
                &&& old(self).untouched(final(self))
            } else {
                old(self).zone.stamina_changed(&final(self).zone, serial, delta, r)
            },
    {
        if self.access_level == AccessLevel::ReadOnly {
            return Err(ControllerError::AccessDenied { action: "modify_stamina", level: self.access_level });
        }
        self.zone.modify_stamina(serial, delta)
    }

    /// Takes mana from a mobile that has enough. Returns what there is then.
    pub fn consume_mana(&mut self, serial: u32, amount: u16) -> (r: Result<Option<u16>, ControllerError>)
        requires
            old(self).wf(),
        ensures
            final(self).wf(),
            *final(final(self).zone.zone) == *final(old(self).zone.zone),
            *final(final(self).zone.outlet) == *final(old(self).zone.outlet),
            *final(final(self).scheduler) == *final(old(self).scheduler),
            old(self).same_seat(final(self)),
            if old(self).access_level is ReadOnly {
                &&& denied(r, "consume_mana"@, old(self).access_level)
                &&& old(self).untouched(final(self))
            } else {
                &&& r is Ok
                &&& old(self).zone.mana_spent(&final(self).zone, serial, amount, r->Ok_0)
            },
    {
        if self.access_level == AccessLevel::ReadOnly {
            return Err(ControllerError::AccessDenied { action: "consume_mana", level: self.access_level });
        }
        Ok(self.zone.consume_mana(serial, amount))
    }

    /// Uses some of a stack in a container. Returns how much is left, and the graphic.
    pub fn consume_item(&mut self, item_serial: u32, amount: u16, expected_graphic: Option<u16>) -> (r: Result<Option<(u16, u16)>, ControllerError>)
        requires
            old(self).wf(),
        ensures
            final(self).wf(),
            *final(final(self).zone.zone) == *final(old(self).zone.zone),
            *final(final(self).zone.outlet) == *final(old(self).zone.outlet),
            *final(final(self).scheduler) == *final(old(self).scheduler),
            old(self).same_seat(final(self)),
            if old(self).access_level is ReadOnly {
                &&& denied(r, "consume_item"@, old(self).access_level)
                &&& old(self).untouched(final(self))
            } else {
                &&& r is Ok
                &&& old(self).zone.item_used(
                    &final(self).zone,
                    item_serial,
                    amount,
                    expected_graphic,
                    r->Ok_0,
                )
            },
    {
        if self.access_level == AccessLevel::ReadOnly {
            return Err(ControllerError::AccessDenied { action: "consume_item", level: self.access_level });
        }
        Ok(self.zone.consume_item(item_serial, amount, expected_graphic))
    }

    /// Asks that one player be moved to another map.
    pub fn send_cross_world_teleport(&mut self, target_player: u32, map_id: u8, x: u16, y: u16, z: i8) -> (r: Result<(), ControllerError>)
        requires
            old(self).wf(),
        ensures
            final(self).wf(),
            *final(final(self).zone.zone) == *final(old(self).zone.zone),
            *final(final(self).zone.outlet) == *final(old(self).zone.outlet),
            *final(final(self).scheduler) == *final(old(self).scheduler),
            old(self).same_seat(final(self)),
            if !(old(self).access_level is Full) {
                &&& denied(r, "send_cross_world_teleport"@, old(self).access_level)
                &&& old(self).untouched(final(self))
            } else {
                &&& r is Ok
                &&& final(self).zone.here() == old(self).zone.here()
                &&& final(self).zone.out() == old(self).zone.out().told(
                    WorldEvent::TargetedCrossWorldTeleport { target_player, map_id, x, y, z },
                )
            },
    {
        if self.access_level != AccessLevel::Full {
            return Err(ControllerError::AccessDenied { action: "send_cross_world_teleport", level: self.access_level });
        }
        self.zone.send_cross_world_teleport(target_player, map_id, x, y, z);
        Ok(())
    }

    /// Takes an entity out of the zone. A controller cannot take out its own.
    pub fn remove_entity(&mut self, serial: u32) -> (r: Result<(), ControllerError>)
        requires
            old(self).wf(),
        ensures
            final(self).wf(),
            *final(final(self).zone.zone) == *final(old(self).zone.zone),
            *final(final(self).zone.outlet) == *final(old(self).zone.outlet),
            *final(final(self).scheduler) == *final(old(self).scheduler),
            old(self).same_seat(final(self)),
            if !(old(self).access_level is Full) || serial == old(self).entity_serial {
                &&& denied(r, "remove_entity"@, old(self).access_level)
                &&& old(self).untouched(final(self))
            } else {
                old(self).zone.taken_out(&final(self).zone, serial, r)
            },
    {
        if self.access_level != AccessLevel::Full || serial == self.entity_serial {
            return Err(
                ControllerError::AccessDenied { action: "remove_entity", level: self.access_level },
            );
        }
        self.zone.remove_entity(serial)
    }

    /// Lets a sound be heard.
    pub fn play_sound(
        &mut self,
        sound_id: u16,
        x: u16,
        y: u16,
        z: i16,
    )
        requires
            old(self).wf(),
        ensures
            final(self).wf(),
            *final(final(self).zone.zone) == *final(old(self).zone.zone),
            *final(final(self).zone.outlet) == *final(old(self).zone.outlet),
            *final(final(self).scheduler) == *final(old(self).scheduler),
            old(self).same_seat(final(self)),
            final(self).zone.here() == old(self).zone.here(),
            final(self).zone.out() == old(self).zone.out().told(
                WorldEvent::SoundPlayed {
                    map_id: old(self).zone.here().map_id,
                    sound_id,
                    x,
                    y,
                    z,
                },
            ),
    {
        self.zone.play_sound(sound_id, x, y, z);
    }

    /// Lets an effect be seen.
    pub fn play_effect(
        &mut self,
        direction_type: u8,
        source_serial: u32,
        target_serial: u32,
        graphic: u16,
        x: u16,
        y: u16,
        z: i8,
        target_x: u16,
        target_y: u16,
        target_z: i8,
        speed: u8,
        duration: u8,
        fixed_direction: bool,
        explode: bool,
    )
        requires
            old(self).wf(),
        ensures
            final(self).wf(),
            *final(final(self).zone.zone) == *final(old(self).zone.zone),
            *final(final(self).zone.outlet) == *final(old(self).zone.outlet),
            *final(final(self).scheduler) == *final(old(self).scheduler),
            old(self).same_seat(final(self)),
            final(self).zone.here() == old(self).zone.here(),
            final(self).zone.out() == old(self).zone.out().told(
                WorldEvent::EffectPlayed {
                    map_id: old(self).zone.here().map_id,
                    direction_type,
                    source_serial,
                    target_serial,
                    graphic,
                    x,
                    y,
                    z,
                    target_x,
                    target_y,
                    target_z,
                    speed,
                    duration,
                    fixed_direction,
                    explode,
                },
            ),
    {
        self.zone.play_effect(
            direction_type,
            source_serial,
            target_serial,
            graphic,
            x,
            y,
            z,
            target_x,
            target_y,
            target_z,
            speed,
            duration,
            fixed_direction,
            explode,
        );
    }

    /// Moves the body of a mobile.
    pub fn animate(
        &mut self,
        serial: u32,
        action: u16,
        frame_count: u8,
        repeat_count: u16,
        reverse: bool,
        repeat: bool,
        frame_delay: u8,
        x: u16,
        y: u16,
    )
        requires
            old(self).wf(),
        ensures
            final(self).wf(),
            *final(final(self).zone.zone) == *final(old(self).zone.zone),
            *final(final(self).zone.outlet) == *final(old(self).zone.outlet),
            *final(final(self).scheduler) == *final(old(self).scheduler),
            old(self).same_seat(final(self)),
            final(self).zone.here() == old(self).zone.here(),
            final(self).zone.out() == old(self).zone.out().told(
                WorldEvent::AnimationPlayed {
                    map_id: old(self).zone.here().map_id,
                    serial,
                    action,
                    frame_count,
                    repeat_count,
                    reverse,
                    repeat,
                    frame_delay,
                    x,
                    y,
                },
            ),
    {
        self.zone.animate(
            serial,
            action,
            frame_count,
            repeat_count,
            reverse,
            repeat,
            frame_delay,
            x,
            y,
        );
    }

    /// Lets an entity speak.
    pub fn say(
        &mut self,
        serial: u32,
        graphic: u16,
        speech_type: u8,
        color: u16,
        font: u16,
        name: String,
        message: String,
        x: u16,
        y: u16,
    )
        requires
            old(self).wf(),
        ensures
            final(self).wf(),
            *final(final(self).zone.zone) == *final(old(self).zone.zone),
            *final(final(self).zone.outlet) == *final(old(self).zone.outlet),
            *final(final(self).scheduler) == *final(old(self).scheduler),
            old(self).same_seat(final(self)),
            final(self).zone.here() == old(self).zone.here(),
            final(self).zone.out() == old(self).zone.out().told(
                WorldEvent::Speech {
                    map_id: old(self).zone.here().map_id,
                    serial,
                    graphic,
                    speech_type,
                    color,
                    font,
                    name,
                    message,
                    x,
                    y,
                },
            ),
    {
        self.zone.say(serial, graphic, speech_type, color, font, name, message, x, y);
    }

    /// Closes a gump of one player.
    pub fn close_gump(
        &mut self,
        target_player: u32,
        gump_id: u32,
    )
        requires
            old(self).wf(),
        ensures
            final(self).wf(),
            *final(final(self).zone.zone) == *final(old(self).zone.zone),
            *final(final(self).zone.outlet) == *final(old(self).zone.outlet),
            *final(final(self).scheduler) == *final(old(self).scheduler),
            old(self).same_seat(final(self)),
            final(self).zone.here() == old(self).zone.here(),
            final(self).zone.out() == old(self).zone.out().told(
                WorldEvent::TargetedCloseGump {
                    map_id: old(self).zone.here().map_id,
                    target_player,
                    gump_id,
                    pos_x: 0,
                    pos_y: 0,
                },
            ),
    {
        self.zone.close_targeted_gump(target_player, gump_id);
    }

    /// Lets one player pick a target.
    pub fn send_target_cursor(
        &mut self,
        target_player: u32,
        cursor_id: u32,
        cursor_type: u8,
    )
        requires
            old(self).wf(),
        ensures
            final(self).wf(),
            *final(final(self).zone.zone) == *final(old(self).zone.zone),
            *final(final(self).zone.outlet) == *final(old(self).zone.outlet),
            *final(final(self).scheduler) == *final(old(self).scheduler),
            old(self).same_seat(final(self)),
            final(self).zone.here() == old(self).zone.here(),
            final(self).zone.out() == old(self).zone.out().told(
                WorldEvent::TargetedTargetCursor {
                    map_id: old(self).zone.here().map_id,
                    target_player,
                    cursor_id,
                    cursor_type,
                },
            ),
    {
        self.zone.send_target_cursor(target_player, cursor_id, cursor_type);
    }

    /// Shows one player a gump that comes from the controlled entity.
    pub fn send_gump(
        &mut self,
        target_player: u32,
        gump_id: u32,
        gump_x: u32,
        gump_y: u32,
        layout: String,
        text_lines: Vec<String>,
        blocking: bool,
    )
        requires
            old(self).wf(),
        ensures
            final(self).wf(),
            *final(final(self).zone.zone) == *final(old(self).zone.zone),
            *final(final(self).zone.outlet) == *final(old(self).zone.outlet),
            *final(final(self).scheduler) == *final(old(self).scheduler),
            old(self).same_seat(final(self)),
            final(self).zone.here() == old(self).zone.here(),
            final(self).zone.out() == old(self).zone.out().told(
                WorldEvent::TargetedGump {
                    map_id: old(self).zone.here().map_id,
                    target_player,
                    source_serial: old(self).entity_serial,
                    gump_id,
                    gump_x,
                    gump_y,
                    layout,
                    text_lines,
                    pos_x: place_of(old(self).zone.here(), old(self).entity_serial).0,
                    pos_y: place_of(old(self).zone.here(), old(self).entity_serial).1,
                    blocking,
                },
            ),
    {
        let source: u32 = self.entity_serial;
        self.zone.send_targeted_gump(
            target_player,
            source,
            gump_id,
            gump_x,
            gump_y,
            layout,
            text_lines,
            blocking,
        );
    }

    /// Sends one player a message.
    pub fn send_message(&mut self, target_player: u32, message: &str, color: u16)
        requires
            old(self).wf(),
        ensures
            final(self).wf(),
            *final(final(self).zone.zone) == *final(old(self).zone.zone),
            *final(final(self).zone.outlet) == *final(old(self).zone.outlet),
            *final(final(self).scheduler) == *final(old(self).scheduler),
            old(self).same_seat(final(self)),
            final(self).zone.here() == old(self).zone.here(),
            exists|text: String| #[trigger]
                text@ == message@ && final(self).zone.out() == old(self).zone.out().told(
                    WorldEvent::TargetedMessage {
                        map_id: old(self).zone.here().map_id,
                        target_player,
                        message: text,
                        color,
                        pos_x: 0,
                        pos_y: 0,
                    },
                ),
    {
        let text = message.to_owned();
        assert(text@ == message@);
        self.zone.send_targeted_message(target_player, text, color);
    }
}

/// Law: a denial tells of the action and of the access that did not reach far enough.
pub proof fn denial_names_the_action<T>(
    r: Result<T, ControllerError>,
    action: Seq<char>,
    level: AccessLevel,
)
    requires
        denied(r, action, level),
    ensures
        r is Err,
        (r->Err_0).wording() == "access denied: '"@ + action + "' requires higher than "@
            + level.wording(),
{
}

} // verus!

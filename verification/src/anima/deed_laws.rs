//! What controllers bring about in a zone: who is where, who is hurt, what is used up, and
//! what is told of it.

use vstd::prelude::*;

use super::error::ControllerError;
use super::zone_access::{
    first_of, items_after_use, left_over, lies_at, place_of, step_ends, EntityInfo, OutletView,
    ZoneAccess, MAX_HOPS,
};
use crate::continuum::container::{
    first_index, has_serial, lemma_has_first, minus, ContainerItem, ZoneContainers,
};
use crate::continuum::item_props::ZoneItemProps;
use crate::continuum::traits::EntityStore;
use crate::continuum::world_event::{ContainerContentChange, WorldEvent};
use crate::continuum::zone::Zone;
use crate::coords::{Facing, Heading, Pos3D};
use crate::ecumene::movement::MovementValidator;
use crate::vessel::entity::{Entity, EntityState};
use crate::vessel::static_data::StaticDataProvider;

verus! {

/// Whether all entities but one are the same.
pub open spec fn others_stay<
    E: Entity,
    S: EntityStore<E>,
    D: StaticDataProvider,
    C: ZoneContainers,
    P: ZoneItemProps,
>(a: Zone<E, S, D, C, P>, b: Zone<E, S, D, C, P>, serial: u32) -> bool {
    &&& a.map_id == b.map_id
    &&& a.containers == b.containers
    &&& a.item_props == b.item_props
    &&& forall|id: u32| id != serial ==> (#[trigger] b.entities().contains_key(id)
        <==> a.entities().contains_key(id))
    &&& forall|id: u32| id != serial && #[trigger] b.entities().contains_key(id)
        ==> b.entities()[id] == a.entities()[id]
}

/// Whether this one event came after those told before, where events are listed; where they
/// are not, none came.
pub open spec fn one_more(a: OutletView, b: OutletView, e: WorldEvent) -> bool {
    if a.publishing {
        &&& b.events.len() == a.events.len() + 1
        &&& b.events.last() == e
        &&& forall|i: int| 0 <= i < a.events.len() ==> #[trigger] b.events[i] == a.events[i]
    } else {
        b.events == a.events
    }
}

/// Law: the controller of an entity that went somewhere watches the tiles around its new
/// place, as far as before in the narrower direction. Others watch what they watched, and
/// nobody begins or ends to watch.
pub proof fn watching_goes_along(o: OutletView, id: u32, x: u16, y: u16, other: u32)
    requires
        o.watchers.contains_key(id),
        o.watchers[id].view_rect.proper(),
    ensures
        ({
            let was = o.watchers[id];
            let now = o.followed(id, x, y).watchers[id];
            let wide = (was.view_rect.x_max - was.view_rect.x_min) / 2;
            let high = (was.view_rect.y_max - was.view_rect.y_min) / 2;
            let r = if wide < high {
                wide
            } else {
                high
            };
            &&& o.followed(id, x, y).watchers.contains_key(id)
            &&& now.target == was.target
            &&& now.map_id == was.map_id
            &&& !o.observing || !(was.target is Buffer) ==> now == was
            &&& o.observing && was.target is Buffer ==> {
                &&& now.view_rect.x_min == if x >= r { x - r } else { 0 }
                &&& now.view_rect.y_min == if y >= r { y - r } else { 0 }
                &&& now.view_rect.x_max == if x + r <= 65535 { x + r } else { 65535 }
                &&& now.view_rect.y_max == if y + r <= 65535 { y + r } else { 65535 }
            }
            &&& other != id ==> (o.followed(id, x, y).watchers.contains_key(other)
                <==> o.watchers.contains_key(other))
            &&& other != id && o.watchers.contains_key(other) ==> o.followed(
                id,
                x,
                y,
            ).watchers[other] == o.watchers[other]
            &&& o.followed(id, x, y).events == o.events
            &&& o.followed(id, x, y).dropped == o.dropped
        }),
{
}

/// Law: one who is put somewhere else is there, whatever is in the way, and that is told
/// with the old place and the new one, as no step; all others stay. One who is not in the
/// zone cannot be put anywhere.
pub proof fn teleports_lead_there<
    'a,
    E: Entity,
    S: EntityStore<E>,
    D: StaticDataProvider,
    C: ZoneContainers,
    P: ZoneItemProps,
>(
    a: &ZoneAccess<'a, E, S, D, C, P>,
    b: &ZoneAccess<'a, E, S, D, C, P>,
    serial: u32,
    x: u16,
    y: u16,
    z: i8,
    r: Result<(), ControllerError>,
)
    requires
        a.teleported(b, serial, x, y, z, r),
    ensures
        r is Ok <==> a.here().entities().contains_key(serial),
        r is Err ==> b.here() == a.here() && b.out() == a.out(),
        r matches Err(e) ==> e == ControllerError::EntityNotFound(serial),
        r is Ok ==> {
            let from = a.here().entities()[serial].state().pos;
            &&& others_stay(a.here(), b.here(), serial)
            &&& b.here().entities().contains_key(serial)
            &&& b.here().entities()[serial].state() == a.here().entities()[serial].moved(
                (Pos3D { x, y, z }),
            )
            &&& a.out().publishing ==> b.out().events.len() == a.out().events.len() + 1
            &&& a.out().publishing ==> {
                &&& b.out().events.last() matches WorldEvent::EntityMoved {
                    map_id,
                    serial: who,
                    old_pos,
                    new_pos,
                    entity,
                    is_teleport,
                }
                &&& map_id == a.here().map_id
                &&& who == serial
                &&& (old_pos.x, old_pos.y, old_pos.z) == (from.x, from.y, from.z)
                &&& (new_pos.x, new_pos.y, new_pos.z) == (x, y, z)
                &&& old_pos.facing == new_pos.facing
                &&& entity == b.here().entities()[serial].state().snapshot
                &&& is_teleport
            }
        },
{
}

/// Law: a step of a controller leads to the next tile in its direction, farther up the row
/// or the column by one or farther down, around the edge of the map; whoever stepped is
/// there, and a mobile faces that way. It is told with the old place and the new one.
/// A step that is blocked changes nothing, and is answered with the tile that it led to.
pub proof fn steps_are_made_and_told<
    'a,
    E: Entity,
    S: EntityStore<E>,
    D: StaticDataProvider,
    C: ZoneContainers,
    P: ZoneItemProps,
>(
    a: &ZoneAccess<'a, E, S, D, C, P>,
    b: &ZoneAccess<'a, E, S, D, C, P>,
    serial: u32,
    f: Facing,
    r: Result<Pos3D, ControllerError>,
)
    requires
        a.stepped_from(b, serial, f, r),
    ensures
        !a.here().entities().contains_key(serial) ==> r == Err::<Pos3D, ControllerError>(
            ControllerError::EntityNotFound(serial),
        ),
        r is Err ==> b.here() == a.here() && b.out() == a.out(),
        a.here().entities().contains_key(serial) ==> {
            let from = a.here().entities()[serial].state().pos;
            let to = next_tile(from.x, from.y, f.heading_spec());
            match r {
                Err(e) => e == (ControllerError::MovementBlocked { serial, x: to.0, y: to.1 }),
                Ok(pos) => {
                    &&& (pos.x, pos.y) == to
                    &&& others_stay(a.here(), b.here(), serial)
                    &&& b.here().entities().contains_key(serial)
                    &&& a.here().entities()[serial].state().mobile ==> {
                        &&& b.here().entities()[serial].state().pos == pos
                        &&& b.here().snapshot == a.here().snapshot
                        &&& b.here().registry == a.here().registry
                        &&& exists|m: E| #[trigger]
                            m.state() == a.here().entities()[serial].moved(pos)
                                && b.here().entities()[serial].state() == m.turned(f.raw)
                    }
                    &&& !a.here().entities()[serial].state().mobile
                        ==> b.here().entities()[serial].state()
                        == a.here().entities()[serial].moved(pos)
                    &&& a.out().publishing ==> b.out().events.len() == a.out().events.len() + 1
                    &&& a.out().publishing ==> {
                        &&& b.out().events.last() matches WorldEvent::EntityMoved {
                            map_id,
                            serial: who,
                            old_pos,
                            new_pos,
                            entity,
                            is_teleport,
                        }
                        &&& map_id == a.here().map_id
                        &&& who == serial
                        &&& (old_pos.x, old_pos.y, old_pos.z) == (from.x, from.y, from.z)
                        &&& (new_pos.x, new_pos.y, new_pos.z) == (pos.x, pos.y, pos.z)
                        &&& old_pos.facing == f
                        &&& new_pos.facing == f
                        &&& entity == b.here().entities()[serial].state().snapshot
                        &&& !is_teleport
                    }
                },
            }
        },
{
}

/// The next tile in a direction, around the edge of the map.
pub open spec fn next_tile(x: u16, y: u16, h: Heading) -> (u16, u16) {
    let east: u16 = if x == 65535 { 0 } else { (x + 1) as u16 };
    let west: u16 = if x == 0 { 65535 } else { (x - 1) as u16 };
    let south: u16 = if y == 65535 { 0 } else { (y + 1) as u16 };
    let north: u16 = if y == 0 { 65535 } else { (y - 1) as u16 };
    match h {
        Heading::North => (x, north),
        Heading::NorthEast => (east, north),
        Heading::East => (east, y),
        Heading::SouthEast => (east, south),
        Heading::South => (x, south),
        Heading::SouthWest => (west, south),
        Heading::West => (west, y),
        Heading::NorthWest => (west, north),
    }
}

/// Law: one who is turned stays in place, and that is told with this place twice, facing
/// the new way, as no step.
pub proof fn turns_keep_the_place<
    'a,
    E: Entity,
    S: EntityStore<E>,
    D: StaticDataProvider,
    C: ZoneContainers,
    P: ZoneItemProps,
>(
    a: &ZoneAccess<'a, E, S, D, C, P>,
    b: &ZoneAccess<'a, E, S, D, C, P>,
    serial: u32,
    f: Facing,
    r: Result<(), ControllerError>,
)
    requires
        a.turned_in_place(b, serial, f, r),
    ensures
        r is Ok <==> a.here().entities().contains_key(serial),
        r is Err ==> b.here() == a.here() && b.out() == a.out(),
        r matches Err(e) ==> e == ControllerError::EntityNotFound(serial),
        r is Ok ==> {
            let pos = a.here().entities()[serial].state().pos;
            &&& others_stay(a.here(), b.here(), serial)
            &&& b.here().entities().contains_key(serial)
            &&& b.here().entities()[serial].state().pos == pos
            &&& exists|m: E| #[trigger]
                m.state() == a.here().entities()[serial].moved(pos)
                    && b.here().entities()[serial].state() == m.turned(f.raw)
            &&& a.out().publishing ==> b.out().events.len() == a.out().events.len() + 1
            &&& a.out().publishing ==> {
                &&& b.out().events.last() matches WorldEvent::EntityMoved {
                    serial: who,
                    old_pos,
                    new_pos,
                    is_teleport,
                    ..
                }
                &&& who == serial
                &&& old_pos == new_pos
                &&& (new_pos.x, new_pos.y, new_pos.z) == (pos.x, pos.y, pos.z)
                &&& new_pos.facing == f
                &&& is_teleport
            }
        },
{
}

/// Law: one who is taken out is gone, and only that one; it is told where that was.
pub proof fn the_removed_are_gone<
    'a,
    E: Entity,
    S: EntityStore<E>,
    D: StaticDataProvider,
    C: ZoneContainers,
    P: ZoneItemProps,
>(
    a: &ZoneAccess<'a, E, S, D, C, P>,
    b: &ZoneAccess<'a, E, S, D, C, P>,
    serial: u32,
    r: Result<(), ControllerError>,
)
    requires
        a.taken_out(b, serial, r),
    ensures
        r is Ok <==> a.here().entities().contains_key(serial),
        r is Err ==> b.here() == a.here() && b.out() == a.out(),
        r matches Err(e) ==> e == ControllerError::EntityNotFound(serial),
        !b.here().entities().contains_key(serial),
        r is Ok ==> {
            &&& others_stay(a.here(), b.here(), serial)
            &&& one_more(
                a.out(),
                b.out(),
                WorldEvent::EntityRemoved {
                    map_id: a.here().map_id,
                    serial,
                    last_pos: a.here().entities()[serial].state().pos,
                },
            )
        },
{
}

/// Law: damage is dealt to mobiles alone. The one who is hit has what it leaves, the answer
/// says how many hit points these are and whether none are left, and it is told where it is.
/// Nothing happens to anybody else, nor where it is refused.
pub proof fn damage_is_dealt_to_one<
    'a,
    E: Entity,
    S: EntityStore<E>,
    D: StaticDataProvider,
    C: ZoneContainers,
    P: ZoneItemProps,
>(
    a: &ZoneAccess<'a, E, S, D, C, P>,
    b: &ZoneAccess<'a, E, S, D, C, P>,
    serial: u32,
    amount: u16,
    source: u32,
    r: Result<(u16, bool), ControllerError>,
)
    requires
        a.damaged_by(b, serial, amount, source, r),
    ensures
        r is Ok <==> a.here().entities().contains_key(serial)
            && a.here().entities()[serial].state().mobile,
        r is Err ==> b.here() == a.here() && b.out() == a.out(),
        !a.here().entities().contains_key(serial) <==> r == Err::<(u16, bool), ControllerError>(
            ControllerError::EntityNotFound(serial),
        ),
        r matches Ok((hits, dead)) ==> {
            let e = b.here().entities()[serial].state();
            &&& others_stay(a.here(), b.here(), serial)
            &&& e == a.here().entities()[serial].damaged(amount).state
            &&& hits == a.here().entities()[serial].damaged(amount).value
            &&& dead <==> hits == 0
            &&& one_more(
                a.out(),
                b.out(),
                WorldEvent::DamageDealt {
                    map_id: a.here().map_id,
                    serial,
                    source_serial: source,
                    amount,
                    new_hits: hits,
                    max_hits: match e.hits {
                        Some(p) => p.1,
                        None => 0,
                    },
                    x: e.pos.x,
                    y: e.pos.y,
                },
            )
        },
{
}

/// Law: mobiles alone are healed, one at a time, and it is told where that one is.
pub proof fn healing_helps_one<
    'a,
    E: Entity,
    S: EntityStore<E>,
    D: StaticDataProvider,
    C: ZoneContainers,
    P: ZoneItemProps,
>(
    a: &ZoneAccess<'a, E, S, D, C, P>,
    b: &ZoneAccess<'a, E, S, D, C, P>,
    serial: u32,
    amount: u16,
    r: Result<u16, ControllerError>,
)
    requires
        a.healed_by(b, serial, amount, r),
    ensures
        r is Ok <==> a.here().entities().contains_key(serial)
            && a.here().entities()[serial].state().mobile,
        r is Err ==> b.here() == a.here() && b.out() == a.out(),
        !a.here().entities().contains_key(serial) <==> r == Err::<u16, ControllerError>(
            ControllerError::EntityNotFound(serial),
        ),
        r matches Ok(hits) ==> {
            let e = b.here().entities()[serial].state();
            &&& others_stay(a.here(), b.here(), serial)
            &&& e == a.here().entities()[serial].healed(amount).state
            &&& hits == a.here().entities()[serial].healed(amount).value
            &&& one_more(
                a.out(),
                b.out(),
                WorldEvent::MobileHealed {
                    map_id: a.here().map_id,
                    serial,
                    amount,
                    new_hits: hits,
                    max_hits: match e.hits {
                        Some(p) => p.1,
                        None => 0,
                    },
                    x: e.pos.x,
                    y: e.pos.y,
                },
            )
        },
{
}

/// What is told of the mana and the stamina of an entity, where values that it does not
/// have are given.
pub open spec fn vitals_told(
    map_id: u8,
    serial: u32,
    x: u16,
    y: u16,
    mana: (u16, u16),
    stamina: (u16, u16),
) -> WorldEvent {
    WorldEvent::ManaStaminaChanged {
        map_id,
        serial,
        mana: mana.0,
        max_mana: mana.1,
        stamina: stamina.0,
        max_stamina: stamina.1,
        x,
        y,
    }
}

/// Law: a change of mana is made to one entity, and told with the mana and the stamina that
/// it then has. Where it keeps no count of mana the value answered stands for both, where it
/// keeps none of stamina that is told as zero.
pub proof fn mana_changes_are_told<
    'a,
    E: Entity,
    S: EntityStore<E>,
    D: StaticDataProvider,
    C: ZoneContainers,
    P: ZoneItemProps,
>(
    a: &ZoneAccess<'a, E, S, D, C, P>,
    b: &ZoneAccess<'a, E, S, D, C, P>,
    serial: u32,
    delta: i32,
    r: Result<u16, ControllerError>,
)
    requires
        a.mana_changed(b, serial, delta, r),
    ensures
        r is Ok <==> a.here().entities().contains_key(serial),
        r is Err ==> b.here() == a.here() && b.out() == a.out(),
        r matches Err(e) ==> e == ControllerError::EntityNotFound(serial),
        r matches Ok(now) ==> {
            let e = b.here().entities()[serial].state();
            &&& others_stay(a.here(), b.here(), serial)
            &&& e == a.here().entities()[serial].mana_shifted(delta).state
            &&& now == a.here().entities()[serial].mana_shifted(delta).value
            &&& one_more(
                a.out(),
                b.out(),
                vitals_told(
                    a.here().map_id,
                    serial,
                    e.pos.x,
                    e.pos.y,
                    match e.mana {
                        Some(p) => p,
                        None => (now, now),
                    },
                    match e.stamina {
                        Some(p) => p,
                        None => (0, 0),
                    },
                ),
            )
        },
{
}

/// Law: a change of stamina is made to one entity, and told with the mana and the stamina
/// that it then has. Where it keeps no count of stamina the value answered stands for both,
/// where it keeps none of mana that is told as zero.
pub proof fn stamina_changes_are_told<
    'a,
    E: Entity,
    S: EntityStore<E>,
    D: StaticDataProvider,
    C: ZoneContainers,
    P: ZoneItemProps,
>(
    a: &ZoneAccess<'a, E, S, D, C, P>,
    b: &ZoneAccess<'a, E, S, D, C, P>,
    serial: u32,
    delta: i32,
    r: Result<u16, ControllerError>,
)
    requires
        a.stamina_changed(b, serial, delta, r),
    ensures
        r is Ok <==> a.here().entities().contains_key(serial),
        r is Err ==> b.here() == a.here() && b.out() == a.out(),
        r matches Err(e) ==> e == ControllerError::EntityNotFound(serial),
        r matches Ok(now) ==> {
            let e = b.here().entities()[serial].state();
            &&& others_stay(a.here(), b.here(), serial)
            &&& e == a.here().entities()[serial].stamina_shifted(delta).state
            &&& now == a.here().entities()[serial].stamina_shifted(delta).value
            &&& one_more(
                a.out(),
                b.out(),
                vitals_told(
                    a.here().map_id,
                    serial,
                    e.pos.x,
                    e.pos.y,
                    match e.mana {
                        Some(p) => p,
                        None => (0, 0),
                    },
                    match e.stamina {
                        Some(p) => p,
                        None => (now, now),
                    },
                ),
            )
        },
{
}

/// Law: mana is spent by a mobile that has so much of it, all of it or less, and taken from
/// it; nobody else spends any. One that keeps no count of mana can spend none.
pub proof fn mana_is_spent_by_those_who_have_it<
    'a,
    E: Entity,
    S: EntityStore<E>,
    D: StaticDataProvider,
    C: ZoneContainers,
    P: ZoneItemProps,
>(
    a: &ZoneAccess<'a, E, S, D, C, P>,
    b: &ZoneAccess<'a, E, S, D, C, P>,
    serial: u32,
    amount: u16,
    r: Option<u16>,
)
    requires
        a.mana_spent(b, serial, amount, r),
    ensures
        ({
            let e = a.here().entities()[serial].state();
            r is Some <==> {
                &&& a.here().entities().contains_key(serial)
                &&& e.mobile
                &&& amount == 0 || (e.mana is Some && amount <= (e.mana->0).0)
            }
        }),
        r is None ==> b.here() == a.here() && b.out() == a.out(),
        r is Some ==> {
            let left = a.here().entities()[serial].mana_shifted((0 - amount) as i32);
            &&& others_stay(a.here(), b.here(), serial)
            &&& r == Some(left.value)
            &&& b.here().entities()[serial].state() == left.state
        },
{
}

/// Whether each of these is in the next one, and none but the last is an entity.
pub open spec fn each_in_the_next<
    E: Entity,
    S: EntityStore<E>,
    D: StaticDataProvider,
    C: ZoneContainers,
    P: ZoneItemProps,
>(zone: Zone<E, S, D, C, P>, chain: Seq<u32>) -> bool {
    forall|i: int|
        0 <= i < chain.len() - 1 ==> {
            &&& !zone.entities().contains_key(#[trigger] chain[i])
            &&& zone.containers.places().contains_key(chain[i])
            &&& zone.containers.places()[chain[i]] == chain[i + 1]
        }
}

proof fn lemma_chain<
    E: Entity,
    S: EntityStore<E>,
    D: StaticDataProvider,
    C: ZoneContainers,
    P: ZoneItemProps,
>(zone: Zone<E, S, D, C, P>, chain: Seq<u32>, n: nat, r: Option<(u16, u16)>)
    requires
        chain.len() > 0,
        each_in_the_next(zone, chain),
    ensures
        n < chain.len() ==> (lies_at(zone, chain[0], n, r) <==> r is None),
        n >= chain.len() ==> (lies_at(zone, chain[0], n, r) <==> lies_at(
            zone,
            chain.last(),
            (n - chain.len() + 1) as nat,
            r,
        )),
    decreases n,
{
    if n > 0 && chain.len() > 1 {
        let rest = chain.skip(1);
        assert forall|i: int| 0 <= i < rest.len() - 1 implies {
            &&& !zone.entities().contains_key(#[trigger] rest[i])
            &&& zone.containers.places().contains_key(rest[i])
            &&& zone.containers.places()[rest[i]] == rest[i + 1]
        } by {
            assert(rest[i] == chain[i + 1]);
        }
        lemma_chain(zone, rest, (n - 1) as nat, r);
        assert(!zone.entities().contains_key(chain[0]));
        assert(zone.containers.places()[chain[0]] == chain[1]);
        assert(rest[0] == chain[1]);
        assert(rest.last() == chain.last());
    }
}

/// Law: what is in a container is where the outermost container is: at the place of the
/// entity that this is, or with one who wears it. Where it is in no fewer than sixteen
/// others, one in the other, or nobody wears the outermost, it is nowhere.
pub proof fn things_are_where_the_outermost_is<
    E: Entity,
    S: EntityStore<E>,
    D: StaticDataProvider,
    C: ZoneContainers,
    P: ZoneItemProps,
>(zone: Zone<E, S, D, C, P>, chain: Seq<u32>, r: Option<(u16, u16)>)
    requires
        chain.len() > 0,
        each_in_the_next(zone, chain),
        lies_at(zone, chain[0], MAX_HOPS as nat, r),
    ensures
        chain.len() > 16 ==> r is None,
        chain.len() <= 16 && zone.entities().contains_key(chain.last()) ==> r == Some(
            (
                zone.entities()[chain.last()].state().pos.x,
                zone.entities()[chain.last()].state().pos.y,
            ),
        ),
        chain.len() <= 16 && !zone.entities().contains_key(chain.last())
            && !zone.containers.places().contains_key(chain.last()) ==> match r {
            Some(p) => exists|id: u32| #[trigger]
                zone.entities().contains_key(id)
                    && zone.entities()[id].state().equipment.contains(chain.last()) && p.0
                    == zone.entities()[id].state().pos.x && p.1
                    == zone.entities()[id].state().pos.y,
            None => forall|id: u32| #[trigger]
                zone.entities().contains_key(id)
                    ==> !zone.entities()[id].state().equipment.contains(chain.last()),
        },
{
    lemma_chain(zone, chain, 16, r);
}

/// Law: of a stack as much is left as was not used, and nothing if that was all or more. To
/// use nothing is to use one.
pub proof fn use_takes_what_is_there(had: u16, amount: u16)
    ensures
        amount > 0 && amount <= had ==> left_over(had, amount) + amount == had,
        amount > had ==> left_over(had, amount) == 0,
        amount == 0 && had > 0 ==> left_over(had, amount) + 1 == had,
        had == 0 ==> left_over(had, amount) == 0,
{
}

/// Law: a stack of which some is used stays in its place with what is left; one that is used
/// up is gone. All else in the container stays as it is.
pub proof fn use_changes_one_stack(
    items: Seq<ContainerItem>,
    serial: u32,
    left: u16,
    i: int,
)
    requires
        0 <= i < items.len(),
        items[i].serial == serial,
        forall|j: int| 0 <= j < i ==> (#[trigger] items[j]).serial != serial,
    ensures
        left > 0 ==> {
            let after = items_after_use(items, serial, left);
            &&& after.len() == items.len()
            &&& after[i].amount == left
            &&& after[i].serial == serial
            &&& after[i].graphic == items[i].graphic
            &&& after[i].x == items[i].x
            &&& after[i].y == items[i].y
            &&& after[i].color == items[i].color
            &&& forall|j: int| 0 <= j < items.len() && j != i ==> #[trigger] after[j] == items[j]
        },
        left == 0 ==> forall|t: ContainerItem| #[trigger]
            items_after_use(items, serial, left).contains(t) <==> items.contains(t) && t.serial
                != serial,
{
    assert(has_serial(items, serial));
    lemma_has_first(items, serial);
    let k = first_index(items, serial);
    assert(k == i) by {
        if k < i {
            assert(items[k].serial != serial);
        }
    }
    if left == 0 {
        let p = |t: ContainerItem| !set![serial].contains(t.serial);
        let rest = minus(items, set![serial]);
        assert forall|t: ContainerItem| #[trigger] rest.contains(t) <==> items.contains(t) && t.serial
            != serial by {
            if rest.contains(t) {
                items.lemma_filter_contains_rev(p, t);
                let j = choose|j: int| 0 <= j < rest.len() && rest[j] == t;
                items.lemma_filter_pred(p, j);
            }
            if items.contains(t) && t.serial != serial {
                let j = choose|j: int| 0 <= j < items.len() && items[j] == t;
                items.lemma_filter_contains(p, j);
            }
        }
    }
}

/// Law: some of a stack is used where the stack is known and has the graphic that was
/// expected, if any was. The answer says how much is left and of what, and it is told as the
/// end of the stack or as its new amount, in the container that it is in. Else nothing
/// happens. The entities are left alone.
pub proof fn use_is_told<
    'a,
    E: Entity,
    S: EntityStore<E>,
    D: StaticDataProvider,
    C: ZoneContainers,
    P: ZoneItemProps,
>(
    a: &ZoneAccess<'a, E, S, D, C, P>,
    b: &ZoneAccess<'a, E, S, D, C, P>,
    serial: u32,
    amount: u16,
    expected: Option<u16>,
    r: Option<(u16, u16)>,
)
    requires
        a.item_used(b, serial, amount, expected, r),
    ensures
        r is Some <==> a.stack_of(serial) is Some && (expected is None || expected == Some(
            (a.stack_of(serial)->0).graphic,
        )),
        r is None ==> b.here() == a.here() && b.out() == a.out(),
        b.here().entities() == a.here().entities(),
        r matches Some((left, graphic)) ==> {
            let item = a.stack_of(serial)->0;
            let cs = a.here().containers.places()[serial];
            &&& graphic == item.graphic
            &&& amount > 0 && item.amount >= amount ==> left + amount == item.amount
            &&& item.amount < amount ==> left == 0
            &&& forall|c: u32| c != cs ==> (#[trigger] b.here().containers.stored().contains_key(c)
                <==> a.here().containers.stored().contains_key(c))
            &&& forall|c: u32| c != cs && #[trigger] b.here().containers.stored().contains_key(c)
                ==> b.here().containers.stored()[c] == a.here().containers.stored()[c]
            &&& left == 0 ==> !b.here().containers.places().contains_key(serial)
            &&& left > 0 ==> b.here().containers.places().contains_key(serial)
                && b.here().containers.places()[serial] == cs
            &&& a.out().publishing ==> {
                &&& b.out().events.last() matches WorldEvent::ContainerContentsUpdated {
                    container_serial,
                    changes,
                    ..
                }
                &&& container_serial == cs
                &&& changes@.len() == 1
                &&& match changes@[0] {
                    ContainerContentChange::ItemRemoved { item_serial } => left == 0
                        && item_serial == item.serial,
                    ContainerContentChange::ItemUpdated {
                        item_serial,
                        graphic: g,
                        amount: n,
                        x,
                        y,
                        color,
                    } => {
                        &&& left > 0
                        &&& item_serial == item.serial
                        &&& g == item.graphic
                        &&& n == left
                        &&& (x, y) == (item.x, item.y)
                        &&& color == item.color
                    },
                    _ => false,
                }
            }
        },
{
}

/// Law: what is found of a graphic in a container is the first item there that has it and
/// is not used up, and something is found where there is one.
pub proof fn the_first_is_found(items: Seq<ContainerItem>, graphic: u16)
    ensures
        match first_of(items, graphic) {
            Some((serial, amount)) => amount > 0 && exists|i: int|
                {
                    &&& 0 <= i < items.len()
                    &&& (#[trigger] items[i]).graphic == graphic
                    &&& items[i].serial == serial
                    &&& items[i].amount == amount
                    &&& forall|j: int|
                        0 <= j < i ==> (#[trigger] items[j]).graphic != graphic
                            || items[j].amount == 0
                },
            None => forall|i: int|
                0 <= i < items.len() ==> (#[trigger] items[i]).graphic != graphic
                    || items[i].amount == 0,
        },
    decreases items.len(),
{
    if items.len() > 0 {
        if items[0].graphic == graphic && items[0].amount > 0 {
            assert(items[0].serial == (first_of(items, graphic)->0).0);
        } else {
            let rest = items.skip(1);
            the_first_is_found(rest, graphic);
            match first_of(items, graphic) {
                Some((serial, amount)) => {
                    let i = choose|i: int|
                        {
                            &&& 0 <= i < rest.len()
                            &&& (#[trigger] rest[i]).graphic == graphic
                            &&& rest[i].serial == serial
                            &&& rest[i].amount == amount
                            &&& forall|j: int|
                                0 <= j < i ==> (#[trigger] rest[j]).graphic != graphic
                                    || rest[j].amount == 0
                        };
                    assert(items[i + 1] == rest[i]);
                    assert forall|j: int| 0 <= j < i + 1 implies (#[trigger] items[j]).graphic
                        != graphic || items[j].amount == 0 by {
                        if j > 0 {
                            assert(items[j] == rest[j - 1]);
                        }
                    }
                    assert(items[i + 1].graphic == graphic);
                },
                None => {
                    assert forall|i: int| 0 <= i < items.len() implies (#[trigger] items[i]).graphic
                        != graphic || items[i].amount == 0 by {
                        if i > 0 {
                            assert(items[i] == rest[i - 1]);
                        }
                    }
                },
            }
        }
    }
}

/// Law: one who wants to hear watches the tiles around the entity, as far as was wished,
/// with nothing heard yet; one who wants to hear no more watches nothing. Others watch what
/// they watched, and nothing changes in the zone.
pub proof fn hearing_begins_and_ends<
    'a,
    E: Entity,
    S: EntityStore<E>,
    D: StaticDataProvider,
    C: ZoneContainers,
    P: ZoneItemProps,
>(
    a: &ZoneAccess<'a, E, S, D, C, P>,
    b: &ZoneAccess<'a, E, S, D, C, P>,
    c: &ZoneAccess<'a, E, S, D, C, P>,
    serial: u32,
    radius: u16,
    other: u32,
)
    requires
        a.out().observing,
        a.here().entities().contains_key(serial),
        a.now_hears(b, serial, radius),
        b.hears_no_more(c, serial),
    ensures
        b.here() == a.here(),
        c.here() == a.here(),
        b.out().watchers.contains_key(serial),
        b.out().watchers[serial].map_id == a.here().map_id,
        ({
            let pos = a.here().entities()[serial].state().pos;
            let rect = b.out().watchers[serial].view_rect;
            let r = radius as int;
            &&& rect.x_min == if pos.x >= r { pos.x - r } else { 0 }
            &&& rect.y_min == if pos.y >= r { pos.y - r } else { 0 }
            &&& rect.x_max == if pos.x + r <= 65535 { pos.x + r } else { 65535 }
            &&& rect.y_max == if pos.y + r <= 65535 { pos.y + r } else { 65535 }
        }),
        b.out().watchers[serial].target is Buffer,
        (b.out().watchers[serial].target->Buffer_0).len() == 0,
        !c.out().watchers.contains_key(serial),
        other != serial ==> (c.out().watchers.contains_key(other)
            <==> a.out().watchers.contains_key(other)) && (a.out().watchers.contains_key(other)
            ==> c.out().watchers[other] == a.out().watchers[other]),
        c.out().events == a.out().events,
{
}

/// Law: properties that are set are there, where the zone keeps any, and those that are taken
/// away are not. Other items keep theirs, and nothing else changes.
pub proof fn properties_are_as_they_were_set<
    'a,
    E: Entity,
    S: EntityStore<E>,
    D: StaticDataProvider,
    C: ZoneContainers,
    P: ZoneItemProps,
>(
    a: &ZoneAccess<'a, E, S, D, C, P>,
    b: &ZoneAccess<'a, E, S, D, C, P>,
    serial: u32,
    props: Option<P::Value>,
    other: u32,
)
    requires
        a.props_set(b, serial, props),
    ensures
        b.out() == a.out(),
        b.here().entities() == a.here().entities(),
        b.here().containers == a.here().containers,
        props matches Some(v) ==> a.here().item_props.keeps()
            ==> b.here().item_props.stored().contains_key(serial)
            && b.here().item_props.stored()[serial] == v,
        props is None ==> !b.here().item_props.stored().contains_key(serial),
        other != serial ==> (b.here().item_props.stored().contains_key(other)
            <==> a.here().item_props.stored().contains_key(other)) && (
        a.here().item_props.stored().contains_key(other) ==> b.here().item_props.stored()[other]
            == a.here().item_props.stored()[other]),
{
}

/// Law: what is seen of an entity is what it is: who and where it is, how it looks and of which
/// kind it is, what it has of each of the three values and could have at most, and its name.
pub proof fn entities_are_shown_as_they_are(i: EntityInfo, e: EntityState)
    requires
        i.shows(e),
    ensures
        i.serial == e.serial,
        (i.pos.x, i.pos.y, i.pos.z) == (e.pos.x, e.pos.y, e.pos.z),
        i.graphic == e.graphic,
        i.is_mobile == e.mobile && i.is_multi == e.multi && i.is_player == e.player && i.is_mounted
            == e.mounted,
        match e.hits {
            Some((v, most)) => i.hits == Some(v) && i.hits_max == Some(most),
            None => i.hits is None && i.hits_max is None,
        },
        match e.mana {
            Some((v, most)) => i.mana == Some(v) && i.mana_max == Some(most),
            None => i.mana is None && i.mana_max is None,
        },
        match e.stamina {
            Some((v, most)) => i.stamina == Some(v) && i.stamina_max == Some(most),
            None => i.stamina is None && i.stamina_max is None,
        },
        i.notoriety == e.notoriety && i.direction == e.direction,
        match e.name {
            Some(n) => i.name matches Some(text) && text@ == n,
            None => i.name is None,
        },
{
}

/// Law: what an entity does is told at its place, and at the corner of the map if it is not
/// in the zone.
pub proof fn deeds_are_told_where_they_are_done<
    E: Entity,
    S: EntityStore<E>,
    D: StaticDataProvider,
    C: ZoneContainers,
    P: ZoneItemProps,
>(zone: Zone<E, S, D, C, P>, serial: u32)
    ensures
        zone.entities().contains_key(serial) ==> place_of(zone, serial).0
            == zone.entities()[serial].state().pos.x && place_of(zone, serial).1
            == zone.entities()[serial].state().pos.y,
        !zone.entities().contains_key(serial) ==> place_of(zone, serial) == (0u16, 0u16),
{
}

/// Law: a step of one about whom nothing is known stays at its height; any other ends where
/// the ground of the zone lets it, on foot.
pub proof fn steps_follow_the_ground_of_the_zone<
    E: Entity,
    S: EntityStore<E>,
    D: StaticDataProvider,
    C: ZoneContainers,
    P: ZoneItemProps,
>(zone: Zone<E, S, D, C, P>, pos: Pos3D, h: Heading, r: Option<i8>)
    requires
        step_ends(zone, pos, h, r),
    ensures
        zone.static_data is Some ==> (MovementValidator {
            provider: &zone.tiles(),
            passable_mask: 0,
            can_fly: false,
        }).leads_to(pos.x, pos.y, pos.z, h, r),
        zone.nothing_at(pos.x, pos.y) ==> r == Some(pos.z),
{
}

} // verus!

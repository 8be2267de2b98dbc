//! How entities come from one zone to another, and whom commands reach.

use vstd::prelude::*;

use super::cargo::{cargo_is_all_that_is_nested, nested, shallow, was_taken};
use super::container::{has_serial, ZoneContainers};
use super::item_props::ZoneItemProps;
use super::traits::{CommandHandler, EntityStore};
use super::worker::{
    as_props, carried, goes_along, zone_cargo, zone_props, CrossZoneOp, Passage, TransferError,
    TransferResult, Worker,
};
use super::world_event::WorldEvent;
use super::zone::Zone;
use crate::coords::Pos3D;
use crate::vessel::entity::Entity;
use crate::vessel::static_data::StaticDataProvider;

verus! {

/// Law: the properties that go along with an entity are its own, those of what it wears,
/// those of the containers within its backpack, and those of all that is in them; unless
/// some are nested too deep. Each is as it was.
pub proof fn properties_go_along_with_things<
    E: Entity,
    S: EntityStore<E>,
    D: StaticDataProvider,
    C: ZoneContainers,
    P: ZoneItemProps,
>(zone: Zone<E, S, D, C, P>, serial: u32, bp: u32, s: u32)
    requires
        zone.entities().contains_key(serial),
        zone.entities()[serial].state().backpack == Some(bp),
        shallow(zone.containers.stored(), bp),
    ensures
        ({
            let m = zone.containers.stored();
            zone_props(zone, serial).contains_key(s) <==> {
                &&& zone.item_props.stored().contains_key(s)
                &&& {
                    ||| s == serial
                    ||| zone.entities()[serial].state().equipment.contains(s)
                    ||| nested(m, bp, s)
                    ||| exists|c: u32| #[trigger] nested(m, bp, c) && has_serial(m[c].items, s)
                }
            }
        }),
        zone_props(zone, serial).contains_key(s) ==> zone_props(zone, serial)[s]
            == zone.item_props.stored()[s],
{
    let m = zone.containers.stored();
    let cargo = zone_cargo(zone, serial);
    cargo_is_all_that_is_nested(m, bp);
    assert(was_taken(cargo.taken, s) <==> nested(m, bp, s));
    if carried(cargo.taken, s) {
        let i = choose|i: int|
            0 <= i < cargo.taken.len() && has_serial((#[trigger] cargo.taken[i]).1.items, s);
        let c = cargo.taken[i].0;
        assert(was_taken(cargo.taken, c));
        assert(nested(m, bp, c));
        assert(has_serial(m[c].items, s));
    }
    if exists|c: u32| #[trigger] nested(m, bp, c) && has_serial(m[c].items, s) {
        let c = choose|c: u32| #[trigger] nested(m, bp, c) && has_serial(m[c].items, s);
        assert(was_taken(cargo.taken, c));
        let i = choose|i: int| 0 <= i < cargo.taken.len() && (#[trigger] cargo.taken[i]).0 == c;
        assert(has_serial(cargo.taken[i].1.items, s));
    }
    assert(zone_props(zone, serial).contains_key(s) <==> zone.item_props.stored().contains_key(s)
        && goes_along(zone.entities()[serial].state(), serial, cargo.taken, s));
}

/// Law: of the properties in a list the last for an item counts.
pub proof fn later_properties_count<V>(list: Seq<(u32, V)>, s: u32, i: int)
    requires
        0 <= i < list.len(),
        list[i].0 == s,
        forall|j: int| i < j < list.len() ==> (#[trigger] list[j]).0 != s,
    ensures
        as_props(list).contains_key(s),
        as_props(list)[s] == list[i].1,
    decreases list.len(),
{
    if i < list.len() - 1 {
        let head = list.drop_last();
        assert forall|j: int| i < j < head.len() implies (#[trigger] head[j]).0 != s by {
            assert(head[j] == list[j]);
        }
        assert(list[list.len() - 1].0 != s);
        later_properties_count(head, s, i);
    }
}

/// Law: what no list entry is for has no properties from the list.
pub proof fn properties_are_listed<V>(list: Seq<(u32, V)>, s: u32)
    requires
        forall|j: int| 0 <= j < list.len() ==> (#[trigger] list[j]).0 != s,
    ensures
        !as_props(list).contains_key(s),
    decreases list.len(),
{
    if list.len() > 0 {
        let head = list.drop_last();
        assert forall|j: int| 0 <= j < head.len() implies (#[trigger] head[j]).0 != s by {
            assert(head[j] == list[j]);
        }
        assert(list[list.len() - 1].0 != s);
        properties_are_listed(head, s);
    }
}

/// Law: an entity that came from one zone to another is in the new one, at the place and
/// facing the way it was sent, and no longer in the old one. The other entities of both are
/// as they were, and so are all other zones. It is told first that it is gone from where it
/// was, then that it is there.
pub proof fn travellers_arrive<
    E: Entity,
    S: EntityStore<E>,
    D: StaticDataProvider,
    C: ZoneContainers,
    P: ZoneItemProps,
    A,
    H: CommandHandler<E, S, D, C, P, A>,
    F: Fn(u8) -> Zone<E, S, D, C, P>,
>(
    before: Worker<E, S, D, C, P, A, H, F>,
    after: Worker<E, S, D, C, P, A, H, F>,
    from_map: u8,
    to_map: u8,
    serial: u32,
    x: u16,
    y: u16,
    z: i8,
    facing: Option<u8>,
    t: TransferResult<E>,
    other: u32,
    m: u8,
)
    requires
        from_map != to_map,
        before.zones@.contains_key(from_map),
        before.zones@.contains_key(to_map),
        Worker::transferred(
            before,
            after,
            CrossZoneOp::TransferEntity {
                from_map,
                to_map,
                serial,
                new_x: x,
                new_y: y,
                new_z: z,
                new_direction: facing,
            },
            Ok(t),
        ),
    ensures
        t.from_map == from_map,
        t.to_map == to_map,
        before.zones@[from_map].entities().contains_key(serial),
        ({
            let there = after.zones@[to_map].entities();
            let here = after.zones@[from_map].entities();
            let e = before.zones@[from_map].entities()[serial];
            let was = before.zones@;
            &&& there.contains_key(serial)
            &&& there[serial].state() == t.entity.state()
            &&& there[serial].state().pos == (Pos3D { x, y, z })
            &&& facing is None ==> there[serial].state() == e.moved((Pos3D { x, y, z }))
            &&& facing matches Some(d) ==> exists|moved: E| #[trigger]
                moved.state() == e.moved((Pos3D { x, y, z })) && there[serial].state()
                    == moved.turned(d)
            &&& !here.contains_key(serial)
            &&& other != serial ==> {
                &&& there.contains_key(other) <==> was[to_map].entities().contains_key(other)
                &&& there.contains_key(other) ==> there[other] == was[to_map].entities()[other]
                &&& here.contains_key(other) <==> was[from_map].entities().contains_key(other)
                &&& here.contains_key(other) ==> here[other] == was[from_map].entities()[other]
            }
            &&& m != from_map && m != to_map ==> {
                &&& after.zones@.contains_key(m) <==> was.contains_key(m)
                &&& was.contains_key(m) ==> after.zones@[m] == was[m]
            }
            &&& after.zones@[from_map].map_id == was[from_map].map_id
            &&& after.zones@[to_map].map_id == was[to_map].map_id
            &&& after.events@.len() == before.events@.len() + 2
            &&& after.events@.take(before.events@.len() as int) =~= before.events@
            &&& after.events@[before.events@.len() as int] == (WorldEvent::EntityRemoved {
                map_id: from_map,
                serial,
                last_pos: e.state().pos,
            })
            &&& after.events@.last() matches WorldEvent::EntitySpawned {
                map_id,
                serial: who,
                pos,
                entity,
            }
            &&& map_id == to_map
            &&& who == serial
            &&& (pos.x, pos.y, pos.z) == (x, y, z)
            &&& entity == there[serial].state().snapshot
        }),
{
    let op = CrossZoneOp::TransferEntity {
        from_map,
        to_map,
        serial,
        new_x: x,
        new_y: y,
        new_z: z,
        new_direction: facing,
    };
    assert(Worker::arrived(before, after, op, t.entity));
    let p = choose|p: Passage<E, S, D, C, P, A, H>| #[trigger]
        Worker::passed(before, after, op, t.entity, p);
    assert(p.ready == before.zones@);
    assert(p.moved.state() == before.zones@[from_map].entities()[serial].moved(
        (Pos3D { x, y, z }),
    ));
}

/// Law: an order to move an entity fails where there is no zone to leave or to enter and
/// none can be made, in this order, and then where the entity is not there. No entity, no
/// event and no other zone is touched by a failure.
pub proof fn failed_voyages_move_nobody<
    E: Entity,
    S: EntityStore<E>,
    D: StaticDataProvider,
    C: ZoneContainers,
    P: ZoneItemProps,
    A,
    H: CommandHandler<E, S, D, C, P, A>,
    F: Fn(u8) -> Zone<E, S, D, C, P>,
>(
    before: Worker<E, S, D, C, P, A, H, F>,
    after: Worker<E, S, D, C, P, A, H, F>,
    op: CrossZoneOp,
    r: Result<TransferResult<E>, TransferError>,
    m: u8,
)
    requires
        Worker::transferred(before, after, op, r),
    ensures
        ({
            let CrossZoneOp::TransferEntity { from_map, to_map, serial, .. } = op;
            let made = before.zone_factory is Some;
            let source = before.zones@.contains_key(from_map);
            let target = before.zones@.contains_key(to_map);
            &&& r == Err::<TransferResult<E>, TransferError>(TransferError::SourceZoneMissing)
                <==> !source && !made
            &&& r == Err::<TransferResult<E>, TransferError>(TransferError::DestinationZoneMissing)
                <==> source && !target && !made
            &&& source && target ==> (r is Ok
                <==> before.zones@[from_map].entities().contains_key(serial))
            &&& r is Err ==> after.events == before.events
            &&& r is Err && before.zones@.contains_key(m) ==> after.zones@.contains_key(m)
                && after.zones@[m] == before.zones@[m]
            &&& r is Err && !made ==> (after.zones@.contains_key(m)
                <==> before.zones@.contains_key(m))
            &&& r is Err && m != from_map && m != to_map ==> (after.zones@.contains_key(m)
                <==> before.zones@.contains_key(m))
        }),
{
    let CrossZoneOp::TransferEntity { from_map, to_map, serial, .. } = op;
    match r {
        Ok(t) => {
            assert(Worker::arrived(before, after, op, t.entity));
            let p = choose|p: Passage<E, S, D, C, P, A, H>| #[trigger]
                Worker::passed(before, after, op, t.entity, p);
        },
        Err(TransferError::EntityNotFound) => {
            let first = choose|first: Map<u8, Zone<E, S, D, C, P>>|
                before.readied(before.zones@, first, from_map) && #[trigger] before.readied(
                    first,
                    after.zones@,
                    to_map,
                );
        },
        _ => {},
    }
}

/// Law: a command for a map is handled in the zone of this map and in no other, and a command
/// for whichever zone in just one; all other zones stay as they are, and what was told before
/// stays told.
pub proof fn commands_reach_one_zone<
    E: Entity,
    S: EntityStore<E>,
    D: StaticDataProvider,
    C: ZoneContainers,
    P: ZoneItemProps,
    A,
    H: CommandHandler<E, S, D, C, P, A>,
    F: Fn(u8) -> Zone<E, S, D, C, P>,
>(
    before: Worker<E, S, D, C, P, A, H, F>,
    after: Worker<E, S, D, C, P, A, H, F>,
    zones: Map<u8, Zone<E, S, D, C, P>>,
    m: u8,
    cmd: H::Command,
    other: u8,
)
    requires
        Worker::handled_in(before, after, zones, m, cmd),
    ensures
        zones.contains_key(m),
        after.zones@.contains_key(m),
        other != m ==> (after.zones@.contains_key(other) <==> zones.contains_key(other)) && (
        zones.contains_key(other) ==> after.zones@[other] == zones[other]),
        before.events@.len() <= after.events@.len(),
        forall|i: int|
            0 <= i < before.events@.len() ==> #[trigger] after.events@[i] == before.events@[i],
        exists|told: Seq<WorldEvent>|
            {
                &&& after.events@ == #[trigger] (before.events@ + told)
                &&& H::handles(
                    before.handler,
                    after.handler,
                    zones[m],
                    after.zones@[m],
                    cmd,
                    told,
                )
            },
{
    let n = before.events@.len() as int;
    let told = after.events@.skip(n);
    assert(after.events@ =~= before.events@ + told);
    assert forall|i: int| 0 <= i < n implies #[trigger] after.events@[i] == before.events@[i] by {
        assert(after.events@.take(n)[i] == before.events@[i]);
    }
}

/// Law: a command for a map whose zone is there is handled in this zone, as it is; one for a
/// map without a zone, where none can be made, does nothing.
pub proof fn commands_go_to_their_map<
    E: Entity,
    S: EntityStore<E>,
    D: StaticDataProvider,
    C: ZoneContainers,
    P: ZoneItemProps,
    A,
    H: CommandHandler<E, S, D, C, P, A>,
    F: Fn(u8) -> Zone<E, S, D, C, P>,
>(
    before: Worker<E, S, D, C, P, A, H, F>,
    after: Worker<E, S, D, C, P, A, H, F>,
    m: u8,
    cmd: H::Command,
)
    requires
        Worker::map_handled(before, after, m, cmd),
    ensures
        before.zones@.contains_key(m) ==> Worker::handled_in(before, after, before.zones@, m, cmd),
        !before.zones@.contains_key(m) && before.zone_factory is None ==> after == before,
{
}

} // verus!

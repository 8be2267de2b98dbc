//! The worker that owns the zones: it hands commands to a handler and moves
//! entities from zone to zone.

use std::collections::HashMap;

use vstd::prelude::*;

use super::cargo::{
    cargo_is_all_that_is_nested, cargo_of, cargo_views, collect_and_remove_containers, item_list,
    nested, places_without, shallow, was_taken, Cargo,
};
use super::container::{
    entry_true, has_serial, held_somewhere, index_true, insertion_keeps_index, items_apart,
    places_with_container, taken_out_and_put_back, true_index_keeps_items_apart, ContainerInfo,
    ContainerItem, ContainerView, ZoneContainers,
};
use super::item_props::ZoneItemProps;
use super::traits::{added, appended, CommandHandler, EntityStore};
use super::world_event::WorldEvent;
use super::zone::Zone;
use crate::collections::{map_get_mut, map_keys};
use crate::coords::Pos3D;
use crate::ecumene::entity_registry::EntityRegistry;
use crate::vessel::entity::{Entity, EntityState};
use crate::vessel::static_data::StaticDataProvider;

verus! {

broadcast use vstd::std_specs::hash::group_hash_axioms;

/// Properties by serial, out of a list; later entries count.
pub open spec fn as_props<V>(list: Seq<(u32, V)>) -> Map<u32, V>
    decreases list.len(),
{
    if list.len() == 0 {
        Map::empty()
    } else {
        as_props(list.drop_last()).insert(list.last().0, list.last().1)
    }
}

/// Containers after those of a list were added.
pub open spec fn with_cargo(
    m: Map<u32, ContainerView>,
    list: Seq<(u32, ContainerView)>,
) -> Map<u32, ContainerView>
    decreases list.len(),
{
    if list.len() == 0 {
        m
    } else {
        with_cargo(m, list.drop_last()).insert(list.last().0, list.last().1)
    }
}

/// Where the items are after the containers of a list were added to those of a
/// storage.
pub open spec fn places_with(
    m: Map<u32, ContainerView>,
    places: Map<u32, u32>,
    list: Seq<(u32, ContainerView)>,
) -> Map<u32, u32>
    decreases list.len(),
{
    if list.len() == 0 {
        places
    } else {
        places_with_container(
            with_cargo(m, list.drop_last()),
            places_with(m, places, list.drop_last()),
            list.last().0,
            list.last().1,
        )
    }
}

/// Whether a container of a list holds an item.
pub open spec fn carried(taken: Seq<(u32, ContainerView)>, s: u32) -> bool {
    exists|i: int| 0 <= i < taken.len() && has_serial((#[trigger] taken[i]).1.items, s)
}

/// Whose properties go along: those of the entity, of what it wears, of the
/// containers it carries and of all items in them.
pub open spec fn goes_along(
    e: EntityState,
    serial: u32,
    taken: Seq<(u32, ContainerView)>,
    s: u32,
) -> bool {
    s == serial || e.equipment.contains(s) || was_taken(taken, s) || carried(taken, s)
}

/// What an entity takes along from one zone to another.
pub struct Luggage<E: Entity, V> {
    pub entity: E,
    pub containers: Vec<(u32, ContainerInfo)>,
    pub props: Vec<(u32, V)>,
}

/// The containers that an entity of a zone carries, and those that stay.
pub open spec fn zone_cargo<
    E: Entity,
    S: EntityStore<E>,
    D: StaticDataProvider,
    C: ZoneContainers,
    P: ZoneItemProps,
>(zone: Zone<E, S, D, C, P>, serial: u32) -> Cargo {
    cargo_of(zone.containers.stored(), zone.entities()[serial].state().backpack)
}

/// The properties that go along with an entity of a zone.
pub open spec fn zone_props<
    E: Entity,
    S: EntityStore<E>,
    D: StaticDataProvider,
    C: ZoneContainers,
    P: ZoneItemProps,
>(zone: Zone<E, S, D, C, P>, serial: u32) -> Map<u32, P::Value> {
    zone.item_props.stored().restrict(
        Set::new(
            |s: u32|
                goes_along(
                    zone.entities()[serial].state(),
                    serial,
                    zone_cargo(zone, serial).taken,
                    s,
                ),
        ),
    )
}

/// Whether `after` is what packing up an entity leaves of a zone, with these
/// containers and properties taken along.
pub open spec fn packed<
    E: Entity,
    S: EntityStore<E>,
    D: StaticDataProvider,
    C: ZoneContainers,
    P: ZoneItemProps,
>(
    zone: Zone<E, S, D, C, P>,
    after: Zone<E, S, D, C, P>,
    serial: u32,
    taken: Seq<(u32, ContainerView)>,
    props: Map<u32, P::Value>,
) -> bool {
    let e = zone.entities()[serial];
    let cargo = zone_cargo(zone, serial);
    &&& zone.entities().contains_key(serial)
    &&& after.map_id == zone.map_id
    &&& after.static_data == zone.static_data
    &&& after.entities() == zone.entities().remove(serial)
    &&& forall|x: u16, y: u16| #[trigger]
        after.snapshot.at(x, y) == zone.obstacles_without(e, serial, x, y)
    &&& if e.state().multi {
        EntityRegistry::forgotten(zone.registry, after.registry, serial)
    } else {
        after.registry == zone.registry
    }
    &&& taken == cargo.taken
    &&& after.containers.stored() == cargo.left
    &&& after.containers.places() == places_without(zone.containers.places(), taken)
    &&& after.containers.keeps() == zone.containers.keeps()
    &&& after.containers.indexes() == zone.containers.indexes()
    &&& after.item_props.keeps() == zone.item_props.keeps()
    &&& props == zone_props(zone, serial)
    &&& forall|s: u32| #[trigger]
        after.item_props.stored().contains_key(s) <==> zone.item_props.stored().contains_key(s)
            && !goes_along(e.state(), serial, taken, s)
    &&& forall|s: u32| #[trigger]
        after.item_props.stored().contains_key(s) ==> after.item_props.stored()[s]
            == zone.item_props.stored()[s]
}

/// Whether `after` is what unpacking an entity with its containers and properties
/// leaves of a zone.
pub open spec fn unpacked<
    E: Entity,
    S: EntityStore<E>,
    D: StaticDataProvider,
    C: ZoneContainers,
    P: ZoneItemProps,
>(
    zone: Zone<E, S, D, C, P>,
    after: Zone<E, S, D, C, P>,
    serial: u32,
    entity: E,
    taken: Seq<(u32, ContainerView)>,
    props: Map<u32, P::Value>,
) -> bool {
    &&& after.map_id == zone.map_id
    &&& after.static_data == zone.static_data
    &&& after.entities() == zone.entities().insert(serial, entity)
    &&& forall|x: u16, y: u16| #[trigger]
        after.snapshot.at(x, y) == zone.obstacles_with(entity, serial, x, y)
    &&& if entity.state().multi {
        EntityRegistry::inserted(zone.registry, after.registry, entity.state(), zone.map_id)
    } else {
        after.registry == zone.registry
    }
    &&& after.containers.keeps() == zone.containers.keeps()
    &&& after.containers.indexes() == zone.containers.indexes()
    &&& if zone.containers.keeps() {
        &&& after.containers.stored() == with_cargo(zone.containers.stored(), taken)
        &&& after.containers.places() == if zone.containers.indexes() {
            places_with(zone.containers.stored(), zone.containers.places(), taken)
        } else {
            zone.containers.places()
        }
    } else {
        after.containers == zone.containers
    }
    &&& after.item_props.keeps() == zone.item_props.keeps()
    &&& after.item_props.stored() == if zone.item_props.keeps() {
        zone.item_props.stored().union_prefer_right(props)
    } else {
        zone.item_props.stored()
    }
}

/// The serials whose properties go along, in no particular order and with
/// repetitions.
fn list_along(equipment: Vec<u32>, serial: u32, containers: &Vec<(u32, ContainerInfo)>) -> (r: Vec<
    u32,
>)
    ensures
        forall|s: u32| #[trigger]
            r@.contains(s) <==> s == serial || equipment@.contains(s) || was_taken(
                cargo_views(containers@),
                s,
            ) || carried(cargo_views(containers@), s),
{
    let ghost eq = equipment@;
    let ghost taken = cargo_views(containers@);
    let mut r = equipment;
    r.push(serial);
    let mut i: usize = 0;
    proof {
        assert forall|s: u32| #[trigger] r@.contains(s) <==> s == serial || eq.contains(s)
            || was_taken(taken.take(0), s) || carried(taken.take(0), s) by {
            lemma_push_has(eq, serial, s);
        }
    }
    while i < containers.len()
        invariant
            i <= containers@.len(),
            taken == cargo_views(containers@),
            forall|s: u32| #[trigger]
                r@.contains(s) <==> s == serial || eq.contains(s) || was_taken(
                    taken.take(i as int),
                    s,
                ) || carried(taken.take(i as int), s),
        decreases containers@.len() - i,
    {
        let ghost before = r@;
        let cs: u32 = containers[i].0;
        r.push(cs);
        let items = containers[i].1.item_serials();
        let ghost held = containers@[i as int].1@.items;
        assert(items@ =~= item_list(held));
        let ghost mid = r@;
        let mut j: usize = 0;
        while j < items.len()
            invariant
                j <= items@.len(),
                forall|s: u32| #[trigger]
                    r@.contains(s) <==> mid.contains(s) || items@.take(j as int).contains(s),
            decreases items@.len() - j,
        {
            let ghost r0 = r@;
            r.push(items[j]);
            proof {
                assert(items@.take(j + 1) =~= items@.take(j as int).push(items@[j as int]));
                assert forall|s: u32| #[trigger] r@.contains(s) <==> mid.contains(s) || items@.take(
                    j + 1,
                ).contains(s) by {
                    lemma_push_has(r0, items@[j as int], s);
                    lemma_push_has(items@.take(j as int), items@[j as int], s);
                }
            }
            j += 1;
        }
        proof {
            assert(items@.take(j as int) =~= items@);
            assert(taken.take(i + 1) =~= taken.take(i as int).push(taken[i as int]));
            assert forall|s: u32| #[trigger] r@.contains(s) <==> s == serial || eq.contains(s)
                || was_taken(taken.take(i + 1), s) || carried(taken.take(i + 1), s) by {
                lemma_push_has(before, cs, s);
                lemma_cargo_next(taken.take(i as int), taken[i as int], s);
                lemma_item_list(held, s);
            }
        }
        i += 1;
    }
    assert(taken.take(i as int) =~= taken);
    r
}

proof fn lemma_push_has(l: Seq<u32>, x: u32, s: u32)
    ensures
        l.push(x).contains(s) <==> l.contains(s) || s == x,
{
    let p = l.push(x);
    if l.contains(s) {
        let i = choose|i: int| 0 <= i < l.len() && l[i] == s;
        assert(p[i] == s);
    }
    assert(p[l.len() as int] == x);
    if p.contains(s) {
        let i = choose|i: int| 0 <= i < p.len() && p[i] == s;
        if i < l.len() {
            assert(l[i] == s);
        }
    }
}

proof fn lemma_item_list(items: Seq<ContainerItem>, s: u32)
    ensures
        item_list(items).contains(s) <==> has_serial(items, s),
{
    let l = item_list(items);
    if l.contains(s) {
        let i = choose|i: int| 0 <= i < l.len() && l[i] == s;
        assert(items[i].serial == s);
    }
    if has_serial(items, s) {
        let i = choose|i: int| 0 <= i < items.len() && (#[trigger] items[i]).serial == s;
        assert(l[i] == s);
    }
}

proof fn lemma_cargo_next(taken: Seq<(u32, ContainerView)>, p: (u32, ContainerView), s: u32)
    ensures
        was_taken(taken.push(p), s) <==> was_taken(taken, s) || s == p.0,
        carried(taken.push(p), s) <==> carried(taken, s) || has_serial(p.1.items, s),
{
    let next = taken.push(p);
    assert(next[taken.len() as int] == p);
    if was_taken(taken, s) {
        let i = choose|i: int| 0 <= i < taken.len() && (#[trigger] taken[i]).0 == s;
        assert(next[i].0 == s);
    }
    if was_taken(next, s) {
        let i = choose|i: int| 0 <= i < next.len() && (#[trigger] next[i]).0 == s;
        if i < taken.len() {
            assert(taken[i].0 == s);
        }
    }
    if carried(taken, s) {
        let i = choose|i: int|
            0 <= i < taken.len() && has_serial((#[trigger] taken[i]).1.items, s);
        assert(has_serial(next[i].1.items, s));
    }
    if carried(next, s) {
        let i = choose|i: int| 0 <= i < next.len() && has_serial((#[trigger] next[i]).1.items, s);
        if i < taken.len() {
            assert(has_serial(taken[i].1.items, s));
        }
    }
}

/// Takes the properties of the listed items out of a storage.
fn take_props<P: ZoneItemProps>(store: &mut P, serials: &Vec<u32>) -> (r: Vec<(u32, P::Value)>)
    ensures
        final(store).keeps() == old(store).keeps(),
        forall|s: u32| #[trigger]
            as_props(r@).contains_key(s) <==> old(store).stored().contains_key(s)
                && serials@.contains(s),
        forall|s: u32| #[trigger]
            as_props(r@).contains_key(s) ==> as_props(r@)[s] == old(store).stored()[s],
        forall|s: u32| #[trigger]
            final(store).stored().contains_key(s) <==> old(store).stored().contains_key(s)
                && !serials@.contains(s),
        forall|s: u32| #[trigger]
            final(store).stored().contains_key(s) ==> final(store).stored()[s] == old(store).stored()[s],
{
    let ghost m = store.stored();
    let mut r: Vec<(u32, P::Value)> = Vec::new();
    let mut i: usize = 0;
    while i < serials.len()
        invariant
            i <= serials@.len(),
            m == old(store).stored(),
            store.keeps() == old(store).keeps(),
            forall|s: u32| #[trigger]
                as_props(r@).contains_key(s) <==> m.contains_key(s) && serials@.take(
                    i as int,
                ).contains(s),
            forall|s: u32| #[trigger] as_props(r@).contains_key(s) ==> as_props(r@)[s] == m[s],
            forall|s: u32| #[trigger]
                store.stored().contains_key(s) <==> m.contains_key(s) && !serials@.take(
                    i as int,
                ).contains(s),
            forall|s: u32| #[trigger] store.stored().contains_key(s) ==> store.stored()[s] == m[s],
        decreases serials@.len() - i,
    {
        let s0: u32 = serials[i];
        let ghost before = r@;
        let ghost left = store.stored();
        proof {
            assert(serials@.take(i + 1) =~= serials@.take(i as int).push(s0));
            assert forall|s: u32| #[trigger] serials@.take(i + 1).contains(s) <==> serials@.take(
                i as int,
            ).contains(s) || s == s0 by {
                lemma_push_has(serials@.take(i as int), s0, s);
            }
            assert(left.contains_key(s0) <==> m.contains_key(s0) && !serials@.take(
                i as int,
            ).contains(s0));
            assert(as_props(before).contains_key(s0) <==> m.contains_key(s0) && serials@.take(
                i as int,
            ).contains(s0));
        }
        if let Some(v) = store.remove(s0) {
            r.push((s0, v));
            assert(r@.drop_last() =~= before);
        }
        i += 1;
    }
    assert(serials@.take(i as int) =~= serials@);
    r
}

/// Packs up an entity: takes it out of its zone with the containers it carries and
/// all properties that go along. Nothing happens if it is not there.
fn pack_up<
    E: Entity,
    S: EntityStore<E>,
    D: StaticDataProvider,
    C: ZoneContainers,
    P: ZoneItemProps,
>(zone: &mut Zone<E, S, D, C, P>, serial: u32) -> (r: Option<Luggage<E, P::Value>>)
    requires
        old(zone).wf(),
    ensures
        final(zone).wf(),
        r is Some <==> old(zone).entities().contains_key(serial),
        r matches Some(l) ==> {
            &&& l.entity == old(zone).entities()[serial]
            &&& packed(
                *old(zone),
                *final(zone),
                serial,
                cargo_views(l.containers@),
                as_props(l.props@),
            )
        },
        r is None ==> *final(zone) == *old(zone),
{
    let ghost before = *zone;
    if zone.get(serial).is_none() {
        return None;
    }
    let entity = match zone.remove(serial) {
        Some(e) => e,
        None => {
            return None;
        },
    };
    let ghost removed = *zone;
    let equipment = entity.equipment_serials();
    let containers = collect_and_remove_containers(&mut zone.containers, entity.backpack_serial());
    let along = list_along(equipment, serial, &containers);
    let props = take_props(&mut zone.item_props, &along);
    proof {
        assert forall|id: u32| #[trigger] zone.placed(id) by {
            assert(removed.placed(id));
        }
        assert forall|x: u16, y: u16| #[trigger]
            zone.snapshot.at(x, y) == before.obstacles_without(entity, serial, x, y) by {
            assert(removed.snapshot.at(x, y) == before.obstacles_without(entity, serial, x, y));
        }
        let taken = cargo_views(containers@);
        assert forall|s: u32| #[trigger] along@.contains(s) <==> goes_along(
            entity.state(),
            serial,
            taken,
            s,
        ) by {}
        assert(as_props(props@) =~= zone_props(before, serial));
    }
    Some(Luggage { entity, containers, props })
}

/// Unpacks an entity: brings it into a zone with its containers and properties.
fn unpack<
    E: Entity,
    S: EntityStore<E>,
    D: StaticDataProvider,
    C: ZoneContainers,
    P: ZoneItemProps,
>(
    zone: &mut Zone<E, S, D, C, P>,
    serial: u32,
    entity: E,
    containers: Vec<(u32, ContainerInfo)>,
    props: Vec<(u32, P::Value)>,
)
    requires
        old(zone).wf(),
    ensures
        !old(zone).entities().contains_key(serial) ==> final(zone).wf(),
        unpacked(
            *old(zone),
            *final(zone),
            serial,
            entity,
            cargo_views(containers@),
            as_props(props@),
        ),
{
    let ghost before = *zone;
    zone.spawn(serial, entity);
    let ghost spawned = *zone;
    add_cargo(&mut zone.containers, containers);
    add_props(&mut zone.item_props, props);
    proof {
        if !before.entities().contains_key(serial) {
            assert forall|id: u32| #[trigger] zone.placed(id) by {
                assert(spawned.placed(id));
            }
        }
        assert forall|x: u16, y: u16| #[trigger]
            zone.snapshot.at(x, y) == before.obstacles_with(entity, serial, x, y) by {
            assert(spawned.snapshot.at(x, y) == before.obstacles_with(entity, serial, x, y));
        }
    }
}

/// Adds the containers of a list to a storage.
fn add_cargo<C: ZoneContainers>(store: &mut C, containers: Vec<(u32, ContainerInfo)>)
    ensures
        final(store).keeps() == old(store).keeps(),
        final(store).indexes() == old(store).indexes(),
        if old(store).keeps() {
            &&& final(store).stored() == with_cargo(old(store).stored(), cargo_views(containers@))
            &&& final(store).places() == if old(store).indexes() {
                places_with(old(store).stored(), old(store).places(), cargo_views(containers@))
            } else {
                old(store).places()
            }
        } else {
            *final(store) == *old(store)
        },
{
    let ghost before = *store;
    let ghost views = cargo_views(containers@);
    let mut rest = containers;
    proof {
        assert(rest@ =~= containers@.skip(0));
        assert(views.take(0) =~= Seq::<(u32, ContainerView)>::empty());
    }
    while rest.len() > 0
        invariant
            rest@.len() <= views.len(),
            rest@ == containers@.skip(views.len() - rest@.len()),
            views == cargo_views(containers@),
            store.keeps() == before.keeps(),
            store.indexes() == before.indexes(),
            if before.keeps() {
                &&& store.stored() == with_cargo(
                    before.stored(),
                    views.take(views.len() - rest@.len()),
                )
                &&& store.places() == if before.indexes() {
                    places_with(
                        before.stored(),
                        before.places(),
                        views.take(views.len() - rest@.len()),
                    )
                } else {
                    before.places()
                }
            } else {
                *store == before
            },
        decreases rest@.len(),
    {
        let ghost n = views.len() - rest@.len();
        let (cs, info) = rest.remove(0);
        proof {
            assert(views[n] == (cs, info@));
            assert(views.take(n + 1).drop_last() =~= views.take(n));
            assert(rest@ =~= containers@.skip(n + 1));
        }
        store.insert(cs, info);
    }
    assert(views.take(views.len() as int) =~= views);
}

/// Adds the properties of a list to a storage.
fn add_props<P: ZoneItemProps>(store: &mut P, props: Vec<(u32, P::Value)>)
    ensures
        final(store).keeps() == old(store).keeps(),
        final(store).stored() == if old(store).keeps() {
            old(store).stored().union_prefer_right(as_props(props@))
        } else {
            old(store).stored()
        },
{
    let ghost before = *store;
    let ghost all = props@;
    let mut rest = props;
    proof {
        assert(rest@ =~= all.skip(0));
        assert(all.take(0) =~= Seq::<(u32, P::Value)>::empty());
        assert(before.stored().union_prefer_right(as_props(all.take(0))) =~= before.stored());
    }
    while rest.len() > 0
        invariant
            rest@.len() <= all.len(),
            rest@ == all.skip(all.len() - rest@.len()),
            store.keeps() == before.keeps(),
            store.stored() == if before.keeps() {
                before.stored().union_prefer_right(as_props(all.take(all.len() - rest@.len())))
            } else {
                before.stored()
            },
        decreases rest@.len(),
    {
        let ghost n = all.len() - rest@.len();
        let (s, v) = rest.remove(0);
        proof {
            assert(all.take(n + 1).drop_last() =~= all.take(n));
            assert(rest@ =~= all.skip(n + 1));
        }
        store.insert(s, v);
        proof {
            let had = as_props(all.take(n));
            assert(as_props(all.take(n + 1)) == had.insert(s, v));
            assert(before.stored().union_prefer_right(had).insert(s, v)
                =~= before.stored().union_prefer_right(had.insert(s, v)));
        }
    }
    assert(all.take(all.len() as int) =~= all);
}

/// An operation on two zones, which no other command comes between.
#[derive(Debug, Clone, Copy, PartialEq, Eq, Structural)]
pub enum CrossZoneOp {
    /// Moves an entity with all it carries from one zone to another.
    TransferEntity {
        from_map: u8,
        to_map: u8,
        serial: u32,
        new_x: u16,
        new_y: u16,
        new_z: i8,
        new_direction: Option<u8>,
    },
}

/// A command for the worker.
pub enum WorkerCommand<Cmd> {
    /// For the zone of a map.
    MapCommand(u8, Cmd),
    /// For whichever zone.
    GlobalCommand(Cmd),
    CrossZone(CrossZoneOp),
}

/// An entity after it came to another zone.
pub struct TransferResult<E: Entity> {
    pub entity: E,
    pub from_map: u8,
    pub to_map: u8,
}

/// Why an entity did not come to another zone.
#[derive(Debug, Clone, Copy, PartialEq, Eq, Structural)]
pub enum TransferError {
    /// It is not in the zone that it was to leave.
    EntityNotFound,
    /// There is no zone to leave, and none can be made.
    SourceZoneMissing,
    /// There is no zone to go to, and none can be made.
    DestinationZoneMissing,
}

/// The worker: the zones by their maps, who handles commands, who makes zones that
/// are missing, and the events that nobody has sent yet.
#[verifier::reject_recursive_types(E)]
#[verifier::reject_recursive_types(S)]
#[verifier::reject_recursive_types(D)]
#[verifier::reject_recursive_types(C)]
#[verifier::reject_recursive_types(P)]
#[verifier::reject_recursive_types(A)]
#[verifier::reject_recursive_types(H)]
#[verifier::reject_recursive_types(F)]
pub struct Worker<
    E: Entity,
    S: EntityStore<E>,
    D: StaticDataProvider,
    C: ZoneContainers,
    P: ZoneItemProps,
    A,
    H: CommandHandler<E, S, D, C, P, A>,
    F: Fn(u8) -> Zone<E, S, D, C, P>,
> {
    pub zones: HashMap<u8, Zone<E, S, D, C, P>>,
    pub handler: H,
    pub zone_factory: Option<F>,
    pub events: Vec<WorldEvent>,
    /// Marks the type of what handlers give along.
    pub marker: std::marker::PhantomData<A>,
}

/// The stages of a transfer.
#[verifier::reject_recursive_types(E)]
#[verifier::reject_recursive_types(S)]
#[verifier::reject_recursive_types(D)]
#[verifier::reject_recursive_types(C)]
#[verifier::reject_recursive_types(P)]
#[verifier::reject_recursive_types(A)]
#[verifier::reject_recursive_types(H)]
pub struct Passage<
    E: Entity,
    S: EntityStore<E>,
    D: StaticDataProvider,
    C: ZoneContainers,
    P: ZoneItemProps,
    A,
    H: CommandHandler<E, S, D, C, P, A>,
> {
    /// The zones once the one to leave is there.
    pub first: Map<u8, Zone<E, S, D, C, P>>,
    /// The zones once both are there.
    pub ready: Map<u8, Zone<E, S, D, C, P>>,
    /// The handler once it let go, and what it gave along.
    pub handler: H,
    pub state: Option<A>,
    /// The zone that was left.
    pub source: Zone<E, S, D, C, P>,
    /// The entity at its new place, before it turns.
    pub moved: E,
    /// The entity as the new zone holds it.
    pub landed: E,
    /// The zone that was entered.
    pub target: Zone<E, S, D, C, P>,
}

impl<
    E: Entity,
    S: EntityStore<E>,
    D: StaticDataProvider,
    C: ZoneContainers,
    P: ZoneItemProps,
    A,
    H: CommandHandler<E, S, D, C, P, A>,
    F: Fn(u8) -> Zone<E, S, D, C, P>,
> Worker<E, S, D, C, P, A, H, F> {
    /// All zones are in order, and so is any that can be made.
    pub open spec fn wf(&self) -> bool {
        &&& forall|m: u8| #[trigger] self.zones@.contains_key(m) ==> self.zones@[m].wf()
        &&& self.zone_factory matches Some(f) ==> Self::makes_zones(f)
    }

    /// Whether a factory makes zones that are in order, for all maps.
    pub open spec fn makes_zones(f: F) -> bool {
        &&& forall|m: u8| #[trigger] call_requires(f, (m,))
        &&& forall|m: u8, z: Zone<E, S, D, C, P>| #[trigger]
            call_ensures(f, (m,), z) ==> z.wf()
    }

    /// Whether there is a zone for a map, or one can be made.
    pub open spec fn available(&self, m: u8) -> bool {
        self.zones@.contains_key(m) || self.zone_factory is Some
    }

    /// Whether a number is not in use on a map, nor in a zone that would be made for it.
    pub open spec fn unused(&self, m: u8, serial: u32) -> bool {
        if self.zones@.contains_key(m) {
            !self.zones@[m].entities().contains_key(serial)
        } else {
            self.zone_factory matches Some(f) ==> forall|z: Zone<E, S, D, C, P>| #[trigger]
                call_ensures(f, (m,), z) ==> !z.entities().contains_key(serial)
        }
    }

    /// Whether `after` are the zones once there is one for map `m`.
    pub open spec fn readied(
        &self,
        before: Map<u8, Zone<E, S, D, C, P>>,
        after: Map<u8, Zone<E, S, D, C, P>>,
        m: u8,
    ) -> bool {
        if before.contains_key(m) {
            after == before
        } else {
            &&& self.zone_factory is Some
            &&& after.contains_key(m)
            &&& call_ensures(self.zone_factory->0, (m,), after[m])
            &&& after == before.insert(m, after[m])
        }
    }

    /// A worker without zones and without a factory.
    pub fn new(handler: H) -> (w: Self)
        ensures
            w.wf(),
            w.zones@ == Map::<u8, Zone<E, S, D, C, P>>::empty(),
            w.handler == handler,
            w.zone_factory is None,
            w.events@.len() == 0,
    {
        Worker { zones: HashMap::new(), handler, zone_factory: None, events: Vec::new(), marker: std::marker::PhantomData }
    }

    /// A worker without zones that makes them as they are needed.
    pub fn with_factory(handler: H, factory: F) -> (w: Self)
        requires
            Self::makes_zones(factory),
        ensures
            w.wf(),
            w.zones@ == Map::<u8, Zone<E, S, D, C, P>>::empty(),
            w.handler == handler,
            w.zone_factory == Some(factory),
            w.events@.len() == 0,
    {
        Worker { zones: HashMap::new(), handler, zone_factory: Some(factory), events: Vec::new(), marker: std::marker::PhantomData }
    }

    /// A worker without zones that makes them as they are needed, and adds its events
    /// to those that already wait.
    pub fn with_factory_and_sender(handler: H, factory: F, events: Vec<WorldEvent>) -> (w: Self)
        requires
            Self::makes_zones(factory),
        ensures
            w.wf(),
            w.zones@ == Map::<u8, Zone<E, S, D, C, P>>::empty(),
            w.handler == handler,
            w.zone_factory == Some(factory),
            w.events == events,
    {
        Worker { zones: HashMap::new(), handler, zone_factory: Some(factory), events, marker: std::marker::PhantomData }
    }

    /// Fetches the events, the oldest first.
    pub fn take_events(&mut self) -> (r: Vec<WorldEvent>)
        requires
            old(self).wf(),
        ensures
            final(self).wf(),
            r == old(self).events,
            final(self).events@.len() == 0,
            final(self).zones == old(self).zones,
            final(self).handler == old(self).handler,
            final(self).zone_factory == old(self).zone_factory,
    {
        let mut r: Vec<WorldEvent> = Vec::new();
        std::mem::swap(&mut r, &mut self.events);
        r
    }

    /// Makes the zone of a map if it is missing. Returns whether it is there.
    pub fn ensure_zone(&mut self, map_id: u8) -> (b: bool)
        requires
            old(self).wf(),
        ensures
            final(self).wf(),
            b == old(self).available(map_id),
            b ==> old(self).readied(old(self).zones@, final(self).zones@, map_id),
            !b ==> *final(self) == *old(self),
            final(self).handler == old(self).handler,
            final(self).zone_factory == old(self).zone_factory,
            final(self).events == old(self).events,
    {
        if self.zones.contains_key(&map_id) {
            return true;
        }
        match &self.zone_factory {
            Some(factory) => {
                let zone = factory(map_id);
                self.zones.insert(map_id, zone);
                true
            },
            None => false,
        }
    }

    /// Whether `after` is what a transfer through these stages leaves.
    pub open spec fn passed(
        before: Self,
        after: Self,
        op: CrossZoneOp,
        entity: E,
        p: Passage<E, S, D, C, P, A, H>,
    ) -> bool {
        let CrossZoneOp::TransferEntity {
            from_map,
            to_map,
            serial,
            new_x,
            new_y,
            new_z,
            new_direction,
        } = op;
        let e0 = p.ready[from_map].entities()[serial];
        let taken = zone_cargo(p.ready[from_map], serial).taken;
        let props = zone_props(p.ready[from_map], serial);
        &&& before.readied(before.zones@, p.first, from_map)
        &&& before.readied(p.first, p.ready, to_map)
        &&& H::lets_go(before.handler, p.handler, serial, p.state)
        &&& packed(p.ready[from_map], p.source, serial, taken, props)
        &&& p.moved.state() == e0.moved((Pos3D { x: new_x, y: new_y, z: new_z }))
        &&& match new_direction {
            Some(d) => entity.state() == p.moved.turned(d),
            None => entity == p.moved,
        }
        &&& entity.state().pos == (Pos3D { x: new_x, y: new_y, z: new_z })
        &&& p.landed.state() == entity.state()
        &&& unpacked(
            p.ready.insert(from_map, p.source)[to_map],
            p.target,
            serial,
            p.landed,
            taken,
            props,
        )
        &&& after.zones@ == p.ready.insert(from_map, p.source).insert(to_map, p.target)
        &&& H::takes_in(p.handler, after.handler, serial, p.state, to_map)
        &&& after.events@ == before.events@.push(
            WorldEvent::EntityRemoved { map_id: from_map, serial, last_pos: e0.state().pos },
        ).push(
            WorldEvent::EntitySpawned {
                map_id: to_map,
                serial,
                pos: entity.state().pos,
                entity: entity.state().snapshot,
            },
        )
        &&& after.zone_factory == before.zone_factory
    }

    /// Whether a handler let go of an entity.
    pub open spec fn let_go(before: H, after: H, serial: u32) -> bool {
        exists|state: Option<A>| #[trigger] H::lets_go(before, after, serial, state)
    }

    /// Whether the zones are the same but for those that were made for the maps.
    pub open spec fn both_ready(before: Self, after: Self, from_map: u8, to_map: u8) -> bool {
        exists|first: Map<u8, Zone<E, S, D, C, P>>|
            before.readied(before.zones@, first, from_map) && #[trigger] before.readied(
                first,
                after.zones@,
                to_map,
            )
    }

    /// Whether an entity came to another zone.
    pub open spec fn arrived(before: Self, after: Self, op: CrossZoneOp, entity: E) -> bool {
        exists|p: Passage<E, S, D, C, P, A, H>| #[trigger]
            Self::passed(before, after, op, entity, p)
    }

    /// What became of an order to move an entity.
    pub open spec fn transferred(
        before: Self,
        after: Self,
        op: CrossZoneOp,
        r: Result<TransferResult<E>, TransferError>,
    ) -> bool {
        let CrossZoneOp::TransferEntity { from_map, to_map, serial, .. } = op;
        match r {
            Err(TransferError::SourceZoneMissing) => {
                &&& !before.available(from_map)
                &&& after == before
            },
            Err(TransferError::DestinationZoneMissing) => {
                &&& before.available(from_map)
                &&& !before.available(to_map)
                &&& after.zones@ == before.zones@
                &&& after.handler == before.handler
                &&& after.events == before.events
                &&& after.zone_factory == before.zone_factory
            },
            Err(TransferError::EntityNotFound) => {
                &&& Self::both_ready(before, after, from_map, to_map)
                &&& !after.zones@[from_map].entities().contains_key(serial)
                &&& Self::let_go(before.handler, after.handler, serial)
                &&& after.events == before.events
                &&& after.zone_factory == before.zone_factory
            },
            Ok(t) => {
                &&& t.from_map == from_map
                &&& t.to_map == to_map
                &&& Self::arrived(before, after, op, t.entity)
            },
        }
    }

    /// Moves an entity from one zone to another, with the containers it carries and
    /// all properties that go along. The handler lets go of it first and takes it in
    /// last; two events tell of it. The number is not to be in use where it goes.
    pub fn transfer_entity(
        &mut self,
        from_map: u8,
        to_map: u8,
        serial: u32,
        new_x: u16,
        new_y: u16,
        new_z: i8,
        new_direction: Option<u8>,
    ) -> (r: Result<TransferResult<E>, TransferError>)
        requires
            old(self).wf(),
        ensures
            Self::transferred(
                *old(self),
                *final(self),
                (CrossZoneOp::TransferEntity {
                    from_map,
                    to_map,
                    serial,
                    new_x,
                    new_y,
                    new_z,
                    new_direction,
                }),
                r,
            ),
            r is Err || from_map == to_map || old(self).unused(to_map, serial) ==> final(self).wf(),
    {
        let ghost before = *self;
        if !self.ensure_zone(from_map) {
            return Err(TransferError::SourceZoneMissing);
        }
        let ghost first = self.zones@;
        if !self.ensure_zone(to_map) {
            return Err(TransferError::DestinationZoneMissing);
        }
        let ghost ready = self.zones@;
        let state = self.handler.on_entity_leaving_zone(serial);
        let ghost handler = self.handler;
        let ghost given = state;
        let packed_up = match map_get_mut(&mut self.zones, from_map) {
            Some(zone) => pack_up(zone, serial),
            None => None,
        };
        let luggage = match packed_up {
            Some(l) => l,
            None => {
                assert(self.zones@ =~= ready);
                assert(before.readied(first, self.zones@, to_map));
                assert(Self::both_ready(before, *self, from_map, to_map));
                assert(H::lets_go(before.handler, self.handler, serial, given));
                assert(Self::let_go(before.handler, self.handler, serial));
                return Err(TransferError::EntityNotFound);
            },
        };
        let ghost source = self.zones@[from_map];
        assert(self.zones@ =~= ready.insert(from_map, source));
        let Luggage { entity: e, containers, props } = luggage;
        let last_pos = e.pos();
        let mut entity = e;
        entity.set_pos(Pos3D::new(new_x, new_y, new_z));
        let ghost moved = entity;
        if let Some(d) = new_direction {
            entity.set_direction(d);
        }
        self.events.push(WorldEvent::EntityRemoved { map_id: from_map, serial, last_pos });
        let snapshot = entity.snapshot();
        let pos = entity.pos();
        let landed = entity.duplicate();
        let ghost landed_entity = landed;
        match map_get_mut(&mut self.zones, to_map) {
            Some(zone) => {
                unpack(zone, serial, landed, containers, props);
            },
            None => {
                assert(false);
            },
        }
        let ghost target = self.zones@[to_map];
        self.handler.on_entity_entering_zone(serial, state, to_map);
        self.events.push(
            WorldEvent::EntitySpawned { map_id: to_map, serial, pos, entity: snapshot },
        );
        proof {
            let p = Passage {
                first,
                ready,
                handler,
                state: given,
                source,
                moved,
                landed: landed_entity,
                target,
            };
            let op = CrossZoneOp::TransferEntity {
                from_map,
                to_map,
                serial,
                new_x,
                new_y,
                new_z,
                new_direction,
            };
            assert(Self::passed(before, *self, op, entity, p));
            assert(Self::arrived(before, *self, op, entity));
        }
        Ok(TransferResult { entity, from_map, to_map })
    }

    /// Whether `after` is what a command, handled in the zone of a map, leaves of a
    /// worker with these zones.
    pub open spec fn handled_in(
        before: Self,
        after: Self,
        zones: Map<u8, Zone<E, S, D, C, P>>,
        m: u8,
        cmd: H::Command,
    ) -> bool {
        &&& zones.contains_key(m)
        &&& after.zones@.contains_key(m)
        &&& after.zones@ == zones.insert(m, after.zones@[m])
        &&& appended(before.events@, after.events@)
        &&& H::handles(
            before.handler,
            after.handler,
            zones[m],
            after.zones@[m],
            cmd,
            added(before.events@, after.events@),
        )
        &&& after.zone_factory == before.zone_factory
    }

    /// Whether a command for a map was handled there, after its zone was made if
    /// it was missing. Without a zone nothing happens.
    pub open spec fn map_handled(before: Self, after: Self, m: u8, cmd: H::Command) -> bool {
        if before.available(m) {
            exists|first: Map<u8, Zone<E, S, D, C, P>>|
                before.readied(before.zones@, first, m) && #[trigger] Self::handled_in(
                    before,
                    after,
                    first,
                    m,
                    cmd,
                )
        } else {
            after == before
        }
    }

    /// Whether a command for whichever zone was handled in just one. Without a zone
    /// nothing happens.
    pub open spec fn once_handled(before: Self, after: Self, cmd: H::Command) -> bool {
        if before.zones@.dom().len() == 0 {
            after == before
        } else {
            exists|m: u8| #[trigger] Self::handled_in(before, after, before.zones@, m, cmd)
        }
    }

    /// Whether `after` is what a command leaves, and `r` the answer to a transfer.
    pub open spec fn dispatched(
        before: Self,
        after: Self,
        cmd: WorkerCommand<H::Command>,
        r: Option<Result<TransferResult<E>, TransferError>>,
    ) -> bool {
        match cmd {
            WorkerCommand::MapCommand(m, c) => r is None && Self::map_handled(before, after, m, c),
            WorkerCommand::GlobalCommand(c) => r is None && Self::once_handled(before, after, c),
            WorkerCommand::CrossZone(op) => r is Some && Self::transferred(
                before,
                after,
                op,
                r->0,
            ),
        }
    }

    /// Whether a command keeps the worker in order: all do but a transfer to a map
    /// where the number is in use.
    pub open spec fn harmless(&self, cmd: WorkerCommand<H::Command>) -> bool {
        match cmd {
            WorkerCommand::CrossZone(
                CrossZoneOp::TransferEntity { from_map, to_map, serial, .. },
            ) => from_map == to_map || self.unused(to_map, serial),
            _ => true,
        }
    }

    /// Hands a command to the handler, or carries it out. A transfer is answered.
    pub fn dispatch_command(&mut self, cmd: WorkerCommand<H::Command>) -> (r: Option<
        Result<TransferResult<E>, TransferError>,
    >)
        requires
            old(self).wf(),
        ensures
            Self::dispatched(*old(self), *final(self), cmd, r),
            old(self).harmless(cmd) ==> final(self).wf(),
    {
        match cmd {
            WorkerCommand::MapCommand(m, c) => {
                self.handle_on_map(m, c);
                None
            },
            WorkerCommand::GlobalCommand(c) => {
                self.handle_somewhere(c);
                None
            },
            WorkerCommand::CrossZone(op) => Some(self.handle_cross_zone(op)),
        }
    }

    fn handle_on_map(&mut self, m: u8, cmd: H::Command)
        requires
            old(self).wf(),
        ensures
            final(self).wf(),
            Self::map_handled(*old(self), *final(self), m, cmd),
    {
        let ghost before = *self;
        if !self.ensure_zone(m) {
            return;
        }
        let ghost first = self.zones@;
        if let Some(zone) = map_get_mut(&mut self.zones, m) {
            self.handler.handle(zone, cmd, &mut self.events);
        }
        assert(Self::handled_in(before, *self, first, m, cmd));
    }

    fn handle_somewhere(&mut self, cmd: H::Command)
        requires
            old(self).wf(),
        ensures
            final(self).wf(),
            Self::once_handled(*old(self), *final(self), cmd),
    {
        let ghost before = *self;
        let maps = map_keys(&self.zones);
        if maps.len() == 0 {
            return;
        }
        let m: u8 = maps[0];
        assert(maps@.contains(m));
        if let Some(zone) = map_get_mut(&mut self.zones, m) {
            self.handler.handle(zone, cmd, &mut self.events);
        }
        assert(Self::handled_in(before, *self, before.zones@, m, cmd));
    }

    /// Carries out an operation on two zones.
    pub fn handle_cross_zone(&mut self, op: CrossZoneOp) -> (r: Result<
        TransferResult<E>,
        TransferError,
    >)
        requires
            old(self).wf(),
        ensures
            Self::transferred(*old(self), *final(self), op, r),
            old(self).harmless(WorkerCommand::CrossZone(op)) ==> final(self).wf(),
    {
        match op {
            CrossZoneOp::TransferEntity {
                from_map,
                to_map,
                serial,
                new_x,
                new_y,
                new_z,
                new_direction,
            } => self.transfer_entity(from_map, to_map, serial, new_x, new_y, new_z, new_direction),
        }
    }

    /// Ends a batch of commands.
    pub fn end_batch(&mut self)
        requires
            old(self).wf(),
        ensures
            final(self).wf(),
            H::settles(old(self).handler, final(self).handler),
            final(self).zones == old(self).zones,
            final(self).events == old(self).events,
            final(self).zone_factory == old(self).zone_factory,
    {
        self.handler.post_command();
    }

    /// Whether `after` is what a tick of the zone of a map leaves.
    pub open spec fn ticked(before: Self, after: Self, m: u8) -> bool {
        &&& before.zones@.contains_key(m)
        &&& after.zones@.contains_key(m)
        &&& after.zones@ == before.zones@.insert(m, after.zones@[m])
        &&& appended(before.events@, after.events@)
        &&& H::ticks(
            before.handler,
            after.handler,
            before.zones@[m],
            after.zones@[m],
            added(before.events@, after.events@),
        )
        &&& after.zone_factory == before.zone_factory
    }

    /// Whether `after` is what ticks of the zones of a list of maps leave, one after
    /// the other.
    pub open spec fn ticked_all(before: Self, after: Self, maps: Seq<u8>) -> bool
        decreases maps.len(),
    {
        if maps.len() == 0 {
            after == before
        } else {
            exists|mid: Self|
                Self::ticked_all(before, mid, maps.drop_last()) && #[trigger] Self::ticked(
                    mid,
                    after,
                    maps.last(),
                )
        }
    }

    /// Whether all zones had their tick, each once, in whichever order.
    pub open spec fn all_ticked(before: Self, after: Self) -> bool {
        exists|maps: Seq<u8>|
            {
                &&& #[trigger] Self::ticked_all(before, after, maps)
                &&& maps.no_duplicates()
                &&& maps.to_set() == before.zones@.dom()
            }
    }

    /// Lets time pass in all zones.
    pub fn tick_zones(&mut self)
        requires
            old(self).wf(),
        ensures
            final(self).wf(),
            Self::all_ticked(*old(self), *final(self)),
    {
        let ghost before = *self;
        let maps = map_keys(&self.zones);
        let mut i: usize = 0;
        assert(maps@.take(0) =~= Seq::<u8>::empty());
        while i < maps.len()
            invariant
                i <= maps@.len(),
                self.wf(),
                forall|m: u8| #[trigger] maps@.contains(m) <==> before.zones@.contains_key(m),
                self.zones@.dom() == before.zones@.dom(),
                Self::ticked_all(before, *self, maps@.take(i as int)),
            decreases maps@.len() - i,
        {
            let m: u8 = maps[i];
            let ghost mid = *self;
            assert(maps@.contains(m));
            if let Some(zone) = map_get_mut(&mut self.zones, m) {
                self.handler.tick(zone, &mut self.events);
            }
            proof {
                assert(self.zones@.dom() =~= before.zones@.dom());
                assert(Self::ticked(mid, *self, m));
                let post = maps@.take(i + 1);
                assert(post.drop_last() =~= maps@.take(i as int));
                assert(Self::ticked(mid, *self, post.last()));
            }
            i += 1;
        }
        proof {
            assert(maps@.take(i as int) =~= maps@);
            assert(Self::ticked_all(before, *self, maps@));
        }
    }
}

proof fn lemma_with_cargo(m: Map<u32, ContainerView>, list: Seq<(u32, ContainerView)>, k: u32)
    ensures
        was_taken(list, k) ==> with_cargo(m, list).contains_key(k),
        !was_taken(list, k) ==> (with_cargo(m, list).contains_key(k) <==> m.contains_key(k)),
        !was_taken(list, k) && m.contains_key(k) ==> with_cargo(m, list)[k] == m[k],
        (forall|i: int, j: int|
            0 <= i < list.len() && 0 <= j < list.len() && (#[trigger] list[i]).0
                == (#[trigger] list[j]).0 ==> list[i].1 == list[j].1) ==> forall|i: int|
            0 <= i < list.len() && (#[trigger] list[i]).0 == k ==> with_cargo(m, list)[k]
                == list[i].1,
    decreases list.len(),
{
    if list.len() > 0 {
        let init = list.drop_last();
        lemma_with_cargo(m, init, k);
        if was_taken(list, k) {
            let i = choose|i: int| 0 <= i < list.len() && (#[trigger] list[i]).0 == k;
            if i < init.len() {
                assert(init[i].0 == k);
            }
        }
        if was_taken(init, k) {
            let i = choose|i: int| 0 <= i < init.len() && (#[trigger] init[i]).0 == k;
            assert(list[i].0 == k);
        }
        assert(list[list.len() - 1] == list.last());
        if forall|i: int, j: int|
            0 <= i < list.len() && 0 <= j < list.len() && (#[trigger] list[i]).0
                == (#[trigger] list[j]).0 ==> list[i].1 == list[j].1 {
            assert forall|i: int, j: int|
                0 <= i < init.len() && 0 <= j < init.len() && (#[trigger] init[i]).0
                    == (#[trigger] init[j]).0 implies init[i].1 == init[j].1 by {
                assert(list[i].0 == list[j].0);
            }
            assert forall|i: int| 0 <= i < list.len() && (#[trigger] list[i]).0 == k implies with_cargo(
                m,
                list,
            )[k] == list[i].1 by {
                if list.last().0 == k {
                    assert(list[i].1 == list[list.len() - 1].1);
                } else {
                    assert(init[i].0 == k);
                }
            }
        }
    }
}

/// Law: nothing that an entity carries is lost on its way from one zone to another.
/// Each container it takes along is in the new zone as it was in the old one, and no
/// longer in the old one; each property that goes along is there as it was, and no
/// longer here; and what does not go along stays as it was. Unless some are nested too
/// deep, all containers within its backpack are taken along, and no others.
pub proof fn nothing_is_lost<
    E: Entity,
    S: EntityStore<E>,
    D: StaticDataProvider,
    C: ZoneContainers,
    P: ZoneItemProps,
>(
    source: Zone<E, S, D, C, P>,
    left: Zone<E, S, D, C, P>,
    target: Zone<E, S, D, C, P>,
    reached: Zone<E, S, D, C, P>,
    serial: u32,
    entity: E,
    k: u32,
)
    requires
        source.entities().contains_key(serial),
        packed(
            source,
            left,
            serial,
            zone_cargo(source, serial).taken,
            zone_props(source, serial),
        ),
        unpacked(
            target,
            reached,
            serial,
            entity,
            zone_cargo(source, serial).taken,
            zone_props(source, serial),
        ),
        target.containers.keeps(),
        target.item_props.keeps(),
    ensures
        match source.entities()[serial].state().backpack {
            Some(bp) => shallow(source.containers.stored(), bp) ==> (was_taken(
                zone_cargo(source, serial).taken,
                k,
            ) <==> nested(source.containers.stored(), bp, k)),
            None => !was_taken(zone_cargo(source, serial).taken, k),
        },
        was_taken(zone_cargo(source, serial).taken, k) ==> {
            &&& source.containers.stored().contains_key(k)
            &&& reached.containers.stored().contains_key(k)
            &&& reached.containers.stored()[k] == source.containers.stored()[k]
            &&& !left.containers.stored().contains_key(k)
        },
        !was_taken(zone_cargo(source, serial).taken, k) ==> {
            &&& left.containers.stored().contains_key(k) <==> source.containers.stored().contains_key(
                k,
            )
            &&& source.containers.stored().contains_key(k) ==> left.containers.stored()[k]
                == source.containers.stored()[k]
        },
        source.item_props.stored().contains_key(k) ==> {
            if zone_props(source, serial).contains_key(k) {
                &&& reached.item_props.stored().contains_key(k)
                &&& reached.item_props.stored()[k] == source.item_props.stored()[k]
                &&& !left.item_props.stored().contains_key(k)
            } else {
                &&& left.item_props.stored().contains_key(k)
                &&& left.item_props.stored()[k] == source.item_props.stored()[k]
            }
        },
{
    let m = source.containers.stored();
    let c = zone_cargo(source, serial);
    if let Some(bp) = source.entities()[serial].state().backpack {
        cargo_is_all_that_is_nested(m, bp);
    }
    lemma_with_cargo(target.containers.stored(), c.taken, k);
    assert forall|i: int, j: int|
        0 <= i < c.taken.len() && 0 <= j < c.taken.len() && (#[trigger] c.taken[i]).0
            == (#[trigger] c.taken[j]).0 implies c.taken[i].1 == c.taken[j].1 by {
        assert(c.taken[i].1 == m[c.taken[i].0]);
        assert(c.taken[j].1 == m[c.taken[j].0]);
    }
    assert(c.left.contains_key(k) <==> m.contains_key(k) && !was_taken(c.taken, k));
    if was_taken(c.taken, k) {
        let i = choose|i: int| 0 <= i < c.taken.len() && (#[trigger] c.taken[i]).0 == k;
        assert(c.taken[i].1 == m[k]);
    }
    if source.item_props.stored().contains_key(k) {
        assert(zone_props(source, serial).contains_key(k) <==> goes_along(
            source.entities()[serial].state(),
            serial,
            c.taken,
            k,
        ));
        assert(left.item_props.stored().contains_key(k) <==> !goes_along(
            source.entities()[serial].state(),
            serial,
            c.taken,
            k,
        ));
    }
}

/// Whether the containers of a list are of a storage, each named once and as it is.
spec fn drawn_from(m: Map<u32, ContainerView>, list: Seq<(u32, ContainerView)>) -> bool {
    &&& forall|i: int|
        0 <= i < list.len() ==> m.contains_key((#[trigger] list[i]).0) && list[i].1
            == m[list[i].0]
    &&& forall|i: int, j: int|
        0 <= i < j < list.len() ==> (#[trigger] list[i]).0 != (#[trigger] list[j]).0
}

/// To take listed containers out keeps a true index true.
proof fn lemma_taken_index(
    m: Map<u32, ContainerView>,
    places: Map<u32, u32>,
    list: Seq<(u32, ContainerView)>,
    left: Map<u32, ContainerView>,
)
    requires
        index_true(m, places),
        drawn_from(m, list),
        forall|k: u32| #[trigger] left.contains_key(k) <==> m.contains_key(k) && !was_taken(list, k),
        forall|k: u32| #[trigger] left.contains_key(k) ==> left[k] == m[k],
    ensures
        index_true(left, places_without(places, list)),
    decreases list.len(),
{
    if list.len() == 0 {
        assert(left =~= m);
    } else {
        let head = list.drop_last();
        let (cs, view) = list.last();
        assert(list[list.len() - 1] == list.last());
        let more = left.insert(cs, view);
        assert forall|i: int| 0 <= i < head.len() implies (#[trigger] head[i]) == list[i] by {}
        assert(drawn_from(m, head));
        assert(!was_taken(head, cs));
        assert forall|k: u32| #[trigger] more.contains_key(k) <==> m.contains_key(k) && !was_taken(
            head,
            k,
        ) by {
            assert(list =~= head.push(list.last()));
            lemma_cargo_next(head, list.last(), k);
        }
        lemma_taken_index(m, places, head, more);
        taken_out_and_put_back(more, places_without(places, head), cs);
        assert(!left.contains_key(cs)) by {
            assert(was_taken(list, cs));
        }
        assert(more.remove(cs) =~= left);
    }
}

/// To add listed containers, all of whose items are new, keeps a true index true.
proof fn lemma_added_index(
    from: Map<u32, ContainerView>,
    m: Map<u32, ContainerView>,
    places: Map<u32, u32>,
    list: Seq<(u32, ContainerView)>,
)
    requires
        items_apart(from),
        drawn_from(from, list),
        index_true(m, places),
        forall|s: u32| #[trigger] carried(list, s) ==> !held_somewhere(m, s),
    ensures
        index_true(with_cargo(m, list), places_with(m, places, list)),
    decreases list.len(),
{
    if list.len() > 0 {
        let head = list.drop_last();
        let (cs, view) = list.last();
        assert(list[list.len() - 1] == list.last());
        assert forall|i: int| 0 <= i < head.len() implies (#[trigger] head[i]) == list[i] by {}
        assert(list =~= head.push(list.last()));
        assert forall|s: u32| #[trigger] carried(head, s) implies !held_somewhere(m, s) by {
            lemma_cargo_next(head, list.last(), s);
            assert(carried(list, s));
        }
        lemma_added_index(from, m, places, head);
        let mid = with_cargo(m, head);
        assert forall|s: u32, c: u32|
            #![trigger has_serial(mid[c].items, s)]
            mid.contains_key(c) && c != cs && has_serial(view.items, s) implies !has_serial(
            mid[c].items,
            s,
        ) by {
            assert(has_serial(list[list.len() - 1].1.items, s));
            assert(carried(list, s));
            if has_serial(mid[c].items, s) {
                lemma_added_origin(m, head, c);
                if exists|i: int| 0 <= i < head.len() && #[trigger] head[i] == (c, mid[c]) {
                    let i = choose|i: int| 0 <= i < head.len() && #[trigger] head[i] == (c, mid[c]);
                    assert(list[i] == (c, mid[c]));
                    assert(has_serial(from[c].items, s));
                    assert(has_serial(from[cs].items, s));
                } else {
                    assert(has_serial(m[c].items, s));
                    assert(held_somewhere(m, s));
                }
            }
        }
        insertion_keeps_index(mid, places_with(m, places, head), cs, view);
    }
}

/// A container after a list was added is of the list, or was there before.
proof fn lemma_added_origin(
    m: Map<u32, ContainerView>,
    list: Seq<(u32, ContainerView)>,
    c: u32,
)
    requires
        with_cargo(m, list).contains_key(c),
    ensures
        (exists|i: int| 0 <= i < list.len() && #[trigger] list[i] == (c, with_cargo(m, list)[c]))
            || (m.contains_key(c) && m[c] == with_cargo(m, list)[c]),
    decreases list.len(),
{
    if list.len() > 0 {
        let head = list.drop_last();
        if list.last().0 == c {
            assert(list[list.len() - 1] == (c, with_cargo(m, list)[c]));
        } else {
            lemma_added_origin(m, head, c);
            if exists|i: int| 0 <= i < head.len() && #[trigger] head[i] == (c, with_cargo(m, head)[c]) {
                let i = choose|i: int|
                    0 <= i < head.len() && #[trigger] head[i] == (c, with_cargo(m, head)[c]);
                assert(list[i] == (c, with_cargo(m, list)[c]));
            }
        }
    }
}

/// Law: a move from one zone to another keeps true where both zones place their
/// items, if no item that goes along is in a container of the new zone already. So
/// each item in a container that was taken along is found there.
pub proof fn items_keep_their_places<
    E: Entity,
    S: EntityStore<E>,
    D: StaticDataProvider,
    C: ZoneContainers,
    P: ZoneItemProps,
>(
    source: Zone<E, S, D, C, P>,
    left: Zone<E, S, D, C, P>,
    target: Zone<E, S, D, C, P>,
    reached: Zone<E, S, D, C, P>,
    serial: u32,
    entity: E,
)
    requires
        source.entities().contains_key(serial),
        packed(
            source,
            left,
            serial,
            zone_cargo(source, serial).taken,
            zone_props(source, serial),
        ),
        unpacked(
            target,
            reached,
            serial,
            entity,
            zone_cargo(source, serial).taken,
            zone_props(source, serial),
        ),
        target.containers.keeps(),
        target.containers.indexes(),
        index_true(source.containers.stored(), source.containers.places()),
        index_true(target.containers.stored(), target.containers.places()),
        forall|s: u32| #[trigger]
            carried(zone_cargo(source, serial).taken, s) ==> !held_somewhere(
                target.containers.stored(),
                s,
            ),
    ensures
        index_true(left.containers.stored(), left.containers.places()),
        index_true(reached.containers.stored(), reached.containers.places()),
        forall|i: int, s: u32|
            0 <= i < zone_cargo(source, serial).taken.len() && #[trigger] has_serial(
                zone_cargo(source, serial).taken[i].1.items,
                s,
            ) ==> {
                &&& reached.containers.places().contains_key(s)
                &&& reached.containers.places()[s] == zone_cargo(source, serial).taken[i].0
                &&& !left.containers.places().contains_key(s)
            },
{
    let m = source.containers.stored();
    let c = zone_cargo(source, serial);
    if let Some(bp) = source.entities()[serial].state().backpack {
        cargo_is_all_that_is_nested(m, bp);
    }
    assert(drawn_from(m, c.taken));
    lemma_taken_index(m, source.containers.places(), c.taken, c.left);
    true_index_keeps_items_apart(m, source.containers.places());
    lemma_added_index(m, target.containers.stored(), target.containers.places(), c.taken);
    assert forall|i: int, s: u32|
        0 <= i < c.taken.len() && #[trigger] has_serial(c.taken[i].1.items, s) implies {
        &&& reached.containers.places().contains_key(s)
        &&& reached.containers.places()[s] == c.taken[i].0
        &&& !left.containers.places().contains_key(s)
    } by {
        let k = c.taken[i].0;
        lemma_with_cargo(target.containers.stored(), c.taken, k);
        assert forall|a: int, b: int|
            0 <= a < c.taken.len() && 0 <= b < c.taken.len() && (#[trigger] c.taken[a]).0
                == (#[trigger] c.taken[b]).0 implies c.taken[a].1 == c.taken[b].1 by {
            assert(c.taken[a].1 == m[c.taken[a].0]);
            assert(c.taken[b].1 == m[c.taken[b].0]);
        }
        assert(was_taken(c.taken, k));
        assert(entry_true(reached.containers.stored(), reached.containers.places(), s, k));
        assert(entry_true(m, source.containers.places(), s, k));
        if left.containers.places().contains_key(s) {
            let d = left.containers.places()[s];
            assert(entry_true(left.containers.stored(), left.containers.places(), s, d));
            assert(entry_true(m, source.containers.places(), s, d));
        }
    }
}

} // verus!

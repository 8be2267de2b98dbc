//! What is remembered of the world, what is forgotten, and when.

use vstd::prelude::*;

use super::entity_registry::EntityRegistry;
use super::multi_def::extent_holds_parts;
use super::multi_spatial::SpatialIndex;
use super::tile_rect::TileRect;
use crate::vessel::entity::{Entity, EntityState};
use crate::vessel::static_data::{MultiPart, StaticDataProvider};

verus! {

/// Law: an entity that is inserted is remembered as it is, in its world and in no other, and
/// counts as confirmed where confirmations are collected; a design that was laid over it is
/// gone. All others are remembered as they were. Where nothing is to be remembered nothing
/// happens.
pub proof fn inserted_is_remembered_and_confirmed<
    E: Entity,
    S: SpatialIndex,
    D: StaticDataProvider,
>(
    before: EntityRegistry<E, S, D>,
    after: EntityRegistry<E, S, D>,
    e: EntityState,
    world: u8,
    w: u8,
    s: u32,
)
    requires
        EntityRegistry::inserted(before, after, e, world),
    ensures
        before.cache_mode is Disabled ==> after == before,
        !(before.cache_mode is Disabled) ==> {
            &&& after.cached(world, e.serial) == Some(e)
            &&& w != world ==> after.cached(w, e.serial) is None
            &&& s != e.serial ==> after.cached(w, s) == before.cached(w, s)
            &&& !after.custom_defs@.contains_key(e.serial)
            &&& s != e.serial ==> (after.custom_defs@.contains_key(s)
                <==> before.custom_defs@.contains_key(s))
            &&& before.staleness.armed ==> after.staleness.armed
                && after.staleness.confirmed@.contains(e.serial)
            &&& before.staleness.armed && s != e.serial ==> (after.staleness.confirmed@.contains(s)
                <==> before.staleness.confirmed@.contains(s))
            &&& !before.staleness.armed ==> after.staleness == before.staleness
        },
        after.current_world == before.current_world,
{
}

/// Law: an entity that was just inserted is not swept as long as confirmations are collected.
pub proof fn inserted_is_not_stale<E: Entity, S: SpatialIndex, D: StaticDataProvider>(
    before: EntityRegistry<E, S, D>,
    after: EntityRegistry<E, S, D>,
    e: EntityState,
    world: u8,
    rect: TileRect,
)
    requires
        EntityRegistry::inserted(before, after, e, world),
        !(before.cache_mode is Disabled),
        before.staleness.armed,
    ensures
        !after.is_stale(rect, e.serial),
{
}

/// Law: an item is found on its own tile, a multi-object in a rectangle around its place as
/// far as its parts go, where the map data tell them; a mobile is found nowhere.
pub proof fn inserted_is_found_where_it_is<E: Entity, S: SpatialIndex, D: StaticDataProvider>(
    before: EntityRegistry<E, S, D>,
    after: EntityRegistry<E, S, D>,
    e: EntityState,
    world: u8,
    x: u16,
    y: u16,
)
    requires
        EntityRegistry::inserted(before, after, e, world),
        !(before.cache_mode is Disabled),
    ensures
        !e.multi && e.mobile ==> !after.found_at(world, e.serial, x, y) && after.bbox(
            world,
            e.serial,
        ) is None,
        !e.multi && !e.mobile ==> after.bbox(world, e.serial) is None && (after.found_at(
            world,
            e.serial,
            x,
            y,
        ) <==> S::near(
            (TileRect { x_min: e.pos.x, y_min: e.pos.y, x_max: e.pos.x, y_max: e.pos.y }),
            x,
            y,
        )),
        e.multi && before.static_data is None ==> !after.found_at(world, e.serial, x, y),
        e.multi && before.static_data is Some ==> after.bbox(world, e.serial) is Some && (
        after.found_at(world, e.serial, x, y) <==> S::near(
            after.bbox(world, e.serial)->0,
            x,
            y,
        )),
{
    assert(after.found_at(world, e.serial, x, y) <==> before.gets_shapes(e) && S::near(
        before.rect_for(e),
        x,
        y,
    ));
    assert(after.bbox(world, e.serial) == if e.multi && before.gets_shapes(e) {
        Some(before.rect_for(e))
    } else {
        None
    });
}

/// Law: an entity that is forgotten is remembered in no world, is found nowhere and has no
/// design; all others are as they were, and nothing is confirmed by it.
pub proof fn forgotten_is_nowhere<E: Entity, S: SpatialIndex, D: StaticDataProvider>(
    before: EntityRegistry<E, S, D>,
    after: EntityRegistry<E, S, D>,
    serial: u32,
    w: u8,
    s: u32,
    x: u16,
    y: u16,
)
    requires
        EntityRegistry::forgotten(before, after, serial),
    ensures
        after.cached(w, serial) is None,
        !after.found_at(w, serial, x, y),
        after.bbox(w, serial) is None,
        !after.custom_defs@.contains_key(serial),
        s != serial ==> {
            &&& after.cached(w, s) == before.cached(w, s)
            &&& after.found_at(w, s, x, y) <==> before.found_at(w, s, x, y)
            &&& after.bbox(w, s) == before.bbox(w, s)
            &&& after.custom_defs@.contains_key(s) <==> before.custom_defs@.contains_key(s)
        },
        after.staleness == before.staleness,
        after.current_world == before.current_world,
{
}

/// Whether a rectangle holds a tile, where that is one of the map.
pub open spec fn holds_if_on_map(r: TileRect, x: int, y: int) -> bool {
    0 <= x <= 65535 && 0 <= y <= 65535 ==> r.x_min <= x <= r.x_max && r.y_min <= y <= r.y_max
}

/// Law: a design that is laid over a multi-object keeps all that is remembered. The
/// multi-object then reaches over each visible part of its design, at its offset, and over
/// all that its own parts span; others reach as far as before. Over what is not remembered
/// nothing can be laid.
pub proof fn designs_reach_over_their_parts<E: Entity, S: SpatialIndex, D: StaticDataProvider>(
    before: EntityRegistry<E, S, D>,
    after: EntityRegistry<E, S, D>,
    serial: u32,
    parts: Seq<MultiPart>,
    world: u8,
    i: int,
    w: u8,
    s: u32,
)
    requires
        EntityRegistry::customized(before, after, serial, parts, world),
        0 <= i < parts.len(),
        parts[i].flags != 0,
    ensures
        before.cached(world, serial) is None ==> after == before,
        after.cached(w, s) == before.cached(w, s),
        before.cached(world, serial) matches Some(e) ==> {
            let own = before.multi_defs@[e.graphic].extent;
            &&& after.custom_defs@.contains_key(serial)
            &&& after.bbox(world, serial) matches Some(r) && holds_if_on_map(
                r,
                e.pos.x + parts[i].x,
                e.pos.y + parts[i].y,
            ) && (before.multi_defs@.contains_key(e.graphic) ==> {
                &&& e.pos.x + own.x_min >= 0 ==> r.x_min <= e.pos.x + own.x_min
                &&& e.pos.y + own.y_min >= 0 ==> r.y_min <= e.pos.y + own.y_min
                &&& e.pos.x + own.x_max <= 65535 ==> r.x_max >= e.pos.x + own.x_max
                &&& e.pos.y + own.y_max <= 65535 ==> r.y_max >= e.pos.y + own.y_max
            })
            &&& s != serial ==> (after.custom_defs@.contains_key(s)
                <==> before.custom_defs@.contains_key(s))
            &&& s != serial || w != world ==> after.bbox(w, s) == before.bbox(w, s)
        },
        after.staleness == before.staleness,
{
    extent_holds_parts(parts, i);
    if let Some(e) = before.cached(world, serial) {
        assert(after.bbox(world, serial) == Some(before.custom_rect(e, parts)));
    }
}

/// Law: a multi-object that is inserted reaches over each visible part of its graphic, at its
/// offset.
pub proof fn multi_objects_reach_over_their_parts<
    E: Entity,
    S: SpatialIndex,
    D: StaticDataProvider,
>(
    before: EntityRegistry<E, S, D>,
    after: EntityRegistry<E, S, D>,
    e: EntityState,
    world: u8,
    i: int,
)
    requires
        EntityRegistry::inserted(before, after, e, world),
        !(before.cache_mode is Disabled),
        e.multi,
        before.static_data is Some,
        0 <= i < (before.static_data->0).parts_of(e.graphic).len(),
        (before.static_data->0).parts_of(e.graphic)[i].flags != 0,
    ensures
        after.bbox(world, e.serial) matches Some(r) && holds_if_on_map(
            r,
            e.pos.x + (before.static_data->0).parts_of(e.graphic)[i].x,
            e.pos.y + (before.static_data->0).parts_of(e.graphic)[i].y,
        ),
{
    extent_holds_parts((before.static_data->0).parts_of(e.graphic), i);
    assert(after.bbox(world, e.serial) == Some(before.rect_for(e)));
}

/// Law: a sweep forgets just what is stale, in the current world, and counts it; what is
/// remembered in other worlds stays. Afterwards no confirmations are collected, and nothing
/// counts as confirmed.
pub proof fn sweeps_forget_what_is_stale<E: Entity, S: SpatialIndex, D: StaticDataProvider>(
    before: EntityRegistry<E, S, D>,
    after: EntityRegistry<E, S, D>,
    rect: TileRect,
    n: usize,
    w: u8,
    s: u32,
)
    requires
        EntityRegistry::swept(before, after, rect, n),
    ensures
        before.is_stale(rect, s) ==> after.cached(before.current_world, s) is None && n > 0,
        !before.is_stale(rect, s) ==> after.cached(w, s) == before.cached(w, s),
        w != before.current_world ==> after.cached(w, s) == before.cached(w, s),
        before.staleness.confirmed@.contains(s) ==> after.cached(w, s) == before.cached(w, s),
        !after.staleness.armed,
        !after.staleness.confirmed@.contains(s),
        after.staleness.threshold == before.staleness.threshold,
        (forall|t: u32| !#[trigger] before.is_stale(rect, t)) ==> n == 0,
{
    let gone = choose|gone: Seq<u32>| #[trigger]
        gone.no_duplicates() && n == gone.len() && forall|s: u32| #[trigger]
            gone.contains(s) <==> before.is_stale(rect, s);
    if before.is_stale(rect, s) {
        assert(gone.contains(s));
    }
    if n > 0 {
        assert(gone.contains(gone[0]));
        assert(before.is_stale(rect, gone[0]));
    }
}

/// Law: a world that is cleared remembers nothing, others what they did; confirmations end
/// with the current world, and with no other.
pub proof fn cleared_worlds_are_forgotten<E: Entity, S: SpatialIndex, D: StaticDataProvider>(
    before: EntityRegistry<E, S, D>,
    after: EntityRegistry<E, S, D>,
    world: u8,
    w: u8,
    s: u32,
)
    requires
        EntityRegistry::world_cleared(before, after, world),
    ensures
        after.cached(world, s) is None,
        w != world ==> after.cached(w, s) == before.cached(w, s),
        before.cached(world, s) is Some ==> !after.custom_defs@.contains_key(s),
        world == before.current_world ==> !after.staleness.armed,
        world != before.current_world ==> after.staleness == before.staleness,
        after.current_world == before.current_world,
{
}

/// Law: to come to another world keeps all that is remembered, and begins to collect
/// confirmations; to stay in the same changes nothing.
pub proof fn worlds_change_without_loss<E: Entity, S: SpatialIndex, D: StaticDataProvider>(
    before: EntityRegistry<E, S, D>,
    after: EntityRegistry<E, S, D>,
    world: u8,
    w: u8,
    s: u32,
)
    requires
        EntityRegistry::switched(before, after, world),
    ensures
        after.current_world == world,
        after.cached(w, s) == before.cached(w, s),
        after.bbox(w, s) == before.bbox(w, s),
        world == before.current_world ==> after == before,
        world != before.current_world ==> after.staleness.armed
            && !after.staleness.confirmed@.contains(s),
{
}

} // verus!

//! What a session keeps in view and in memory, and what of it is in the way.

use vstd::prelude::*;

use super::session_view::{SessionRequest, SessionView};
use super::visible_world::{part_forms, EntityView, VisibleView, WorldEntity};
use crate::collections::{serials_are_listed_upwards, serials_up};
use crate::coords::Pos3D;
use crate::ecumene::entity_registry::CacheMode;
use crate::ecumene::tile_rect::TileRect;
use crate::packets::{GeneralInfo, ServerPacket};
use crate::vessel::entity::Entity;
use crate::vessel::static_data::{MultiPart, StaticDataProvider};
use crate::vessel::tile_shape::TileShape;

verus! {

proof fn lemma_picked_has(list: Seq<u32>, p: spec_fn(u32) -> bool, s: u32)
    ensures
        list.filter(p).contains(s) <==> list.contains(s) && p(s),
{
    let r = list.filter(p);
    if r.contains(s) {
        list.lemma_filter_contains_rev(p, s);
        let j = choose|j: int| 0 <= j < r.len() && r[j] == s;
        list.lemma_filter_pred(p, j);
    }
    if list.contains(s) && p(s) {
        let i = choose|i: int| 0 <= i < list.len() && list[i] == s;
        list.lemma_filter_contains(p, i);
    }
}

/// Whether the place of an object is on a tile of a rectangle.
pub open spec fn stands_in(e: EntityView, r: TileRect) -> bool {
    r.x_min <= e.x() && e.x() <= r.x_max && r.y_min <= e.y() && e.y() <= r.y_max
}

/// Law: each object in view is either inside a rectangle or outside, by its place; a view
/// that is confined to the rectangle has those inside, as they were.
pub proof fn objects_are_inside_or_outside(v: VisibleView, r: TileRect, s: u32)
    ensures
        v.inside(r).contains(s) <==> v.entities.contains_key(s) && stands_in(v.entities[s], r),
        v.outside(r).contains(s) <==> v.entities.contains_key(s) && !stands_in(v.entities[s], r),
        v.confined(r).entities.contains_key(s) <==> v.inside(r).contains(s),
        v.inside(r).contains(s) ==> v.confined(r).entities[s] == v.entities[s],
        v.confined(r).containers == v.containers,
{
    let all = serials_up(v.entities.dom());
    serials_are_listed_upwards(v.entities.dom());
    assert(all.contains(s) <==> v.entities.dom().contains(s));
    lemma_picked_has(
        all,
        |s: u32| r.has(v.entities[s].x() as int, v.entities[s].y() as int),
        s,
    );
    lemma_picked_has(
        all,
        |s: u32| !r.has(v.entities[s].x() as int, v.entities[s].y() as int),
        s,
    );
}

/// Law: when the view moves, those objects leave it whose place is outside, but for
/// multi-objects that are remembered and reach into it with their rectangle.
pub proof fn objects_leave_the_view<D: StaticDataProvider>(
    session: &SessionView<D>,
    r: TileRect,
    s: u32,
)
    ensures
        ({
            let v = session.visible@;
            let w = session.registry.current_world;
            let e = v.entities[s];
            let out = v.entities.contains_key(s) && !stands_in(e, r);
            &&& session.leaving(r).contains(s) ==> out
            &&& out && !(e.kind() is Multi) ==> session.leaving(r).contains(s)
            &&& out && e.kind() is Multi ==> match session.registry.bbox(w, s) {
                Some(b) => session.leaving(r).contains(s) <==> b.x_max < r.x_min || r.x_max
                    < b.x_min || b.y_max < r.y_min || r.y_max < b.y_min,
                None => match session.registry.cached(w, s) {
                    Some(known) => session.leaving(r).contains(s) <==> known.pos.x < r.x_min
                        || r.x_max < known.pos.x || known.pos.y < r.y_min || r.y_max < known.pos.y,
                    None => session.leaving(r).contains(s),
                },
            }
        }),
{
    objects_are_inside_or_outside(session.visible@, r, s);
    lemma_picked_has(session.visible@.outside(r), |s: u32| !session.reaches_in(s, r), s);
}

/// Law: what the world reads of an object in view is what the server said: its serial, where
/// it is, how it looks, and of which kind it is. Nothing else is known of it.
pub proof fn objects_are_read_as_they_are_seen(e: EntityView)
    ensures
        e.as_state().serial == e.serial,
        e.as_state().pos.x == e.x(),
        e.as_state().pos.y == e.y(),
        e.as_state().pos.z == e.z(),
        e.as_state().graphic == e.graphic(),
        e.as_state().mobile <==> e.kind() is Mobile,
        e.as_state().multi <==> e.kind() is Multi,
        !(e.as_state().mobile && e.as_state().multi),
        e.as_state().hits is None,
        e.as_state().direction is None,
        e.as_state().equipment.len() == 0,
        e.as_state().backpack is None,
{
}

/// Law: an object that is put somewhere else is there and is otherwise the same; one that is
/// turned stays where it is.
pub proof fn objects_are_where_they_were_put(e: EntityView, pos: Pos3D, d: u8)
    ensures
        (e.placed(pos).x(), e.placed(pos).y(), e.placed(pos).z()) == (pos.x, pos.y, pos.z),
        e.placed(pos).serial == e.serial,
        e.placed(pos).graphic() == e.graphic(),
        e.placed(pos).kind() == e.kind(),
        e.placed(pos).container() == e.container(),
        e.placed(pos).worn() == e.worn(),
        (e.facing(d).x(), e.facing(d).y(), e.facing(d).z()) == (e.x(), e.y(), e.z()),
        e.facing(d).serial == e.serial,
        e.facing(d).graphic() == e.graphic(),
        e.facing(d).kind() == e.kind(),
        e.facing(d).worn() == e.worn(),
{
}

/// A coordinate moved by an offset; those off the map count as at its edge.
pub open spec fn on_the_map(c: int) -> int {
    if c < 0 {
        0
    } else if c > 65535 {
        65535
    } else {
        c
    }
}

/// Whether a part of a multi-object at a place has this shape on this tile: one that is there
/// for somebody, at its offset, raised as much as its offset says.
pub open spec fn part_is_there(
    shape: spec_fn(i8, u16) -> Option<TileShape>,
    pos: Pos3D,
    p: MultiPart,
    f: (u16, u16, TileShape),
) -> bool {
    &&& p.flags != 0
    &&& f.0 == on_the_map(pos.x + p.x)
    &&& f.1 == on_the_map(pos.y + p.y)
    &&& shape(crate::ecumene::entity_registry::part_height(pos.z, p.z), p.tile_id) == Some(f.2)
}

/// Law: a multi-object is in the way with the shapes of its visible parts, each at its
/// offset, and with no others.
pub proof fn parts_are_in_the_way(
    shape: spec_fn(i8, u16) -> Option<TileShape>,
    pos: Pos3D,
    parts: Seq<MultiPart>,
    f: (u16, u16, TileShape),
)
    ensures
        part_forms(shape, pos, parts).contains(f) <==> exists|i: int|
            0 <= i < parts.len() && part_is_there(shape, pos, #[trigger] parts[i], f),
    decreases parts.len(),
{
    if parts.len() > 0 {
        let head = parts.drop_last();
        parts_are_in_the_way(shape, pos, head, f);
        let before = part_forms(shape, pos, head);
        let all = part_forms(shape, pos, parts);
        let n = parts.len() - 1;
        if all.contains(f) {
            let k = choose|k: int| 0 <= k < all.len() && all[k] == f;
            if k < before.len() {
                assert(before[k] == f);
                let i = choose|i: int|
                    0 <= i < head.len() && part_is_there(shape, pos, #[trigger] head[i], f);
                assert(part_is_there(shape, pos, parts[i], f));
            } else {
                assert(part_is_there(shape, pos, parts[n], f));
            }
        }
        if exists|i: int| 0 <= i < parts.len() && part_is_there(shape, pos, #[trigger] parts[i], f) {
            let i = choose|i: int|
                0 <= i < parts.len() && part_is_there(shape, pos, #[trigger] parts[i], f);
            if i < n {
                assert(part_is_there(shape, pos, head[i], f));
                let k = choose|k: int| 0 <= k < before.len() && before[k] == f;
                assert(all[k] == f);
            } else {
                assert(all[before.len() as int] == f);
            }
        }
    }
}

/// Law: a mobile is in nobody's way; an item is on its tile, with the shape that its graphic
/// has at its height, if it is known.
pub proof fn items_are_in_the_way(
    e: &WorldEntity,
    shape: spec_fn(i8, u16) -> Option<TileShape>,
    parts: spec_fn(u16) -> Seq<MultiPart>,
    f: (u16, u16, TileShape),
)
    ensures
        e@.kind() is Mobile ==> e.forms(shape, parts).len() == 0,
        e@.kind() is Item ==> (e.forms(shape, parts).contains(f) <==> f.0 == e@.x() && f.1
            == e@.y() && shape(e@.z(), e@.graphic()) == Some(f.2)),
        e@.kind() is Multi ==> (e.forms(shape, parts).contains(f) <==> exists|i: int|
            0 <= i < parts(e@.graphic()).len() && part_is_there(
                shape,
                (Pos3D { x: e@.x(), y: e@.y(), z: e@.z() }),
                #[trigger] parts(e@.graphic())[i],
                f,
            )),
{
    let forms = e.forms(shape, parts);
    if e@.kind() is Item {
        if shape(e@.z(), e@.graphic()) is Some {
            assert(forms[0] == (e@.x(), e@.y(), shape(e@.z(), e@.graphic())->0));
        }
    } else if e@.kind() is Multi {
        parts_are_in_the_way(
            shape,
            Pos3D { x: e@.x(), y: e@.y(), z: e@.z() },
            parts(e@.graphic()),
            f,
        );
    }
}

/// Law: a session that comes to another world sees nothing yet, keeps the range of its view
/// and what was announced, and remembers what it remembered; from then on confirmations are
/// collected.
pub proof fn worlds_begin_unseen<D: StaticDataProvider>(
    before: SessionView<D>,
    after: SessionView<D>,
    data: Seq<u8>,
    world: u8,
    w: u8,
    s: u32,
)
    requires
        data.len() > 0,
        data[0] != 0xB9,
        data[0] != 0x24,
        SessionView::ingests(
            before,
            after,
            data,
            ServerPacket::GeneralInfo(GeneralInfo::SetMap { world }),
        ),
    ensures
        after.current_world == world,
        !after.visible@.entities.contains_key(s),
        !after.visible@.index.contains_key(s),
        !after.visible@.containers.contains_key(s),
        after.visible@.view_range == before.visible@.view_range,
        after.last_enable_features == before.last_enable_features,
        after.last_enable_map_diff == before.last_enable_map_diff,
        after.registry.cached(w, s) == before.registry.cached(w, s),
        world != before.registry.current_world ==> after.registry.current_world == world
            && after.registry.staleness.armed && !after.registry.staleness.confirmed@.contains(s),
{
}

/// Law: a range of view that is announced is taken over and moves nothing.
pub proof fn ranges_are_taken_over<D: StaticDataProvider>(
    before: SessionView<D>,
    after: SessionView<D>,
    data: Seq<u8>,
    range: u8,
)
    requires
        data.len() > 0,
        data[0] != 0xB9,
        data[0] != 0x24,
        SessionView::ingests(before, after, data, ServerPacket::ClientViewRange { range }),
    ensures
        after.visible@.view_range == range,
        after.visible@.view_rect == before.visible@.view_rect,
        after.visible@.entities == before.visible@.entities,
        after.visible@.containers == before.visible@.containers,
        after.registry == before.registry,
        after.current_world == before.current_world,
{
}

/// Law: patches are asked for when they are announced, as many of each kind as the
/// announcement says of each world, by a session that has a place to read them from; else
/// nothing is asked for.
pub proof fn patches_are_asked_for<D: StaticDataProvider>(
    before: SessionView<D>,
    after: SessionView<D>,
    data: Seq<u8>,
    packet: ServerPacket,
    r: SessionRequest,
    i: int,
)
    requires
        data.len() > 0,
        data[0] != 0xB9,
        data[0] != 0x24,
        SessionView::requests(before, after, data, packet, r),
        packet matches ServerPacket::GeneralInfo(GeneralInfo::EnableMapDiff { maps }) && 0 <= i
            < maps@.len(),
    ensures
        before.data_dir is None ==> r is Nothing,
        before.data_dir is Some ==> {
            &&& r matches SessionRequest::LoadDiffs { entries }
            &&& packet matches ServerPacket::GeneralInfo(GeneralInfo::EnableMapDiff { maps })
            &&& entries@.len() == maps@.len()
            &&& entries@[i].0 == maps@[i].map_patches
            &&& entries@[i].1 == maps@[i].static_patches
        },
{
}

/// Law: a memory that was built anew has in the current world just the objects in view that
/// are of a kind to remember, as they are seen; they are remembered in no other world, and
/// what else is remembered there stays.
pub proof fn memory_is_built_from_the_view<D: StaticDataProvider>(
    before: SessionView<D>,
    after: SessionView<D>,
    w: u8,
    s: u32,
)
    requires
        SessionView::rebuilt(before, after),
    ensures
        ({
            let v = before.visible@.entities;
            let kept = v.contains_key(s) && match before.registry.cache_mode {
                CacheMode::Disabled => false,
                CacheMode::MultisOnly => v[s].kind() is Multi,
                CacheMode::ItemsAndMultis => v[s].kind() is Multi || v[s].kind() is Item,
                CacheMode::All => true,
            };
            let now = after.registry.cached(w, s);
            &&& kept && w == before.current_world ==> now == Some(v[s].as_state())
            &&& kept && w != before.current_world ==> now is None
            &&& !kept && w == before.current_world ==> now is None
            &&& !kept && w != before.current_world ==> now == before.registry.cached(w, s)
        }),
        after.visible == before.visible,
        !after.registry.staleness.armed,
{
}

} // verus!

//! What is where on a map, in the files, the patches and the stacks made of them.

use vstd::prelude::*;

use super::diff_overlay::{land_after, objects_after, LoadedDiff, MapDiffData, StaticDiffData};
use super::diff_provider::DiffAwareDataProvider;
use super::land_z::{exit_on, land_base, land_mean, land_stand};
use super::static_provider::{object_shapes, StaticTileProvider};
use super::static_world_data::{StaticWorldData, WorldFiles};
use super::tile_provider::{sorted_stack, sorted_stack_is_sorted, TileProvider};
use crate::coords::{BlockKey, Heading};
use crate::vessel::static_data::{tiles_at, StaticDataProvider, StaticTile, TileShaper};
use crate::vessel::tile_shape::TileShape;

verus! {

/// Law: the objects at an offset of a block are those of its list that have this offset.
pub proof fn objects_are_where_they_say(s: Seq<StaticTile>, ox: int, oy: int, t: StaticTile)
    ensures
        tiles_at(s, ox, oy).contains(t) <==> s.contains(t) && t.x == ox && t.y == oy,
{
    let p = |t: StaticTile| t.x == ox && t.y == oy;
    let r = tiles_at(s, ox, oy);
    if r.contains(t) {
        s.lemma_filter_contains_rev(p, t);
        let j = choose|j: int| 0 <= j < r.len() && r[j] == t;
        s.lemma_filter_pred(p, j);
    }
    if s.contains(t) && t.x == ox && t.y == oy {
        let i = choose|i: int| 0 <= i < s.len() && s[i] == t;
        s.lemma_filter_contains(p, i);
    }
}

/// Law: tile `(x, y)` of a map is in the block of column `x / 8` and row `y / 8`, which are
/// stored column by column, at the offset `(x % 8, y % 8)`; within a block the cells are
/// stored column by column too. Farther out the map begins again.
pub proof fn cells_are_stored_by_columns(f: &WorldFiles, x: int, y: int)
    requires
        f.wf(),
        0 <= x < f.map.x_blocks * 8,
        0 <= y < f.map.y_blocks * 8,
    ensures
        f.cell(x, y) == f.map.blocks@[(x / 8) * f.map.y_blocks + y / 8].cells@[(x % 8) * 8 + y % 8],
        forall|t: StaticTile| #[trigger]
            f.objects(x, y).contains(t) <==> f.statics.blocks@[(x / 8) * f.map.y_blocks + y
                / 8]@.contains(t) && t.x == x % 8 && t.y == y % 8,
{
    let w = f.map.x_blocks * 8;
    let h = f.map.y_blocks * 8;
    vstd::arithmetic::div_mod::lemma_small_mod(x as nat, w as nat);
    vstd::arithmetic::div_mod::lemma_small_mod(y as nat, h as nat);
    let list = f.statics.blocks@[(x / 8) * f.map.y_blocks + y / 8]@;
    assert forall|t: StaticTile| #[trigger] f.objects(x, y).contains(t) <==> list.contains(t)
        && t.x == x % 8 && t.y == y % 8 by {
        objects_are_where_they_say(list, x % 8, y % 8, t);
    }
}

/// Law: a tile has the same land and the same objects whether it is asked for by itself or
/// with its block.
pub proof fn blocks_hold_their_tiles<T: TileShaper>(
    d: &StaticWorldData<T>,
    world: u8,
    x: u16,
    y: u16,
)
    requires
        d.wf(),
        d.files(world) matches Some(f) && x < f.map.x_blocks * 8 && y < f.map.y_blocks * 8,
    ensures
        d.land_in(world, BlockKey::of_tile(x, y)) matches Some(b) && d.land_at(world, x, y) == Some(
            b.cells@[(x % 8) * 8 + y % 8],
        ),
        d.objects_in(world, BlockKey::of_tile(x, y)) matches Some(s) && d.objects_at(world, x, y)
            == Some(tiles_at(s, x as int % 8, y as int % 8)),
        d.size_of_map(world) matches Some(size) && x < size.0 && y < size.1,
{
    let f = d.files(world)->0;
    assert(d.worlds@[world as int] is Some);
    assert(f.wf());
    let w = f.map.x_blocks * 8;
    let h = f.map.y_blocks * 8;
    vstd::arithmetic::div_mod::lemma_small_mod(x as nat, w as nat);
    vstd::arithmetic::div_mod::lemma_small_mod(y as nat, h as nat);
}

/// Law: land lies between its lowest corner and the greater of the heights at which one
/// stands on it and at which one leaves it, as the four corners of its tile give them.
pub proof fn land_follows_its_corners<T: TileShaper>(
    d: &StaticWorldData<T>,
    world: u8,
    x: u16,
    y: u16,
    direction: Heading,
)
    requires
        d.wf(),
        d.files(world) is Some,
    ensures
        ({
            let f = d.files(world)->0;
            let ground = |i: int, j: int| f.cell(i, j).z as int;
            let nw = ground(x as int, y as int);
            let ne = ground(x + 1, y as int);
            let se = ground(x + 1, y + 1);
            let sw = ground(x as int, y + 1);
            let stand = land_stand(nw, ne, se, sw);
            let exit = exit_on(ground, x as int, y as int, direction);
            let mean = land_mean(nw, ne, se, sw);
            &&& d.stand_at(world, x, y, direction) matches Some(h) && {
                &&& h.0 == land_base(nw, ne, se, sw)
                &&& h.1 == stand
                &&& h.2 >= stand && h.2 >= exit && (h.2 == stand || h.2 == exit)
            }
            &&& d.range_at(world, x, y) matches Some(h) && {
                &&& h.0 == land_base(nw, ne, se, sw)
                &&& h.1 == stand
                &&& h.2 >= stand && h.2 >= mean && (h.2 == stand || h.2 == mean)
            }
        }),
{
}

/// Law: where the files of a world are missing, there is no land and there are no objects;
/// its size is the one it has by default.
pub proof fn missing_worlds_are_empty<T: TileShaper>(
    d: &StaticWorldData<T>,
    world: u8,
    x: u16,
    y: u16,
    direction: Heading,
    block: BlockKey,
)
    requires
        world >= d.worlds@.len() || d.worlds@[world as int] is None,
    ensures
        d.land_at(world, x, y) is None,
        d.stand_at(world, x, y, direction) is None,
        d.range_at(world, x, y) is None,
        d.objects_at(world, x, y) is None,
        d.land_in(world, block) is None,
        d.objects_in(world, block) is None,
        world < d.default_sizes@.len() ==> d.size_of_map(world) == d.default_sizes@[world as int],
{
}

/// Law: a patch takes the place of its block, in its own world, and of no other block: the
/// block in column `bx` and row `by` has the number `bx` times the rows of the map, plus
/// `by`.
pub proof fn patches_take_the_place_of_blocks<'a, D: StaticDataProvider>(
    p: &DiffAwareDataProvider<'a, D>,
    rows: int,
    x: u16,
    y: u16,
)
    requires
        p.overlay.wf(),
        p.world < 6,
        p.base.size_of_map(p.world) matches Some(s) && s.1 == rows * 8,
    ensures
        ({
            let n = ((x / 8) * rows + y / 8) as u64;
            &&& match p.overlay.map_diffs@[p.world as int] {
                Some(m) => p.land(x, y) == if m.blocks@.contains_key(n) {
                    Some(m.blocks@[n].cells@[(x % 8) * 8 + y % 8])
                } else {
                    p.base.land_at(p.world, x, y)
                },
                None => p.land(x, y) == p.base.land_at(p.world, x, y),
            }
            &&& match p.overlay.static_diffs@[p.world as int] {
                Some(m) => p.objects(x, y) == if m.blocks@.contains_key(n) {
                    Some(tiles_at(m.blocks@[n]@, x as int % 8, y as int % 8))
                } else {
                    p.base.objects_at(p.world, x, y)
                },
                None => p.objects(x, y) == p.base.objects_at(p.world, x, y),
            }
            &&& match p.overlay.map_diffs@[p.world as int] {
                Some(m) => p.land_in(BlockKey::of_tile(x, y)) == if m.blocks@.contains_key(n) {
                    Some(m.blocks@[n])
                } else {
                    p.base.land_in(p.world, BlockKey::of_tile(x, y))
                },
                None => p.land_in(BlockKey::of_tile(x, y)) == p.base.land_in(
                    p.world,
                    BlockKey::of_tile(x, y),
                ),
            }
            &&& match p.overlay.static_diffs@[p.world as int] {
                Some(m) => p.objects_in(BlockKey::of_tile(x, y)) == if m.blocks@.contains_key(n) {
                    Some(m.blocks@[n]@)
                } else {
                    p.base.objects_in(p.world, BlockKey::of_tile(x, y))
                },
                None => p.objects_in(BlockKey::of_tile(x, y)) == p.base.objects_in(
                    p.world,
                    BlockKey::of_tile(x, y),
                ),
            }
        }),
{
}

/// Law: patched land follows the corners that the patches give it, those of neighbouring
/// blocks included.
pub proof fn patched_land_follows_its_corners<'a, D: StaticDataProvider>(
    p: &DiffAwareDataProvider<'a, D>,
    x: u16,
    y: u16,
    direction: Heading,
)
    requires
        x < 65535 && y < 65535,
        p.land(x, y) is Some,
        p.land((x + 1) as u16, y) is Some,
        p.land((x + 1) as u16, (y + 1) as u16) is Some,
        p.land(x, (y + 1) as u16) is Some,
    ensures
        ({
            let ground = |i: int, j: int| (p.land(i as u16, j as u16)->0).z as int;
            let nw = ground(x as int, y as int);
            let ne = ground(x + 1, y as int);
            let se = ground(x + 1, y + 1);
            let sw = ground(x as int, y + 1);
            let stand = land_stand(nw, ne, se, sw);
            let exit = exit_on(ground, x as int, y as int, direction);
            let mean = land_mean(nw, ne, se, sw);
            &&& p.stand(x, y, direction) matches Some(h) && {
                &&& h.0 == land_base(nw, ne, se, sw)
                &&& h.1 == stand
                &&& h.2 >= stand && h.2 >= exit && (h.2 == stand || h.2 == exit)
            }
            &&& p.range(x, y) matches Some(h) && {
                &&& h.0 == land_base(nw, ne, se, sw)
                &&& h.1 == stand
                &&& h.2 >= stand && h.2 >= mean && (h.2 == stand || h.2 == mean)
            }
        }),
{
}

/// Law: of the patches that a server announces, entry `w` is for world `w`: what was read
/// of it takes the place of what was there, and nothing is left where there are none or
/// they could not be read. Worlds without an entry keep theirs.
pub proof fn each_world_gets_its_patches(
    entries: Seq<(u32, u32)>,
    loaded: Seq<LoadedDiff>,
    w: u8,
    land: Option<MapDiffData>,
    objects: Option<StaticDiffData>,
)
    requires
        entries.len() <= 256,
        entries.len() == loaded.len(),
        w < 6,
    ensures
        w >= entries.len() ==> {
            &&& land_after(entries, loaded, entries.len() as int, w, land) == land
            &&& objects_after(entries, loaded, entries.len() as int, w, objects) == objects
        },
        w < entries.len() ==> match loaded[w as int] {
            Some(d) => {
                &&& land_after(entries, loaded, entries.len() as int, w, land) == if (
                entries[w as int].0 == 0 && entries[w as int].1 == 0) || d.0.blocks@.dom().len()
                    == 0 {
                    None
                } else {
                    Some(d.0)
                }
                &&& objects_after(entries, loaded, entries.len() as int, w, objects) == if (
                entries[w as int].0 == 0 && entries[w as int].1 == 0) || d.1.blocks@.dom().len()
                    == 0 {
                    None
                } else {
                    Some(d.1)
                }
            },
            None => {
                &&& land_after(entries, loaded, entries.len() as int, w, land) is None
                &&& objects_after(entries, loaded, entries.len() as int, w, objects) is None
            },
        },
{
    lemma_entries(entries, loaded, entries.len() as int, w, land, objects);
}

proof fn lemma_entries(
    entries: Seq<(u32, u32)>,
    loaded: Seq<LoadedDiff>,
    n: int,
    w: u8,
    land: Option<MapDiffData>,
    objects: Option<StaticDiffData>,
)
    requires
        0 <= n <= 256,
    ensures
        n <= w ==> land_after(entries, loaded, n, w, land) == land && objects_after(
            entries,
            loaded,
            n,
            w,
            objects,
        ) == objects,
        n > w ==> land_after(entries, loaded, n, w, land) == land_after(
            entries,
            loaded,
            w + 1,
            w,
            land,
        ) && objects_after(entries, loaded, n, w, objects) == objects_after(
            entries,
            loaded,
            w + 1,
            w,
            objects,
        ),
    decreases n,
{
    if n > 0 && n != w + 1 {
        lemma_entries(entries, loaded, n - 1, w, land, objects);
    }
}

/// Whether one of the objects has this shape.
pub open spec fn one_looks_like<S: TileShaper>(
    data: &S,
    tiles: Seq<StaticTile>,
    s: TileShape,
) -> bool {
    exists|i: int|
        0 <= i < tiles.len() && data.static_form((#[trigger] tiles[i]).z, tiles[i].tile_id) == Some(
            s,
        )
}

/// Whether one of the objects at this offset has this shape.
pub open spec fn one_there_looks_like<S: TileShaper>(
    data: &S,
    tiles: Seq<StaticTile>,
    ox: int,
    oy: int,
    s: TileShape,
) -> bool {
    exists|t: StaticTile|
        {
            &&& #[trigger] tiles.contains(t)
            &&& t.x == ox && t.y == oy
            &&& data.static_form(t.z, t.tile_id) == Some(s)
        }
}

proof fn lemma_object_shapes<S: TileShaper>(data: &S, tiles: Seq<StaticTile>, s: TileShape)
    ensures
        object_shapes(data, tiles).contains(s) <==> exists|i: int|
            0 <= i < tiles.len() && data.static_form(
                (#[trigger] tiles[i]).z,
                tiles[i].tile_id,
            ) == Some(s),
    decreases tiles.len(),
{
    if tiles.len() > 0 {
        let init = tiles.drop_last();
        lemma_object_shapes(data, init, s);
        let head = object_shapes(data, init);
        let all = object_shapes(data, tiles);
        if head.contains(s) {
            let i = choose|i: int|
                0 <= i < init.len() && data.static_form((#[trigger] init[i]).z, init[i].tile_id)
                    == Some(s);
            assert(tiles[i] == init[i]);
            let j = choose|j: int| 0 <= j < head.len() && head[j] == s;
            assert(all[j] == s);
        }
        if data.static_form(tiles.last().z, tiles.last().tile_id) == Some(s) {
            assert(all[head.len() as int] == s);
            assert(tiles[tiles.len() - 1] == tiles.last());
        }
        if all.contains(s) {
            let j = choose|j: int| 0 <= j < all.len() && all[j] == s;
            if j < head.len() {
                assert(head[j] == s);
            }
        }
        if exists|i: int|
            0 <= i < tiles.len() && data.static_form((#[trigger] tiles[i]).z, tiles[i].tile_id)
                == Some(s) {
            let i = choose|i: int|
                0 <= i < tiles.len() && data.static_form((#[trigger] tiles[i]).z, tiles[i].tile_id)
                    == Some(s);
            if i < init.len() {
                assert(init[i] == tiles[i]);
            }
        }
    }
}

proof fn lemma_single(l: Seq<TileShape>, s: TileShape)
    requires
        l.len() <= 1,
    ensures
        l.contains(s) <==> l.len() == 1 && l[0] == s,
{
    if l.len() == 1 && l[0] == s {
        assert(l.contains(l[0]));
    }
}

/// A stack that is put in order has the same shapes.
pub proof fn lemma_sorted_has(s: Seq<TileShape>, x: TileShape)
    ensures
        sorted_stack(s).contains(x) <==> s.contains(x),
{
    sorted_stack_is_sorted(s);
    s.to_multiset_ensures();
    sorted_stack(s).to_multiset_ensures();
    assert(sorted_stack(s).to_multiset().count(x) == s.to_multiset().count(x));
}

pub proof fn lemma_joined_has(a: Seq<TileShape>, b: Seq<TileShape>, x: TileShape)
    ensures
        (a + b).contains(x) <==> a.contains(x) || b.contains(x),
{
    let all = a + b;
    if a.contains(x) {
        let i = choose|i: int| 0 <= i < a.len() && a[i] == x;
        assert(all[i] == x);
    }
    if b.contains(x) {
        let i = choose|i: int| 0 <= i < b.len() && b[i] == x;
        assert(all[a.len() + i] == x);
    }
    if all.contains(x) {
        let i = choose|i: int| 0 <= i < all.len() && all[i] == x;
        if i < a.len() {
            assert(a[i] == x);
        } else {
            assert(b[i - a.len()] == x);
        }
    }
}

/// Law: the stack of a tile holds the land, with the heights that its corners give it in
/// this direction, and each object there whose graphic is known; and nothing else. Patches
/// come first where there are any for the world.
pub proof fn stacks_hold_land_and_objects<'a, D: StaticDataProvider>(
    p: &StaticTileProvider<'a, D>,
    x: u16,
    y: u16,
    direction: Heading,
    s: TileShape,
)
    requires
        p.static_data is Some,
        p.world < 6,
    ensures
        ({
            let d = p.static_data->0;
            let o = p.diff_overlay->0;
            let patched = p.diff_overlay is Some && (o.map_diffs@[p.world as int] is Some
                || o.static_diffs@[p.world as int] is Some);
            let under = DiffAwareDataProvider { base: d, overlay: o, world: p.world };
            let heights = if patched {
                under.stand(x, y, direction)
            } else {
                d.stand_at(p.world, x, y, direction)
            };
            let cell = if patched {
                under.land(x, y)
            } else {
                d.land_at(p.world, x, y)
            };
            let objects = if patched {
                under.objects(x, y)
            } else {
                d.objects_at(p.world, x, y)
            };
            p.stack(x, y, direction).contains(s) <==> {
                ||| heights is Some && cell is Some && s == d.land_form(
                    (heights->0).0,
                    (heights->0).1,
                    (heights->0).2,
                    (cell->0).tile_id,
                )
                ||| objects is Some && one_looks_like(d, objects->0, s)
            }
        }),
{
    let d = p.static_data->0;
    let pile = p.pile(x, y, direction);
    lemma_sorted_has(pile, s);
    let objects = if p.has_patches() {
        p.patched_data().objects(x, y)
    } else {
        d.objects_at(p.world, x, y)
    };
    let list = match objects {
        Some(l) => l,
        None => Seq::empty(),
    };
    let heights = if p.has_patches() {
        p.patched_data().stand(x, y, direction)
    } else {
        d.stand_at(p.world, x, y, direction)
    };
    let cell = if p.has_patches() {
        p.patched_data().land(x, y)
    } else {
        d.land_at(p.world, x, y)
    };
    let land = super::static_provider::land_shapes(d, heights, cell);
    lemma_object_shapes(d, list, s);
    lemma_joined_has(land, object_shapes(d, list), s);
    lemma_single(land, s);
    assert(p.stack(x, y, direction) == sorted_stack(pile));
    assert(pile == land + object_shapes(d, list));
    let o = p.diff_overlay->0;
    let patched = p.diff_overlay is Some && (o.map_diffs@[p.world as int] is Some
        || o.static_diffs@[p.world as int] is Some);
    assert(patched == p.has_patches());
    assert(p.stack(x, y, direction).contains(s) <==> land.contains(s) || object_shapes(
        d,
        list,
    ).contains(s));
    assert(land.contains(s) <==> heights is Some && cell is Some && s == d.land_form(
        (heights->0).0,
        (heights->0).1,
        (heights->0).2,
        (cell->0).tile_id,
    ));
    assert(object_shapes(d, list).contains(s) <==> objects is Some && one_looks_like(
        d,
        objects->0,
        s,
    ));
}

/// Law: whatever the approach, the stack of a tile holds its land, from the lowest corner
/// to the mean of all four, and each object there whose graphic is known; and nothing else.
pub proof fn flat_stacks_hold_land_and_objects<'a, D: StaticDataProvider>(
    p: &StaticTileProvider<'a, D>,
    x: u16,
    y: u16,
    s: TileShape,
)
    requires
        p.static_data is Some,
        p.world < 6,
    ensures
        ({
            let d = p.static_data->0;
            let o = p.diff_overlay->0;
            let block = BlockKey::of_tile(x, y);
            let patched = p.diff_overlay is Some && (o.map_diffs@[p.world as int] is Some
                || o.static_diffs@[p.world as int] is Some);
            let under = DiffAwareDataProvider { base: d, overlay: o, world: p.world };
            let heights = if patched {
                under.range(x, y)
            } else {
                d.range_at(p.world, x, y)
            };
            let land = if patched {
                under.land_in(block)
            } else {
                d.land_in(p.world, block)
            };
            let objects = if patched {
                under.objects_in(block)
            } else {
                d.objects_in(p.world, block)
            };
            p.flat_stack(x, y).contains(s) <==> {
                ||| heights is Some && land is Some && s == d.land_form(
                    (heights->0).0,
                    (heights->0).1,
                    (heights->0).2,
                    (land->0).cells@[(x % 8) * 8 + y % 8].tile_id,
                )
                ||| objects is Some && one_there_looks_like(
                    d,
                    objects->0,
                    x as int % 8,
                    y as int % 8,
                    s,
                )
            }
        }),
{
    let d = p.static_data->0;
    let block = BlockKey::of_tile(x, y);
    lemma_sorted_has(p.flat_pile(x, y), s);
    let land = super::static_provider::land_shapes(
        d,
        p.heights(x, y),
        super::static_provider::cell_of(p.block_land(block), x, y),
    );
    let list = super::static_provider::objects_of(p.block_objects(block), x, y);
    lemma_object_shapes(d, list, s);
    lemma_joined_has(land, object_shapes(d, list), s);
    lemma_single(land, s);
    assert(p.flat_stack(x, y) == sorted_stack(p.flat_pile(x, y)));
    if let Some(all) = p.block_objects(block) {
        assert forall|t: StaticTile| #[trigger] all.contains(t) implies (list.contains(t) <==> t.x
            == x % 8 && t.y == y % 8) by {
            objects_are_where_they_say(all, x as int % 8, y as int % 8, t);
        }
        if object_shapes(d, list).contains(s) {
            let i = choose|i: int|
                0 <= i < list.len() && d.static_form((#[trigger] list[i]).z, list[i].tile_id)
                    == Some(s);
            assert(list.contains(list[i]));
            objects_are_where_they_say(all, x as int % 8, y as int % 8, list[i]);
            assert(all.contains(list[i]));
        }
        if one_there_looks_like(d, all, x as int % 8, y as int % 8, s) {
            let t = choose|t: StaticTile|
                {
                    &&& #[trigger] all.contains(t)
                    &&& t.x == x % 8 && t.y == y % 8
                    &&& d.static_form(t.z, t.tile_id) == Some(s)
                };
            assert(list.contains(t));
            let i = choose|i: int| 0 <= i < list.len() && list[i] == t;
            assert(d.static_form(list[i].z, list[i].tile_id) == Some(s));
        }
    }
}

/// Law: without map data there is nothing in any stack.
pub proof fn no_map_no_stacks<'a, D: StaticDataProvider>(
    p: &StaticTileProvider<'a, D>,
    x: u16,
    y: u16,
    direction: Heading,
)
    requires
        p.static_data is None,
    ensures
        p.stack(x, y, direction).len() == 0,
        p.flat_stack(x, y).len() == 0,
{
}

} // verus!

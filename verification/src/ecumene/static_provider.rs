//! Tile stacks from map files.

use vstd::prelude::*;

use super::diff_overlay::DiffOverlay;
use super::diff_provider::DiffAwareDataProvider;
use super::tile_block::TileBlock;
use super::tile_provider::{
    sort_stack, sorted_stack, sorted_stack_is_sorted, TileProvider,
};
use crate::coords::{BlockKey, Heading};
use crate::vessel::static_data::{
    offsets_ok, tiles_at, MapBlock, MapTile, StaticDataProvider, StaticTile, TileShaper,
};
use crate::vessel::tile_shape::TileShape;

verus! {

/// The shapes of objects whose graphics are known, in order.
pub open spec fn object_shapes<S: TileShaper>(data: &S, tiles: Seq<StaticTile>) -> Seq<TileShape>
    decreases tiles.len(),
{
    if tiles.len() == 0 {
        Seq::empty()
    } else {
        let head = object_shapes(data, tiles.drop_last());
        match data.static_form(tiles.last().z, tiles.last().tile_id) {
            Some(s) => head.push(s),
            None => head,
        }
    }
}

/// The shape of the land, where both its heights and its cell are known.
pub open spec fn land_shapes<S: TileShaper>(
    data: &S,
    heights: Option<(i8, i8, i8)>,
    tile: Option<MapTile>,
) -> Seq<TileShape> {
    match (heights, tile) {
        (Some(h), Some(t)) => seq![data.land_form(h.0, h.1, h.2, t.tile_id)],
        _ => Seq::empty(),
    }
}

/// The cell of a block at `(x, y)`.
pub open spec fn cell_of(block: Option<MapBlock>, x: u16, y: u16) -> Option<MapTile> {
    match block {
        Some(b) => Some(b.at((x % 8) as int, (y % 8) as int)),
        None => None,
    }
}

/// The objects of a block at `(x, y)`.
pub open spec fn objects_of(objects: Option<Seq<StaticTile>>, x: u16, y: u16) -> Seq<StaticTile> {
    match objects {
        Some(s) => tiles_at(s, (x % 8) as int, (y % 8) as int),
        None => Seq::empty(),
    }
}

fn push_objects<S: TileShaper>(data: &S, tiles: &Vec<StaticTile>, shapes: &mut Vec<TileShape>)
    ensures
        final(shapes)@ == old(shapes)@ + object_shapes(data, tiles@),
{
    let ghost start = shapes@;
    let mut i: usize = 0;
    assert(tiles@.take(0) =~= Seq::<StaticTile>::empty());
    assert(shapes@ =~= start + object_shapes(data, tiles@.take(0)));
    while i < tiles.len()
        invariant
            i <= tiles@.len(),
            shapes@ == start + object_shapes(data, tiles@.take(i as int)),
        decreases tiles@.len() - i,
    {
        proof {
            assert(tiles@.take(i + 1).drop_last() =~= tiles@.take(i as int));
        }
        if let Some(s) = data.static_shape(tiles[i].z, tiles[i].tile_id) {
            shapes.push(s);
        }
        assert(shapes@ =~= start + object_shapes(data, tiles@.take(i + 1)));
        i += 1;
    }
    assert(tiles@.take(i as int) =~= tiles@);
}

/// Land and static objects of a world as tile stacks, patches included.
pub struct StaticTileProvider<'a, D: StaticDataProvider> {
    pub static_data: Option<&'a D>,
    pub world: u8,
    pub diff_overlay: Option<&'a DiffOverlay>,
}

impl<'a, D: StaticDataProvider> StaticTileProvider<'a, D> {
    pub open spec fn wf(&self) -> bool {
        &&& self.static_data matches Some(d) ==> d.wf()
        &&& self.diff_overlay matches Some(o) ==> o.wf()
    }

    /// Whether the overlay has patches for this world.
    pub open spec fn has_patches(&self) -> bool {
        &&& self.static_data is Some
        &&& self.diff_overlay is Some
        &&& (self.diff_overlay->0).land(self.world) is Some || (self.diff_overlay->0).objects(
            self.world,
        ) is Some
    }

    /// The map data under the patches.
    pub open spec fn patched_data(&self) -> DiffAwareDataProvider<'a, D> {
        DiffAwareDataProvider {
            base: self.static_data->0,
            overlay: self.diff_overlay->0,
            world: self.world,
        }
    }

    /// Shapes at `(x, y)` before they are ordered: the land, then the objects.
    pub open spec fn pile(&self, x: u16, y: u16, direction: Heading) -> Seq<TileShape> {
        if self.static_data is None {
            Seq::empty()
        } else {
            let d = self.static_data->0;
            if self.has_patches() {
                let p = self.patched_data();
                land_shapes(d, p.stand(x, y, direction), p.land(x, y)) + object_shapes(
                    d,
                    match p.objects(x, y) {
                        Some(s) => s,
                        None => Seq::empty(),
                    },
                )
            } else {
                land_shapes(
                    d,
                    d.stand_at(self.world, x, y, direction),
                    d.land_at(self.world, x, y),
                ) + object_shapes(
                    d,
                    match d.objects_at(self.world, x, y) {
                        Some(s) => s,
                        None => Seq::empty(),
                    },
                )
            }
        }
    }

    /// The land cells of a block.
    pub open spec fn block_land(&self, block: BlockKey) -> Option<MapBlock> {
        if self.has_patches() {
            self.patched_data().land_in(block)
        } else {
            (self.static_data->0).land_in(self.world, block)
        }
    }

    /// The objects of a block.
    pub open spec fn block_objects(&self, block: BlockKey) -> Option<Seq<StaticTile>> {
        if self.has_patches() {
            self.patched_data().objects_in(block)
        } else {
            (self.static_data->0).objects_in(self.world, block)
        }
    }

    /// Heights of the land at `(x, y)`, whatever the approach.
    pub open spec fn heights(&self, x: u16, y: u16) -> Option<(i8, i8, i8)> {
        if self.has_patches() {
            self.patched_data().range(x, y)
        } else {
            (self.static_data->0).range_at(self.world, x, y)
        }
    }

    /// Shapes at `(x, y)` before they are ordered, from the data of its block.
    pub open spec fn flat_pile(&self, x: u16, y: u16) -> Seq<TileShape> {
        if self.static_data is None {
            Seq::empty()
        } else {
            let d = self.static_data->0;
            let block = BlockKey::of_tile(x, y);
            land_shapes(d, self.heights(x, y), cell_of(self.block_land(block), x, y))
                + object_shapes(d, objects_of(self.block_objects(block), x, y))
        }
    }

    pub fn new(static_data: Option<&'a D>, world: u8) -> (p: Self)
        ensures
            p == (StaticTileProvider { static_data, world, diff_overlay: None }),
    {
        StaticTileProvider { static_data, world, diff_overlay: None }
    }

    /// A provider that takes patches into account.
    pub fn with_diff(
        static_data: Option<&'a D>,
        world: u8,
        diff_overlay: Option<&'a DiffOverlay>,
    ) -> (p: Self)
        ensures
            p == (StaticTileProvider { static_data, world, diff_overlay }),
    {
        StaticTileProvider { static_data, world, diff_overlay }
    }

    /// The data under the patches, where there are patches for this world.
    fn diff_provider(&self) -> (r: Option<DiffAwareDataProvider<'a, D>>)
        requires
            self.wf(),
        ensures
            r is Some <==> self.has_patches(),
            r matches Some(p) ==> p == self.patched_data(),
    {
        match (self.static_data, self.diff_overlay) {
            (Some(sd), Some(overlay)) => {
                if overlay.map_diff(self.world).is_none() && overlay.static_diff(
                    self.world,
                ).is_none() {
                    None
                } else {
                    Some(DiffAwareDataProvider::new(sd, overlay, self.world))
                }
            },
            _ => None,
        }
    }

    /// Puts the land of a block into its stacks.
    fn block_land_stacks(
        &self,
        sd: &D,
        patches: &Option<DiffAwareDataProvider<'a, D>>,
        block: BlockKey,
        tb: &mut TileBlock,
    )
        requires
            self.wf(),
            self.static_data == Some(sd),
            patches is Some <==> self.has_patches(),
            patches matches Some(p) ==> p == self.patched_data(),
            block.on_map(),
            self.block_land(block) is Some ==> block.bx < 0x1FFF && block.by < 0x1FFF,
            old(tb).wf(),
            forall|i: int| 0 <= i < 64 ==> (#[trigger] old(tb)@[i]) == Seq::<TileShape>::empty(),
        ensures
            final(tb).wf(),
            final(tb).block_key == old(tb).block_key,
            forall|i: int|
                0 <= i < 64 ==> #[trigger] final(tb)@[i] == land_shapes(
                    sd,
                    self.heights((block.bx * 8 + i % 8) as u16, (block.by * 8 + i / 8) as u16),
                    cell_of(
                        self.block_land(block),
                        (block.bx * 8 + i % 8) as u16,
                        (block.by * 8 + i / 8) as u16,
                    ),
                ),
    {
        let (x0, y0) = block.origin();
        let cells: Option<&MapBlock> = match patches {
            Some(p) => p.land_block_at(block),
            None => sd.land_block_at(self.world, block),
        };
        let cells = match cells {
            Some(c) => c,
            None => {
                return;
            },
        };
        let ghost start = tb@;
        let mut n: u8 = 0;
        while n < 64
            invariant
                self.wf(),
                self.static_data == Some(sd),
                patches is Some <==> self.has_patches(),
                patches matches Some(p) ==> p == self.patched_data(),
                block.bx < 0x1FFF,
                block.by < 0x1FFF,
                x0 == block.bx * 8,
                y0 == block.by * 8,
                cells.wf(),
                self.block_land(block) == Some(*cells),
                n <= 64,
                tb.wf(),
                tb.block_key == old(tb).block_key,
                forall|i: int| n <= i < 64 ==> (#[trigger] tb@[i]) == Seq::<TileShape>::empty(),
                forall|i: int|
                    0 <= i < n ==> #[trigger] tb@[i] == land_shapes(
                        sd,
                        self.heights((block.bx * 8 + i % 8) as u16, (block.by * 8 + i / 8) as u16),
                        cell_of(
                            self.block_land(block),
                            (block.bx * 8 + i % 8) as u16,
                            (block.by * 8 + i / 8) as u16,
                        ),
                    ),
            decreases 64 - n,
        {
            let ox: u8 = n % 8;
            let oy: u8 = n / 8;
            let x: u16 = x0 + ox as u16;
            let y: u16 = y0 + oy as u16;
            let tile = cells.cell(ox, oy);
            let heights: Option<(i8, i8, i8)> = match patches {
                Some(p) => p.land_z_range(x, y),
                None => sd.land_tile_z_range(self.world, x, y),
            };
            assert(oy * 8 + ox == n);
            assert(x % 8 == ox && y % 8 == oy);
            let ghost before = tb@;
            if let Some((z_base, z_stand, z_top)) = heights {
                let shape = sd.land_shape(z_base, z_stand, z_top, tile.tile_id);
                tb.tile_stack_mut(ox, oy).push(shape);
                assert(tb@[n as int] =~= seq![shape]);
            }
            assert(tb@[n as int] == land_shapes(
                sd,
                self.heights(x, y),
                cell_of(self.block_land(block), x, y),
            ));
            n += 1;
        }
    }

    /// Puts the objects of a block onto its stacks.
    fn block_object_stacks(
        &self,
        sd: &D,
        patches: &Option<DiffAwareDataProvider<'a, D>>,
        block: BlockKey,
        tb: &mut TileBlock,
    )
        requires
            self.wf(),
            self.static_data == Some(sd),
            patches is Some <==> self.has_patches(),
            patches matches Some(p) ==> p == self.patched_data(),
            old(tb).wf(),
        ensures
            final(tb).wf(),
            final(tb).block_key == old(tb).block_key,
            forall|i: int|
                0 <= i < 64 ==> #[trigger] final(tb)@[i] == old(tb)@[i] + object_shapes(
                    sd,
                    match self.block_objects(block) {
                        Some(s) => tiles_at(s, i % 8, i / 8),
                        None => Seq::empty(),
                    },
                ),
    {
        let objects: Option<&[StaticTile]> = match patches {
            Some(p) => p.statics_block_at(block),
            None => sd.statics_block_at(self.world, block),
        };
        let tiles = match objects {
            Some(t) => t,
            None => {
                assert forall|i: int| 0 <= i < 64 implies #[trigger] tb@[i] == tb@[i]
                    + object_shapes(sd, Seq::<StaticTile>::empty()) by {
                    assert(tb@[i] + object_shapes(sd, Seq::<StaticTile>::empty()) =~= tb@[i]);
                }
                return;
            },
        };
        let ghost start = tb@;
        let mut k: usize = 0;
        proof {
            reveal(Seq::filter);
            assert(tiles@.take(0) =~= Seq::<StaticTile>::empty());
            assert forall|i: int| 0 <= i < 64 implies #[trigger] tb@[i] == start[i]
                + object_shapes(sd, tiles_at(tiles@.take(0), i % 8, i / 8)) by {
                assert(tiles_at(tiles@.take(0), i % 8, i / 8) =~= Seq::<StaticTile>::empty());
                assert(start[i] + object_shapes(sd, Seq::<StaticTile>::empty()) =~= start[i]);
            }
        }
        while k < tiles.len()
            invariant
                k <= tiles@.len(),
                offsets_ok(tiles@),
                tb.wf(),
                tb.block_key == old(tb).block_key,
                start.len() == 64,
                forall|i: int|
                    0 <= i < 64 ==> #[trigger] tb@[i] == start[i] + object_shapes(
                        sd,
                        tiles_at(tiles@.take(k as int), i % 8, i / 8),
                    ),
            decreases tiles@.len() - k,
        {
            let t = tiles[k];
            assert(tiles@[k as int].x < 8 && tiles@[k as int].y < 8);
            let ghost before = tb@;
            let ghost pre = tiles@.take(k as int);
            let ghost post = tiles@.take(k + 1);
            let shape = sd.static_shape(t.z, t.tile_id);
            if let Some(s) = shape {
                tb.tile_stack_mut(t.x, t.y).push(s);
            }
            proof {
                reveal(Seq::filter);
                assert(post.drop_last() =~= pre);
                assert forall|i: int| 0 <= i < 64 implies #[trigger] tb@[i] == start[i]
                    + object_shapes(sd, tiles_at(post, i % 8, i / 8)) by {
                    assert(before[i] == start[i] + object_shapes(
                        sd,
                        tiles_at(pre, i % 8, i / 8),
                    ));
                    if t.x == i % 8 && t.y == i / 8 {
                        assert(t.y * 8 + t.x == i);
                        let old_tiles = tiles_at(pre, i % 8, i / 8);
                        assert(tiles_at(post, i % 8, i / 8) == old_tiles.push(t));
                        assert(old_tiles.push(t).drop_last() =~= old_tiles);
                        assert(tb@[i] =~= start[i] + object_shapes(
                            sd,
                            tiles_at(post, i % 8, i / 8),
                        ));
                    } else {
                        assert(t.y * 8 + t.x != i);
                        assert(tiles_at(post, i % 8, i / 8) == tiles_at(pre, i % 8, i / 8));
                    }
                }
            }
            k += 1;
        }
        assert(tiles@.take(k as int) =~= tiles@);
    }
}

/// Sorts all stacks of a block.
pub fn sort_block(tb: &mut TileBlock)
    requires
        old(tb).wf(),
    ensures
        final(tb).wf(),
        final(tb).block_key == old(tb).block_key,
        forall|i: int| 0 <= i < 64 ==> #[trigger] final(tb)@[i] == sorted_stack(old(tb)@[i]),
{
    let ghost start = tb@;
    let mut n: u8 = 0;
    while n < 64
        invariant
            n <= 64,
            tb.wf(),
            tb.block_key == old(tb).block_key,
            start == old(tb)@,
            forall|i: int| 0 <= i < n ==> #[trigger] tb@[i] == sorted_stack(start[i]),
            forall|i: int| n <= i < 64 ==> #[trigger] tb@[i] == start[i],
        decreases 64 - n,
    {
        let ox: u8 = n % 8;
        let oy: u8 = n / 8;
        assert(oy * 8 + ox == n);
        sort_stack(tb.tile_stack_mut(ox, oy));
        n += 1;
    }
}

impl<'a, D: StaticDataProvider> TileProvider for StaticTileProvider<'a, D> {
    open spec fn stack(&self, x: u16, y: u16, direction: Heading) -> Seq<TileShape> {
        sorted_stack(self.pile(x, y, direction))
    }

    open spec fn flat_stack(&self, x: u16, y: u16) -> Seq<TileShape> {
        sorted_stack(self.flat_pile(x, y))
    }

    /// There are no multi-objects in the map files.
    open spec fn multi_on(&self, x: u16, y: u16) -> bool {
        false
    }

    fn is_multi_on(&self, _x: u16, _y: u16) -> (b: bool) {
        false
    }

    open spec fn covers(&self, x: u16, y: u16) -> bool {
        &&& self.wf()
        &&& self.static_data is Some ==> x < u16::MAX && y < u16::MAX
    }

    open spec fn covers_block(&self, block: BlockKey) -> bool {
        &&& self.wf()
        &&& self.static_data is Some && self.block_land(block) is Some ==> block.bx < 0x1FFF
            && block.by < 0x1FFF
    }

    fn query_tile_stack(&self, x: u16, y: u16, direction: Heading) -> (s: Vec<TileShape>) {
        let mut shapes: Vec<TileShape> = Vec::new();
        proof {
            sorted_stack_is_sorted(self.pile(x, y, direction));
        }
        let sd = match self.static_data {
            Some(sd) => sd,
            None => {
                assert(shapes@ =~= sorted_stack(self.pile(x, y, direction)));
                return shapes;
            },
        };
        let patches = self.diff_provider();
        let (heights, tile, objects) = match &patches {
            Some(p) => (p.land_z_stand(x, y, direction), p.land_tile_at(x, y), p.statics_at(x, y)),
            None => (
                sd.land_tile_z_stand(self.world, x, y, direction),
                sd.land_tile_at(self.world, x, y),
                sd.statics_at(self.world, x, y),
            ),
        };
        if let Some((z_base, z_stand, z_top)) = heights {
            if let Some(t) = tile {
                shapes.push(sd.land_shape(z_base, z_stand, z_top, t.tile_id));
            }
        }
        assert(shapes@ =~= land_shapes(sd, heights, tile));
        let ghost land = shapes@;
        if let Some(tiles) = &objects {
            push_objects(sd, tiles, &mut shapes);
        } else {
            assert(land + object_shapes(sd, Seq::<StaticTile>::empty()) =~= land);
        }
        assert(shapes@ =~= self.pile(x, y, direction));
        sort_stack(&mut shapes);
        shapes
    }

    fn query_block(&self, block: BlockKey) -> (b: TileBlock) {
        let mut tb = TileBlock::empty(block);
        let sd = match self.static_data {
            Some(sd) => sd,
            None => {
                assert forall|i: int| 0 <= i < 64 implies (#[trigger] tb@[i]) == self.flat_stack(
                    (block.bx * 8 + i % 8) as u16,
                    (block.by * 8 + i / 8) as u16,
                ) by {
                    sorted_stack_is_sorted(Seq::<TileShape>::empty());
                    assert(sorted_stack(Seq::<TileShape>::empty()) =~= Seq::<TileShape>::empty());
                }
                return tb;
            },
        };
        let patches = self.diff_provider();
        self.block_land_stacks(sd, &patches, block, &mut tb);
        let ghost land = tb@;
        self.block_object_stacks(sd, &patches, block, &mut tb);
        let ghost piled = tb@;
        sort_block(&mut tb);
        proof {
            assert forall|i: int| 0 <= i < 64 implies (#[trigger] tb@[i]) == self.flat_stack(
                (block.bx * 8 + i % 8) as u16,
                (block.by * 8 + i / 8) as u16,
            ) by {
                let x = (block.bx * 8 + i % 8) as u16;
                let y = (block.by * 8 + i / 8) as u16;
                assert(x % 8 == i % 8 && y % 8 == i / 8);
                assert(BlockKey::of_tile(x, y) == block);
                assert(piled[i] == land[i] + object_shapes(
                    sd,
                    match self.block_objects(block) {
                        Some(s) => tiles_at(s, i % 8, i / 8),
                        None => Seq::empty(),
                    },
                ));
                assert(piled[i] == self.flat_pile(x, y));
            }
        }
        tb
    }
}

} // verus!

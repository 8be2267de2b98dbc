//! Map data with a server's patches laid over it.

use vstd::prelude::*;

use super::diff_overlay::DiffOverlay;
use super::land_z::{
    compute_land_z_range, compute_land_z_stand, land_base, land_exit, land_mean, land_stand, max_int,
};
use crate::coords::{BlockKey, Heading};
use crate::vessel::static_data::{
    offsets_ok, tiles_at, MapBlock, MapTile, StaticDataProvider, StaticTile,
};

verus! {

/// Number of block rows of a map, by its height; 512 where the height is unknown.
pub open spec fn block_rows<D: StaticDataProvider>(base: &D, world: u8) -> int {
    match base.size_of_map(world) {
        Some((_, h)) => (h / 8) as int,
        None => 512,
    }
}

/// Index of a block, column by column.
pub open spec fn block_index<D: StaticDataProvider>(base: &D, world: u8, block: BlockKey) -> u64 {
    (block.bx * block_rows(base, world) + block.by) as u64
}

/// Base, standing and top height from the four corners, if all are known.
pub open spec fn corners_stand(
    left: Option<i8>,
    bottom: Option<i8>,
    right: Option<i8>,
    top: Option<i8>,
    direction: Heading,
) -> Option<(i8, i8, i8)> {
    if left is Some && bottom is Some && right is Some && top is Some {
        let l = (left->0) as int;
        let b = (bottom->0) as int;
        let r = (right->0) as int;
        let t = (top->0) as int;
        Some(
            (
                land_base(l, b, r, t) as i8,
                land_stand(l, b, r, t) as i8,
                max_int(land_exit(l, b, r, t, direction), land_stand(l, b, r, t)) as i8,
            ),
        )
    } else {
        None
    }
}

/// Base, standing and top height from the four corners whatever the approach,
/// if all are known.
pub open spec fn corners_range(
    left: Option<i8>,
    bottom: Option<i8>,
    right: Option<i8>,
    top: Option<i8>,
) -> Option<(i8, i8, i8)> {
    if left is Some && bottom is Some && right is Some && top is Some {
        let l = (left->0) as int;
        let b = (bottom->0) as int;
        let r = (right->0) as int;
        let t = (top->0) as int;
        Some(
            (
                land_base(l, b, r, t) as i8,
                land_stand(l, b, r, t) as i8,
                max_int(land_mean(l, b, r, t), land_stand(l, b, r, t)) as i8,
            ),
        )
    } else {
        None
    }
}

/// A world's map data, its patched blocks taken from an overlay.
pub struct DiffAwareDataProvider<'a, D: StaticDataProvider> {
    pub base: &'a D,
    pub overlay: &'a DiffOverlay,
    pub world: u8,
}

impl<'a, D: StaticDataProvider> DiffAwareDataProvider<'a, D> {
    pub open spec fn wf(&self) -> bool {
        self.base.wf() && self.overlay.wf()
    }

    /// Whether the land of a block is patched.
    pub open spec fn patched(&self, block: BlockKey) -> bool {
        &&& self.overlay.land(self.world) is Some
        &&& (self.overlay.land(self.world)->0).blocks@.contains_key(
            block_index(self.base, self.world, block),
        )
    }

    /// Whether the objects of a block are patched.
    pub open spec fn objects_patched(&self, block: BlockKey) -> bool {
        &&& self.overlay.objects(self.world) is Some
        &&& (self.overlay.objects(self.world)->0).blocks@.contains_key(
            block_index(self.base, self.world, block),
        )
    }

    /// The land cell at `(x, y)`, patches first.
    pub open spec fn land(&self, x: u16, y: u16) -> Option<MapTile> {
        let block = BlockKey::of_tile(x, y);
        if self.patched(block) {
            Some(
                (self.overlay.land(self.world)->0).blocks@[block_index(
                    self.base,
                    self.world,
                    block,
                )].at((x % 8) as int, (y % 8) as int),
            )
        } else {
            self.base.land_at(self.world, x, y)
        }
    }

    pub open spec fn corner(&self, x: int, y: int) -> Option<i8> {
        match self.land(x as u16, y as u16) {
            Some(t) => Some(t.z),
            None => None,
        }
    }

    pub open spec fn stand(&self, x: u16, y: u16, direction: Heading) -> Option<(i8, i8, i8)> {
        corners_stand(
            self.corner(x as int, y as int),
            self.corner(x + 1, y as int),
            self.corner(x + 1, y + 1),
            self.corner(x as int, y + 1),
            direction,
        )
    }

    pub open spec fn range(&self, x: u16, y: u16) -> Option<(i8, i8, i8)> {
        corners_range(
            self.corner(x as int, y as int),
            self.corner(x + 1, y as int),
            self.corner(x + 1, y + 1),
            self.corner(x as int, y + 1),
        )
    }

    /// The land cells of a block, patches first.
    pub open spec fn land_in(&self, block: BlockKey) -> Option<MapBlock> {
        if self.patched(block) {
            Some(
                (self.overlay.land(self.world)->0).blocks@[block_index(
                    self.base,
                    self.world,
                    block,
                )],
            )
        } else {
            self.base.land_in(self.world, block)
        }
    }

    /// The objects at `(x, y)`, patches first.
    pub open spec fn objects(&self, x: u16, y: u16) -> Option<Seq<StaticTile>> {
        let block = BlockKey::of_tile(x, y);
        if self.objects_patched(block) {
            Some(
                tiles_at(
                    (self.overlay.objects(self.world)->0).blocks@[block_index(
                        self.base,
                        self.world,
                        block,
                    )]@,
                    (x % 8) as int,
                    (y % 8) as int,
                ),
            )
        } else {
            self.base.objects_at(self.world, x, y)
        }
    }

    /// The objects of a block, patches first.
    pub open spec fn objects_in(&self, block: BlockKey) -> Option<Seq<StaticTile>> {
        if self.objects_patched(block) {
            Some(
                (self.overlay.objects(self.world)->0).blocks@[block_index(
                    self.base,
                    self.world,
                    block,
                )]@,
            )
        } else {
            self.base.objects_in(self.world, block)
        }
    }

    pub fn new(base: &'a D, overlay: &'a DiffOverlay, world: u8) -> (p: Self)
        ensures
            p.base == base,
            p.overlay == overlay,
            p.world == world,
    {
        DiffAwareDataProvider { base, overlay, world }
    }

    /// Whether the overlay has patches for this world.
    pub fn has_diffs(&self) -> (b: bool)
        requires
            self.wf(),
        ensures
            b == (self.overlay.land(self.world) is Some || self.overlay.objects(
                self.world,
            ) is Some),
    {
        self.overlay.map_diff(self.world).is_some() || self.overlay.static_diff(
            self.world,
        ).is_some()
    }

    fn index_of(&self, bx: u16, by: u16) -> (i: u64)
        requires
            self.wf(),
        ensures
            i == block_index(self.base, self.world, BlockKey { bx, by }),
    {
        let rows: u64 = self.y_blocks();
        proof {
            assert(bx * rows <= 0xFFFF * 0x2000) by (nonlinear_arith)
                requires
                    bx <= 0xFFFF,
                    rows <= 0x2000,
            ;
        }
        bx as u64 * rows + by as u64
    }

    fn y_blocks(&self) -> (rows: u64)
        requires
            self.wf(),
        ensures
            rows == block_rows(self.base, self.world),
            rows <= 0x2000,
    {
        match self.base.map_tile_dimensions(self.world) {
            Some((_, h)) => (h / 8) as u64,
            None => 512,
        }
    }

    /// The land cell at `(x, y)`, patches first.
    pub fn land_tile_at(&self, x: u16, y: u16) -> (r: Option<MapTile>)
        requires
            self.wf(),
        ensures
            r == self.land(x, y),
    {
        if let Some(diff) = self.overlay.map_diff(self.world) {
            let index: u64 = self.index_of(x / 8, y / 8);
            if let Some(block) = diff.get(index) {
                return Some(block.cell((x % 8) as u8, (y % 8) as u8));
            }
        }
        self.base.land_tile_at(self.world, x, y)
    }

    fn vertex_z(&self, x: u16, y: u16) -> (r: Option<i8>)
        requires
            self.wf(),
        ensures
            r == self.corner(x as int, y as int),
    {
        match self.land_tile_at(x, y) {
            Some(t) => Some(t.z),
            None => None,
        }
    }

    /// Base, standing and top height of the land at `(x, y)`, approached along
    /// `direction`.
    pub fn land_z_stand(&self, x: u16, y: u16, direction: Heading) -> (r: Option<(i8, i8, i8)>)
        requires
            self.wf(),
            x < u16::MAX,
            y < u16::MAX,
        ensures
            r == self.stand(x, y, direction),
    {
        let left = self.vertex_z(x, y);
        let bottom = self.vertex_z(x + 1, y);
        let right = self.vertex_z(x + 1, y + 1);
        let top = self.vertex_z(x, y + 1);
        match (left, bottom, right, top) {
            (Some(l), Some(b), Some(r), Some(t)) => {
                Some(compute_land_z_stand(l, b, r, t, direction))
            },
            _ => None,
        }
    }

    /// Base, standing and top height of the land at `(x, y)`, whatever the approach.
    pub fn land_z_range(&self, x: u16, y: u16) -> (r: Option<(i8, i8, i8)>)
        requires
            self.wf(),
            x < u16::MAX,
            y < u16::MAX,
        ensures
            r == self.range(x, y),
    {
        let left = self.vertex_z(x, y);
        let bottom = self.vertex_z(x + 1, y);
        let right = self.vertex_z(x + 1, y + 1);
        let top = self.vertex_z(x, y + 1);
        match (left, bottom, right, top) {
            (Some(l), Some(b), Some(r), Some(t)) => Some(compute_land_z_range(l, b, r, t)),
            _ => None,
        }
    }

    /// The land cells of a block, patches first.
    pub fn land_block_at(&self, block: BlockKey) -> (r: Option<&MapBlock>)
        requires
            self.wf(),
        ensures
            r is Some <==> self.land_in(block) is Some,
            r matches Some(b) ==> *b == self.land_in(block)->0 && b.wf(),
    {
        if let Some(diff) = self.overlay.map_diff(self.world) {
            let index: u64 = self.index_of(block.bx, block.by);
            if let Some(b) = diff.get(index) {
                return Some(b);
            }
        }
        self.base.land_block_at(self.world, block)
    }

    /// The objects at `(x, y)`, patches first.
    pub fn statics_at(&self, x: u16, y: u16) -> (r: Option<Vec<StaticTile>>)
        requires
            self.wf(),
        ensures
            r is Some <==> self.objects(x, y) is Some,
            r matches Some(v) ==> v@ == self.objects(x, y)->0,
    {
        if let Some(diff) = self.overlay.static_diff(self.world) {
            let index: u64 = self.index_of(x / 8, y / 8);
            if let Some(v) = diff.get_tile(index, (x % 8) as u8, (y % 8) as u8) {
                return Some(v);
            }
        }
        self.base.statics_at(self.world, x, y)
    }

    /// The objects of a block, patches first.
    pub fn statics_block_at(&self, block: BlockKey) -> (r: Option<&[StaticTile]>)
        requires
            self.wf(),
        ensures
            r is Some <==> self.objects_in(block) is Some,
            r matches Some(s) ==> s@ == self.objects_in(block)->0 && offsets_ok(s@),
    {
        if let Some(diff) = self.overlay.static_diff(self.world) {
            let index: u64 = self.index_of(block.bx, block.by);
            if let Some(s) = diff.get(index) {
                return Some(s);
            }
        }
        self.base.statics_block_at(self.world, block)
    }
}

/// Law: without patches for its world the provider answers as its base does.
pub proof fn no_patches_no_change<D: StaticDataProvider>(
    p: &DiffAwareDataProvider<'_, D>,
    x: u16,
    y: u16,
    block: BlockKey,
)
    requires
        p.overlay.land(p.world) is None,
        p.overlay.objects(p.world) is None,
    ensures
        p.land(x, y) == p.base.land_at(p.world, x, y),
        p.objects(x, y) == p.base.objects_at(p.world, x, y),
        p.land_in(block) == p.base.land_in(p.world, block),
        p.objects_in(block) == p.base.objects_in(p.world, block),
{
}

} // verus!

//! The map files of all worlds, in memory.

use std::collections::HashMap;

use vstd::prelude::*;

use super::diff_overlay::MAX_WORLDS;
use super::diff_provider::{corners_range, corners_stand};
use super::land_z::{compute_land_z_range, compute_land_z_stand};
use crate::coords::{BlockKey, Heading};
use crate::vessel::static_data::{
    offsets_ok, pick_tiles, tiles_at, MapBlock, MapTile, MultiPart, StaticDataProvider, StaticTile,
    TileShaper,
};
use crate::vessel::tile_shape::TileShape;

verus! {

broadcast use vstd::std_specs::hash::group_hash_axioms;

/// Land of a world: its blocks column by column.
#[derive(Debug)]
pub struct MapData {
    pub x_blocks: usize,
    pub y_blocks: usize,
    pub blocks: Vec<MapBlock>,
}

/// Static objects of a world: those of its blocks, column by column.
#[derive(Debug)]
pub struct StaticData {
    pub blocks: Vec<Vec<StaticTile>>,
}

/// Land and static objects of a world.
#[derive(Debug)]
pub struct WorldFiles {
    pub map: MapData,
    pub statics: StaticData,
}

impl WorldFiles {
    /// The blocks fill a map that is neither empty nor wider than coordinates reach.
    pub open spec fn wf(&self) -> bool {
        &&& 1 <= self.map.x_blocks <= 0x1FFF
        &&& 1 <= self.map.y_blocks <= 0x1FFF
        &&& self.map.blocks@.len() == self.map.x_blocks * self.map.y_blocks
        &&& self.statics.blocks@.len() == self.map.x_blocks * self.map.y_blocks
        &&& forall|i: int| 0 <= i < self.map.blocks@.len() ==> (#[trigger] self.map.blocks@[i]).wf()
        &&& forall|i: int|
            0 <= i < self.statics.blocks@.len() ==> offsets_ok((#[trigger] self.statics.blocks@[i])@)
    }

    /// Index of the block that holds the wrapped tile `(x, y)`.
    pub open spec fn index(&self, x: int, y: int) -> int {
        ((x % (self.map.x_blocks * 8)) / 8) * self.map.y_blocks + (y % (self.map.y_blocks * 8)) / 8
    }

    /// The cell at `(x, y)`; the map wraps around at its edges.
    pub open spec fn cell(&self, x: int, y: int) -> MapTile {
        self.map.blocks@[self.index(x, y)].at(
            (x % (self.map.x_blocks * 8)) % 8,
            (y % (self.map.y_blocks * 8)) % 8,
        )
    }

    /// The objects at `(x, y)`; the map wraps around at its edges.
    pub open spec fn objects(&self, x: int, y: int) -> Seq<StaticTile> {
        tiles_at(
            self.statics.blocks@[self.index(x, y)]@,
            (x % (self.map.x_blocks * 8)) % 8,
            (y % (self.map.y_blocks * 8)) % 8,
        )
    }

    proof fn lemma_index(&self, x: int, y: int)
        requires
            self.wf(),
            0 <= x,
            0 <= y,
        ensures
            0 <= self.index(x, y) < self.map.x_blocks * self.map.y_blocks,
            0 <= (x % (self.map.x_blocks * 8)) / 8 < self.map.x_blocks,
            0 <= (y % (self.map.y_blocks * 8)) / 8 < self.map.y_blocks,
    {
        let a = (x % (self.map.x_blocks * 8)) / 8;
        let b = (y % (self.map.y_blocks * 8)) / 8;
        let w = self.map.x_blocks as int;
        let h = self.map.y_blocks as int;
        assert(a * h + b < w * h) by (nonlinear_arith)
            requires
                0 <= a < w,
                0 <= b < h,
        ;
        assert(0 <= a * h) by (nonlinear_arith)
            requires
                0 <= a,
                0 <= h,
        ;
    }

    /// Block index and offsets of the wrapped tile `(x, y)`.
    fn wrap(&self, x: u16, y: u16) -> (r: (usize, u8, u8))
        requires
            self.wf(),
        ensures
            r.0 == self.index(x as int, y as int),
            r.0 < self.map.x_blocks * self.map.y_blocks,
            r.1 == (x as int % (self.map.x_blocks * 8)) % 8,
            r.2 == (y as int % (self.map.y_blocks * 8)) % 8,
            r.1 < 8,
            r.2 < 8,
    {
        proof {
            self.lemma_index(x as int, y as int);
        }
        let ux: usize = x as usize % (self.map.x_blocks * 8);
        let uy: usize = y as usize % (self.map.y_blocks * 8);
        proof {
            assert((ux / 8) * self.map.y_blocks <= 0x1FFF * 0x1FFF) by (nonlinear_arith)
                requires
                    ux / 8 <= 0x1FFF,
                    self.map.y_blocks <= 0x1FFF,
            ;
        }
        ((ux / 8) * self.map.y_blocks + uy / 8, (ux % 8) as u8, (uy % 8) as u8)
    }

    fn tile_at(&self, x: u16, y: u16) -> (t: MapTile)
        requires
            self.wf(),
        ensures
            t == self.cell(x as int, y as int),
    {
        let (i, ox, oy) = self.wrap(x, y);
        self.map.blocks[i].cell(ox, oy)
    }

    /// Whether the block is on the map.
    pub open spec fn on_map(&self, block: BlockKey) -> bool {
        block.bx < self.map.x_blocks && block.by < self.map.y_blocks
    }

    /// Index of a block on the map.
    fn block_at(&self, block: BlockKey) -> (i: usize)
        requires
            self.wf(),
            self.on_map(block),
        ensures
            i == block.bx * self.map.y_blocks + block.by,
            i < self.map.x_blocks * self.map.y_blocks,
    {
        proof {
            let a = block.bx as int;
            let b = block.by as int;
            let w = self.map.x_blocks as int;
            let h = self.map.y_blocks as int;
            assert(0 <= a * h && a * h + b < w * h && w * h <= 0x1FFF * 0x1FFF) by (nonlinear_arith)
                requires
                    0 <= a < w <= 0x1FFF,
                    0 <= b < h <= 0x1FFF,
            ;
        }
        block.bx as usize * self.map.y_blocks + block.by as usize
    }
}

/// The map files of all worlds, with tile data and multi-objects.
pub struct StaticWorldData<T: TileShaper> {
    pub tiledata: T,
    pub multis: HashMap<u16, Vec<MultiPart>>,
    /// A slot per world, empty where its files are missing.
    pub worlds: Vec<Option<WorldFiles>>,
    /// Map sizes of worlds whose files are missing.
    pub default_sizes: Vec<Option<(u16, u16)>>,
}

impl<T: TileShaper> StaticWorldData<T> {
    /// The files of a world.
    pub open spec fn files(&self, world: u8) -> Option<WorldFiles> {
        if world < self.worlds@.len() {
            self.worlds@[world as int]
        } else {
            None
        }
    }

    pub open spec fn corner(&self, world: u8, x: int, y: int) -> Option<i8> {
        match self.files(world) {
            Some(f) => Some(f.cell(x, y).z),
            None => None,
        }
    }

    /// Puts together what was read of the map files: tile data, multi-objects and
    /// the worlds whose files are there, in their order.
    pub fn from_files(
        tiledata: T,
        multis: HashMap<u16, Vec<MultiPart>>,
        worlds: Vec<Option<WorldFiles>>,
        default_sizes: Vec<Option<(u16, u16)>>,
    ) -> (d: Self)
        requires
            worlds@.len() == MAX_WORLDS,
            forall|i: int|
                0 <= i < worlds@.len() && (#[trigger] worlds@[i]) is Some ==> (worlds@[i]->0).wf(),
        ensures
            d.wf(),
            d.tiledata == tiledata,
            d.multis == multis,
            d.worlds == worlds,
            d.default_sizes == default_sizes,
    {
        StaticWorldData { tiledata, multis, worlds, default_sizes }
    }

    /// The files of a world, if they are there.
    pub fn world(&self, idx: u8) -> (r: Option<&WorldFiles>)
        ensures
            r is Some <==> self.files(idx) is Some,
            r matches Some(f) ==> *f == self.files(idx)->0,
            self.wf() ==> (r matches Some(f) ==> f.wf()),
    {
        if (idx as usize) < self.worlds.len() {
            self.worlds[idx as usize].as_ref()
        } else {
            None
        }
    }

    /// Height of the land corner at `(x, y)`.
    pub fn land_vertex_z(&self, world: u8, x: u16, y: u16) -> (r: Option<i8>)
        requires
            self.wf(),
        ensures
            r == self.corner(world, x as int, y as int),
    {
        match self.land_tile_at(world, x, y) {
            Some(t) => Some(t.z),
            None => None,
        }
    }
}

impl<T: TileShaper> TileShaper for StaticWorldData<T> {
    open spec fn land_form(&self, z_base: i8, z_stand: i8, z_top: i8, tile_id: u16) -> TileShape {
        self.tiledata.land_form(z_base, z_stand, z_top, tile_id)
    }

    open spec fn static_form(&self, z: i8, tile_id: u16) -> Option<TileShape> {
        self.tiledata.static_form(z, tile_id)
    }

    fn land_shape(&self, z_base: i8, z_stand: i8, z_top: i8, tile_id: u16) -> (s: TileShape) {
        self.tiledata.land_shape(z_base, z_stand, z_top, tile_id)
    }

    fn static_shape(&self, z: i8, tile_id: u16) -> (s: Option<TileShape>) {
        self.tiledata.static_shape(z, tile_id)
    }
}

impl<T: TileShaper> StaticDataProvider for StaticWorldData<T> {
    open spec fn wf(&self) -> bool {
        forall|i: int|
            0 <= i < self.worlds@.len() && (#[trigger] self.worlds@[i]) is Some ==> (
            self.worlds@[i]->0).wf()
    }

    open spec fn land_at(&self, world: u8, x: u16, y: u16) -> Option<MapTile> {
        match self.files(world) {
            Some(f) => Some(f.cell(x as int, y as int)),
            None => None,
        }
    }

    open spec fn stand_at(&self, world: u8, x: u16, y: u16, direction: Heading) -> Option<
        (i8, i8, i8),
    > {
        corners_stand(
            self.corner(world, x as int, y as int),
            self.corner(world, x + 1, y as int),
            self.corner(world, x + 1, y + 1),
            self.corner(world, x as int, y + 1),
            direction,
        )
    }

    open spec fn range_at(&self, world: u8, x: u16, y: u16) -> Option<(i8, i8, i8)> {
        corners_range(
            self.corner(world, x as int, y as int),
            self.corner(world, x + 1, y as int),
            self.corner(world, x + 1, y + 1),
            self.corner(world, x as int, y + 1),
        )
    }

    open spec fn objects_at(&self, world: u8, x: u16, y: u16) -> Option<Seq<StaticTile>> {
        match self.files(world) {
            Some(f) => Some(f.objects(x as int, y as int)),
            None => None,
        }
    }

    open spec fn land_in(&self, world: u8, block: BlockKey) -> Option<MapBlock> {
        match self.files(world) {
            Some(f) => if f.on_map(block) {
                Some(f.map.blocks@[block.bx * f.map.y_blocks + block.by])
            } else {
                None
            },
            None => None,
        }
    }

    open spec fn objects_in(&self, world: u8, block: BlockKey) -> Option<Seq<StaticTile>> {
        match self.files(world) {
            Some(f) => if f.on_map(block) {
                Some(f.statics.blocks@[block.bx * f.map.y_blocks + block.by]@)
            } else {
                None
            },
            None => None,
        }
    }

    open spec fn parts_of(&self, graphic: u16) -> Seq<MultiPart> {
        if self.multis@.contains_key(graphic) {
            self.multis@[graphic]@
        } else {
            Seq::empty()
        }
    }

    open spec fn size_of_map(&self, world: u8) -> Option<(u16, u16)> {
        match self.files(world) {
            Some(f) => Some(((f.map.x_blocks * 8) as u16, (f.map.y_blocks * 8) as u16)),
            None => if world < self.default_sizes@.len() {
                self.default_sizes@[world as int]
            } else {
                None
            },
        }
    }

    fn land_tile_at(&self, world: u8, x: u16, y: u16) -> (r: Option<MapTile>) {
        match self.world(world) {
            Some(f) => Some(f.tile_at(x, y)),
            None => None,
        }
    }

    fn land_tile_z_stand(&self, world: u8, x: u16, y: u16, direction: Heading) -> (r: Option<
        (i8, i8, i8),
    >) {
        match self.world(world) {
            Some(f) => {
                let left = f.tile_at(x, y).z;
                let bottom = f.tile_at(x + 1, y).z;
                let right = f.tile_at(x + 1, y + 1).z;
                let top = f.tile_at(x, y + 1).z;
                Some(compute_land_z_stand(left, bottom, right, top, direction))
            },
            None => None,
        }
    }

    fn land_tile_z_range(&self, world: u8, x: u16, y: u16) -> (r: Option<(i8, i8, i8)>) {
        match self.world(world) {
            Some(f) => {
                let left = f.tile_at(x, y).z;
                let bottom = f.tile_at(x + 1, y).z;
                let right = f.tile_at(x + 1, y + 1).z;
                let top = f.tile_at(x, y + 1).z;
                Some(compute_land_z_range(left, bottom, right, top))
            },
            None => None,
        }
    }

    fn statics_at(&self, world: u8, x: u16, y: u16) -> (r: Option<Vec<StaticTile>>) {
        match self.world(world) {
            Some(f) => {
                let (i, ox, oy) = f.wrap(x, y);
                Some(pick_tiles(f.statics.blocks[i].as_slice(), ox, oy))
            },
            None => None,
        }
    }

    fn land_block_at(&self, world: u8, block: BlockKey) -> (r: Option<&MapBlock>) {
        match self.world(world) {
            Some(f) => {
                if (block.bx as usize) < f.map.x_blocks && (block.by as usize) < f.map.y_blocks {
                    let i: usize = f.block_at(block);
                    Some(&f.map.blocks[i])
                } else {
                    None
                }
            },
            None => None,
        }
    }

    fn statics_block_at(&self, world: u8, block: BlockKey) -> (r: Option<&[StaticTile]>) {
        match self.world(world) {
            Some(f) => {
                if (block.bx as usize) < f.map.x_blocks && (block.by as usize) < f.map.y_blocks {
                    let i: usize = f.block_at(block);
                    Some(f.statics.blocks[i].as_slice())
                } else {
                    None
                }
            },
            None => None,
        }
    }

    fn multi_parts(&self, graphic: u16) -> (r: &[MultiPart]) {
        match self.multis.get(&graphic) {
            Some(v) => v.as_slice(),
            None => &[],
        }
    }

    fn map_tile_dimensions(&self, world: u8) -> (r: Option<(u16, u16)>) {
        match self.world(world) {
            Some(f) => Some(((f.map.x_blocks * 8) as u16, (f.map.y_blocks * 8) as u16)),
            None => {
                if (world as usize) < self.default_sizes.len() {
                    self.default_sizes[world as usize]
                } else {
                    None
                }
            },
        }
    }
}

/// Law: maps wrap around: a map's width or height further is the same place.
pub proof fn maps_wrap_around(f: &WorldFiles, x: int, y: int)
    requires
        f.wf(),
        0 <= x,
        0 <= y,
    ensures
        f.cell(x + f.map.x_blocks * 8, y) == f.cell(x, y),
        f.cell(x, y + f.map.y_blocks * 8) == f.cell(x, y),
        f.objects(x + f.map.x_blocks * 8, y) == f.objects(x, y),
        f.objects(x, y + f.map.y_blocks * 8) == f.objects(x, y),
{
    let w = f.map.x_blocks * 8;
    let h = f.map.y_blocks * 8;
    vstd::arithmetic::div_mod::lemma_mod_add_multiples_vanish(x, w);
    vstd::arithmetic::div_mod::lemma_mod_add_multiples_vanish(y, h);
    assert((x + w) % w == x % w);
    assert((y + h) % h == y % h);
}

} // verus!

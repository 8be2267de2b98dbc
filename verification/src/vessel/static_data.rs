//! Map files as plain data, and who provides them.

use vstd::prelude::*;

use super::tile_shape::TileShape;
use crate::coords::{BlockKey, Heading};

verus! {

/// A land cell: its graphic and the height of its north-western corner.
#[derive(Debug, Clone, Copy, PartialEq, Eq, Structural)]
pub struct MapTile {
    pub tile_id: u16,
    pub z: i8,
}

/// The 64 land cells of a block, column by column: cell `(ox, oy)` has index
/// `ox * 8 + oy`.
#[derive(Debug)]
pub struct MapBlock {
    pub cells: Vec<MapTile>,
}

impl MapBlock {
    pub open spec fn wf(&self) -> bool {
        self.cells@.len() == 64
    }

    /// The cell at local offset `(ox, oy)`.
    pub open spec fn at(&self, ox: int, oy: int) -> MapTile {
        self.cells@[ox * 8 + oy]
    }

    pub fn cell(&self, ox: u8, oy: u8) -> (t: MapTile)
        requires
            self.wf(),
            ox < 8,
            oy < 8,
        ensures
            t == self.at(ox as int, oy as int),
    {
        self.cells[ox as usize * 8 + oy as usize]
    }
}

/// A static object of the map, at an offset within its block.
#[derive(Debug, Clone, Copy, PartialEq, Eq, Structural)]
pub struct StaticTile {
    pub tile_id: u16,
    pub x: u8,
    pub y: u8,
    pub z: i8,
    pub hue: u16,
}

/// Whether all offsets lie within a block.
pub open spec fn offsets_ok(s: Seq<StaticTile>) -> bool {
    forall|i: int| 0 <= i < s.len() ==> (#[trigger] s[i]).x < 8 && s[i].y < 8
}

/// The tiles at local offset `(ox, oy)`, in order.
pub open spec fn tiles_at(s: Seq<StaticTile>, ox: int, oy: int) -> Seq<StaticTile> {
    s.filter(|t: StaticTile| t.x == ox && t.y == oy)
}

/// The tiles at local offset `(ox, oy)`, in order.
pub fn pick_tiles(s: &[StaticTile], ox: u8, oy: u8) -> (r: Vec<StaticTile>)
    ensures
        r@ == tiles_at(s@, ox as int, oy as int),
{
    let mut r: Vec<StaticTile> = Vec::new();
    let mut i: usize = 0;
    proof {
        reveal(Seq::filter);
        assert(s@.take(0) =~= Seq::<StaticTile>::empty());
    }
    while i < s.len()
        invariant
            i <= s@.len(),
            r@ == tiles_at(s@.take(i as int), ox as int, oy as int),
        decreases s@.len() - i,
    {
        proof {
            reveal(Seq::filter);
            assert(s@.take(i + 1).drop_last() =~= s@.take(i as int));
        }
        if s[i].x == ox && s[i].y == oy {
            r.push(s[i]);
        }
        i += 1;
    }
    assert(s@.take(i as int) =~= s@);
    r
}

/// A part of a multi-object, at an offset from its origin.
#[derive(Debug, Clone, Copy, PartialEq, Eq, Structural)]
pub struct MultiPart {
    pub tile_id: u16,
    pub x: i16,
    pub y: i16,
    pub z: i16,
    /// Zero for parts that are not there for anyone.
    pub flags: u64,
}

/// What tile data makes of a graphic.
pub trait TileShaper {
    /// The shape of land with this graphic between these heights.
    spec fn land_form(&self, z_base: i8, z_stand: i8, z_top: i8, tile_id: u16) -> TileShape;

    /// The shape of an object with this graphic at this height, if the graphic is known.
    spec fn static_form(&self, z: i8, tile_id: u16) -> Option<TileShape>;

    fn land_shape(&self, z_base: i8, z_stand: i8, z_top: i8, tile_id: u16) -> (s: TileShape)
        ensures
            s == self.land_form(z_base, z_stand, z_top, tile_id),
    ;

    fn static_shape(&self, z: i8, tile_id: u16) -> (s: Option<TileShape>)
        ensures
            s == self.static_form(z, tile_id),
    ;
}

/// Who knows the map files of all worlds.
pub trait StaticDataProvider: TileShaper {
    /// Whether the data is in order.
    spec fn wf(&self) -> bool;

    spec fn land_at(&self, world: u8, x: u16, y: u16) -> Option<MapTile>;

    spec fn stand_at(&self, world: u8, x: u16, y: u16, direction: Heading) -> Option<(i8, i8, i8)>;

    spec fn range_at(&self, world: u8, x: u16, y: u16) -> Option<(i8, i8, i8)>;

    spec fn objects_at(&self, world: u8, x: u16, y: u16) -> Option<Seq<StaticTile>>;

    spec fn land_in(&self, world: u8, block: BlockKey) -> Option<MapBlock>;

    spec fn objects_in(&self, world: u8, block: BlockKey) -> Option<Seq<StaticTile>>;

    spec fn parts_of(&self, graphic: u16) -> Seq<MultiPart>;

    spec fn size_of_map(&self, world: u8) -> Option<(u16, u16)>;

    /// The land cell at `(x, y)`.
    fn land_tile_at(&self, world: u8, x: u16, y: u16) -> (r: Option<MapTile>)
        requires
            self.wf(),
        ensures
            r == self.land_at(world, x, y),
    ;

    /// Base, standing and top height of the land at `(x, y)`, approached along
    /// `direction`.
    fn land_tile_z_stand(&self, world: u8, x: u16, y: u16, direction: Heading) -> (r: Option<
        (i8, i8, i8),
    >)
        requires
            self.wf(),
            x < u16::MAX,
            y < u16::MAX,
        ensures
            r == self.stand_at(world, x, y, direction),
    ;

    /// Base, standing and top height of the land at `(x, y)`, whatever the approach.
    fn land_tile_z_range(&self, world: u8, x: u16, y: u16) -> (r: Option<(i8, i8, i8)>)
        requires
            self.wf(),
            x < u16::MAX,
            y < u16::MAX,
        ensures
            r == self.range_at(world, x, y),
    ;

    /// The static objects at `(x, y)`.
    fn statics_at(&self, world: u8, x: u16, y: u16) -> (r: Option<Vec<StaticTile>>)
        requires
            self.wf(),
        ensures
            r is Some <==> self.objects_at(world, x, y) is Some,
            r matches Some(v) ==> v@ == self.objects_at(world, x, y)->0,
    ;

    /// The land cells of a block.
    fn land_block_at(&self, world: u8, block: BlockKey) -> (r: Option<&MapBlock>)
        requires
            self.wf(),
        ensures
            r is Some <==> self.land_in(world, block) is Some,
            r matches Some(b) ==> *b == self.land_in(world, block)->0 && b.wf(),
    ;

    /// The static objects of a block.
    fn statics_block_at(&self, world: u8, block: BlockKey) -> (r: Option<&[StaticTile]>)
        requires
            self.wf(),
        ensures
            r is Some <==> self.objects_in(world, block) is Some,
            r matches Some(s) ==> s@ == self.objects_in(world, block)->0 && offsets_ok(s@),
    ;

    /// The parts of a multi-object.
    fn multi_parts(&self, graphic: u16) -> (r: &[MultiPart])
        requires
            self.wf(),
        ensures
            r@ == self.parts_of(graphic),
    ;

    /// Width and height of a world's map, in tiles.
    fn map_tile_dimensions(&self, world: u8) -> (r: Option<(u16, u16)>)
        requires
            self.wf(),
        ensures
            r == self.size_of_map(world),
    ;
}

} // verus!

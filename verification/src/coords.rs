//! Tile coordinates, compass headings and map blocks.

use vstd::prelude::*;

verus! {

/// Edge length of a map block, in tiles.
pub const BLOCK_SIZE: u16 = 8;

/// Largest block coordinate whose tiles all have 16-bit coordinates.
pub const MAX_BLOCK: u16 = 8191;

/// One of the eight compass directions. `y` grows to the south.
#[derive(Debug, Clone, Copy, PartialEq, Eq, Structural)]
pub enum Heading {
    North,
    NorthEast,
    East,
    SouthEast,
    South,
    SouthWest,
    West,
    NorthWest,
}

impl Heading {
    /// Clockwise position of the heading, counted from north.
    pub open spec fn index_spec(self) -> int {
        match self {
            Heading::North => 0,
            Heading::NorthEast => 1,
            Heading::East => 2,
            Heading::SouthEast => 3,
            Heading::South => 4,
            Heading::SouthWest => 5,
            Heading::West => 6,
            Heading::NorthWest => 7,
        }
    }

    /// The heading at clockwise position `i`, taken modulo eight.
    pub open spec fn at(i: int) -> Heading {
        let k = i % 8;
        if k == 0 {
            Heading::North
        } else if k == 1 {
            Heading::NorthEast
        } else if k == 2 {
            Heading::East
        } else if k == 3 {
            Heading::SouthEast
        } else if k == 4 {
            Heading::South
        } else if k == 5 {
            Heading::SouthWest
        } else if k == 6 {
            Heading::West
        } else {
            Heading::NorthWest
        }
    }

    /// Horizontal component of one step: 1 to the east, -1 to the west.
    pub open spec fn dx(self) -> int {
        match self {
            Heading::NorthEast | Heading::East | Heading::SouthEast => 1,
            Heading::SouthWest | Heading::West | Heading::NorthWest => -1,
            _ => 0,
        }
    }

    /// Vertical component of one step: 1 to the south, -1 to the north.
    pub open spec fn dy(self) -> int {
        match self {
            Heading::SouthEast | Heading::South | Heading::SouthWest => 1,
            Heading::NorthWest | Heading::North | Heading::NorthEast => -1,
            _ => 0,
        }
    }

    pub open spec fn diagonal(self) -> bool {
        self.dx() != 0 && self.dy() != 0
    }

    /// Clockwise position of the heading, counted from north.
    pub fn index(self) -> (i: u8)
        ensures
            i == self.index_spec(),
    {
        match self {
            Heading::North => 0,
            Heading::NorthEast => 1,
            Heading::East => 2,
            Heading::SouthEast => 3,
            Heading::South => 4,
            Heading::SouthWest => 5,
            Heading::West => 6,
            Heading::NorthWest => 7,
        }
    }

    /// The heading at clockwise position `i`, taken modulo eight.
    pub fn from_index(i: u8) -> (h: Heading)
        ensures
            h == Heading::at(i as int),
    {
        let k: u8 = i % 8;
        if k == 0 {
            Heading::North
        } else if k == 1 {
            Heading::NorthEast
        } else if k == 2 {
            Heading::East
        } else if k == 3 {
            Heading::SouthEast
        } else if k == 4 {
            Heading::South
        } else if k == 5 {
            Heading::SouthWest
        } else if k == 6 {
            Heading::West
        } else {
            Heading::NorthWest
        }
    }

    /// Tile offset of one step in this direction.
    pub fn delta(self) -> (d: (i32, i32))
        ensures
            d.0 == self.dx(),
            d.1 == self.dy(),
    {
        match self {
            Heading::North => (0, -1),
            Heading::NorthEast => (1, -1),
            Heading::East => (1, 0),
            Heading::SouthEast => (1, 1),
            Heading::South => (0, 1),
            Heading::SouthWest => (-1, 1),
            Heading::West => (-1, 0),
            Heading::NorthWest => (-1, -1),
        }
    }

    /// Whether the heading lies between two cardinal directions.
    pub fn is_diagonal(self) -> (b: bool)
        ensures
            b == self.diagonal(),
    {
        match self {
            Heading::NorthEast | Heading::SouthEast | Heading::SouthWest | Heading::NorthWest => {
                true
            },
            _ => false,
        }
    }

    /// The heading `steps` eighth turns clockwise from this one.
    pub fn turn(self, steps: i8) -> (h: Heading)
        ensures
            h == Heading::at(self.index_spec() + steps),
    {
        let base: i16 = self.index() as i16 + steps as i16 + 128;
        let k: u8 = (base % 8) as u8;
        proof {
            assert((self.index_spec() + steps + 128) % 8 == (self.index_spec() + steps) % 8);
        }
        Heading::from_index(k)
    }
}

/// Law: the two cardinal neighbours of a diagonal heading add up to its step.
pub proof fn diagonal_splits_into_cardinals(h: Heading)
    requires
        h.diagonal(),
    ensures
        !Heading::at(h.index_spec() + 1).diagonal(),
        !Heading::at(h.index_spec() - 1).diagonal(),
        h.dx() == Heading::at(h.index_spec() + 1).dx() + Heading::at(h.index_spec() - 1).dx(),
        h.dy() == Heading::at(h.index_spec() + 1).dy() + Heading::at(h.index_spec() - 1).dy(),
{
}

/// A mobile's facing: heading in the three low bits, running flag in the top bit.
#[derive(Debug, Clone, Copy, PartialEq, Eq, Structural)]
pub struct Facing {
    pub raw: u8,
}

impl Facing {
    pub open spec fn heading_spec(self) -> Heading {
        Heading::at((self.raw % 8) as int)
    }

    pub open spec fn running(self) -> bool {
        self.raw >= 0x80
    }

    /// Facing encoded by a raw byte.
    pub fn new(raw: u8) -> (f: Facing)
        ensures
            f.raw == raw,
    {
        Facing { raw }
    }

    /// Facing of someone who looks towards `h` and does not run.
    pub fn from_heading(h: Heading) -> (f: Facing)
        ensures
            f.heading_spec() == h,
            !f.running(),
            f.raw == h.index_spec(),
    {
        Facing { raw: h.index() }
    }

    /// The encoded byte.
    pub fn raw(self) -> (r: u8)
        ensures
            r == self.raw,
    {
        self.raw
    }

    /// The compass direction, without the running flag.
    pub fn heading(self) -> (h: Heading)
        ensures
            h == self.heading_spec(),
    {
        Heading::from_index(self.raw % 8)
    }

    /// Whether the running flag is set.
    pub fn is_running(self) -> (b: bool)
        ensures
            b == self.running(),
    {
        self.raw >= 0x80
    }
}

/// A point of the world.
#[derive(Debug, Clone, Copy, PartialEq, Eq, Structural)]
pub struct Pos3D {
    pub x: u16,
    pub y: u16,
    pub z: i8,
}

impl Pos3D {
    pub fn new(x: u16, y: u16, z: i8) -> (p: Pos3D)
        ensures
            p == (Pos3D { x, y, z }),
    {
        Pos3D { x, y, z }
    }
}

/// A point of the world with a facing.
#[derive(Debug, Clone, Copy, PartialEq, Eq, Structural)]
pub struct MobilePos {
    pub x: u16,
    pub y: u16,
    pub z: i8,
    pub facing: Facing,
}

/// Coordinates of an 8 by 8 map block.
#[derive(Debug, Clone, Copy, PartialEq, Eq, Hash, Structural)]
pub struct BlockKey {
    pub bx: u16,
    pub by: u16,
}

impl BlockKey {
    /// The block that holds tile `(x, y)`.
    pub open spec fn of_tile(x: u16, y: u16) -> BlockKey {
        BlockKey { bx: (x / 8) as u16, by: (y / 8) as u16 }
    }

    /// Whether every tile of the block has 16-bit coordinates.
    pub open spec fn on_map(self) -> bool {
        self.bx <= MAX_BLOCK && self.by <= MAX_BLOCK
    }

    /// Injective encoding of the key in one number.
    pub open spec fn packed(self) -> u32 {
        (self.bx * 0x1_0000 + self.by) as u32
    }

    pub fn new(bx: u16, by: u16) -> (k: BlockKey)
        ensures
            k == (BlockKey { bx, by }),
    {
        BlockKey { bx, by }
    }

    /// The block that holds tile `(x, y)`.
    pub fn from_tile(x: u16, y: u16) -> (k: BlockKey)
        ensures
            k == BlockKey::of_tile(x, y),
            k.on_map(),
    {
        BlockKey { bx: x / BLOCK_SIZE, by: y / BLOCK_SIZE }
    }

    /// The north-western tile of the block.
    pub fn origin(self) -> (o: (u16, u16))
        requires
            self.on_map(),
        ensures
            o.0 == self.bx * 8,
            o.1 == self.by * 8,
    {
        (self.bx * BLOCK_SIZE, self.by * BLOCK_SIZE)
    }

    /// Injective encoding of the key in one number.
    pub fn pack(self) -> (k: u32)
        ensures
            k == self.packed(),
    {
        self.bx as u32 * 0x1_0000 + self.by as u32
    }

    /// The key that `k` encodes.
    pub fn unpack(k: u32) -> (key: BlockKey)
        ensures
            key.packed() == k,
    {
        BlockKey { bx: (k / 0x1_0000) as u16, by: (k % 0x1_0000) as u16 }
    }
}

/// Law: no two blocks share an encoding.
pub proof fn packed_is_injective(a: BlockKey, b: BlockKey)
    ensures
        a.packed() == b.packed() <==> a == b,
{
}

/// Law: north is up the map and east is along it: a step goes to the east, the west, the
/// north or the south just as its heading says.
pub proof fn steps_go_where_they_say(h: Heading)
    ensures
        h.dx() == if h == Heading::NorthEast || h == Heading::East || h == Heading::SouthEast {
            1int
        } else if h == Heading::NorthWest || h == Heading::West || h == Heading::SouthWest {
            -1
        } else {
            0
        },
        h.dy() == if h == Heading::SouthEast || h == Heading::South || h == Heading::SouthWest {
            1int
        } else if h == Heading::NorthEast || h == Heading::North || h == Heading::NorthWest {
            -1
        } else {
            0
        },
{
}

/// Law: eight headings go once around, clockwise: the next one turns the step to the
/// right by an eighth, four on is the way back, and eight on is the same heading.
pub proof fn headings_go_around(i: int)
    ensures
        ({
            let h = Heading::at(i);
            let right = Heading::at(i + 1);
            let back = Heading::at(i + 4);
            &&& h.dx() * right.dy() - h.dy() * right.dx() == 1
            &&& back.dx() == -h.dx() && back.dy() == -h.dy()
            &&& Heading::at(i + 8) == h
            &&& Heading::at(h.index_spec()) == h
            &&& 0 <= h.index_spec() < 8
            &&& (h.index_spec() - i) % 8 == 0
        }),
        Heading::at(0) == Heading::North,
{
}

/// Law: a facing with the running flag looks the same way as one without it, and the
/// five bits between do not count.
pub proof fn running_keeps_the_heading(f: Facing, walks: u8)
    requires
        walks < 8,
    ensures
        (Facing { raw: walks }).heading_spec() == Heading::at(walks as int),
        !(Facing { raw: walks }).running(),
        (Facing { raw: (walks + 0x80) as u8 }).heading_spec() == Heading::at(walks as int),
        (Facing { raw: (walks + 0x80) as u8 }).running(),
        f.running() <==> f.raw / 128 == 1,
        f.heading_spec().index_spec() == f.raw as int % 8,
{
}

/// Law: a block is eight tiles wide and high, and the tiles between its first and its
/// last row and column are just its tiles.
pub proof fn blocks_tile_the_map(x: u16, y: u16, k: BlockKey)
    ensures
        BlockKey::of_tile(x, y) == k <==> (k.bx * 8 <= x <= k.bx * 8 + 7 && k.by * 8 <= y <= k.by
            * 8 + 7),
{
}

} // verus!

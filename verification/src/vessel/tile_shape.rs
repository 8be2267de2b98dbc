//! Vertical extents on a tile and their tile-data flags.

use vstd::prelude::*;

verus! {

/// Tile-data flag bits.
pub struct TileFlags;

impl TileFlags {
    pub const WALL: u64 = 0x10;
    pub const IMPASSABLE: u64 = 0x40;
    pub const WET: u64 = 0x80;
    pub const SURFACE: u64 = 0x200;
    pub const BRIDGE: u64 = 0x400;
    pub const WINDOW: u64 = 0x1000;
    pub const NO_SHOOT: u64 = 0x2000;
    pub const FOLIAGE: u64 = 0x2_0000;
    pub const HOVER_OVER: u64 = 0x200_0000;
}

/// One thing in the column of a tile.
#[derive(Debug, Clone, Copy, PartialEq, Eq, Structural)]
pub enum TileShape {
    /// Ground or stairs: stood on at `z_stand`, reaching from `z_base` to `z_top`.
    Slope { z_base: i8, z_stand: i8, z_top: i8, flags: u64 },
    /// A flat object, stood on at its top.
    Surface { z_base: i8, z_stand: i8, flags: u64 },
    /// Scenery that neither carries nor stops anyone.
    Background { z_base: i8, z_top: i8 },
}

impl TileShape {
    /// Flags that stop sight unless told otherwise.
    pub const LOS_BLOCKING_DEFAULT: u64 = 0x2050;

    /// Flags that let sight through unless told otherwise.
    pub const LOS_EXEMPT_DEFAULT: u64 = 0x1000;

    pub open spec fn base(self) -> i8 {
        match self {
            TileShape::Slope { z_base, .. } => z_base,
            TileShape::Surface { z_base, .. } => z_base,
            TileShape::Background { z_base, .. } => z_base,
        }
    }

    pub open spec fn top(self) -> i8 {
        match self {
            TileShape::Slope { z_top, .. } => z_top,
            TileShape::Surface { z_stand, .. } => z_stand,
            TileShape::Background { z_top, .. } => z_top,
        }
    }

    /// Standing height; scenery has none, its top stands in for it.
    pub open spec fn stand(self) -> i8 {
        match self {
            TileShape::Slope { z_stand, .. } => z_stand,
            TileShape::Surface { z_stand, .. } => z_stand,
            TileShape::Background { z_top, .. } => z_top,
        }
    }

    /// Flags of the shape; scenery carries none.
    pub open spec fn flag_bits(self) -> u64 {
        match self {
            TileShape::Slope { flags, .. } => flags,
            TileShape::Surface { flags, .. } => flags,
            TileShape::Background { .. } => 0,
        }
    }

    /// Whether ground rules let one stand here, with `mask` overriding `IMPASSABLE`.
    pub open spec fn passable_with(self, mask: u64) -> bool {
        &&& !(self is Background)
        &&& (mask != 0 && self.flag_bits() & mask != 0) || self.flag_bits() & TileFlags::IMPASSABLE
            == 0
    }

    /// Whether the shape stops sight: a transparent bit lets it through first,
    /// then an exempt bit, then a blocking bit stops it.
    pub open spec fn blocks_sight(self, blocking: u64, exempt: u64, transparent: u64) -> bool {
        &&& !(self is Background)
        &&& self.flag_bits() & transparent == 0
        &&& self.flag_bits() & exempt == 0
        &&& self.flag_bits() & blocking != 0
    }

    /// Lowest point of the shape.
    pub fn z_base(&self) -> (z: i8)
        ensures
            z == self.base(),
    {
        match *self {
            TileShape::Slope { z_base, .. } => z_base,
            TileShape::Surface { z_base, .. } => z_base,
            TileShape::Background { z_base, .. } => z_base,
        }
    }

    /// Highest point of the shape.
    pub fn z_top(&self) -> (z: i8)
        ensures
            z == self.top(),
    {
        match *self {
            TileShape::Slope { z_top, .. } => z_top,
            TileShape::Surface { z_stand, .. } => z_stand,
            TileShape::Background { z_top, .. } => z_top,
        }
    }

    /// The ceiling of the world: a surface at the greatest height.
    pub fn cap() -> (s: TileShape)
        ensures
            s == TileShape::cap_spec(),
    {
        TileShape::Surface { z_base: i8::MAX, z_stand: i8::MAX, flags: 0 }
    }

    pub open spec fn cap_spec() -> TileShape {
        TileShape::Surface { z_base: i8::MAX, z_stand: i8::MAX, flags: 0 }
    }

    /// Whether ground rules let one stand here, with `mask` overriding `IMPASSABLE`.
    pub fn is_passable_with(&self, mask: u64) -> (b: bool)
        ensures
            b == self.passable_with(mask),
    {
        match *self {
            TileShape::Slope { flags, .. } | TileShape::Surface { flags, .. } => {
                (mask != 0 && flags & mask != 0) || flags & TileFlags::IMPASSABLE == 0
            },
            TileShape::Background { .. } => false,
        }
    }

    /// Whether the shape stops sight under the three masks.
    pub fn blocks_los_masked(&self, blocking: u64, exempt: u64, transparent: u64) -> (b: bool)
        ensures
            b == self.blocks_sight(blocking, exempt, transparent),
    {
        match *self {
            TileShape::Slope { flags, .. } | TileShape::Surface { flags, .. } => {
                if flags & transparent != 0 {
                    return false;
                }
                if flags & exempt != 0 {
                    return false;
                }
                flags & blocking != 0
            },
            TileShape::Background { .. } => false,
        }
    }

    /// Whether the shape stops sight when `transparent` bits let it through.
    pub fn blocks_los_with(&self, transparent: u64) -> (b: bool)
        ensures
            b == self.blocks_sight(
                TileShape::LOS_BLOCKING_DEFAULT,
                TileShape::LOS_EXEMPT_DEFAULT,
                transparent,
            ),
    {
        self.blocks_los_masked(
            TileShape::LOS_BLOCKING_DEFAULT,
            TileShape::LOS_EXEMPT_DEFAULT,
            transparent,
        )
    }
}

} // verus!

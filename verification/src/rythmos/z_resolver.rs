//! Who knows how high one stands.

use vstd::prelude::*;

use crate::coords::Heading;

verus! {

/// A source of standing heights.
pub trait ZResolver {
    /// Whether the source can be asked about a tile.
    spec fn resolves(&self, x: u16, y: u16) -> bool;

    /// The standing height nearest to `z_hint`, where one can stand at all.
    spec fn standing(&self, x: u16, y: u16, z_hint: i8, direction: Heading) -> Option<i8>;

    fn resolve_standing_z(&self, x: u16, y: u16, z_hint: i8, direction: Heading) -> (r: Option<i8>)
        requires
            self.resolves(x, y),
        ensures
            r == self.standing(x, y, z_hint, direction),
    ;
}

} // verus!

//! Sources of shapes that are not part of the map files.

use vstd::prelude::*;

use crate::vessel::tile_shape::TileShape;

verus! {

/// A source of the shapes of multi-objects and remembered items.
pub trait ShapeProvider {
    /// The shapes at tile `(x, y)` of the current world.
    spec fn shapes(&self, x: u16, y: u16) -> Seq<TileShape>;

    /// Whether the source is in order.
    spec fn shapes_ok(&self) -> bool;

    /// Whether the source holds nothing that may have shapes in the current world.
    spec fn holds_nothing(&self) -> bool;

    /// Whether a multi-object occupies tile `(x, y)` of the current world.
    spec fn multi_at(&self, x: u16, y: u16) -> bool;

    /// Whether a multi-object occupies tile `(x, y)`.
    fn has_multi_at(&self, x: u16, y: u16) -> (b: bool)
        requires
            self.shapes_ok(),
        ensures
            b == self.multi_at(x, y),
    ;

    /// The shapes at tile `(x, y)`, in no particular order.
    fn get_shapes_at(&self, x: u16, y: u16) -> (s: Vec<TileShape>)
        requires
            self.shapes_ok(),
        ensures
            s@ == self.shapes(x, y),
    ;

    /// Whether the source holds nothing that may have shapes. It then has none anywhere.
    fn shapes_empty(&self) -> (b: bool)
        requires
            self.shapes_ok(),
        ensures
            b == self.holds_nothing(),
            b ==> forall|x: u16, y: u16| (#[trigger] self.shapes(x, y)).len() == 0,
    ;
}

} // verus!

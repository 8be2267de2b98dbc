//! Axis-aligned rectangles of tiles.

use vstd::prelude::*;

use crate::coords::{MobilePos, Pos3D};

verus! {

/// The tiles from `(x_min, y_min)` to `(x_max, y_max)`, both corners included.
#[derive(Debug, Clone, Copy, PartialEq, Eq, Structural)]
pub struct TileRect {
    pub x_min: u16,
    pub y_min: u16,
    pub x_max: u16,
    pub y_max: u16,
}

impl TileRect {
    /// Whether tile `(x, y)` lies in the rectangle.
    pub open spec fn has(self, x: int, y: int) -> bool {
        &&& self.x_min <= x <= self.x_max
        &&& self.y_min <= y <= self.y_max
    }

    /// Whether the corners are in order, so that the rectangle holds a tile.
    pub open spec fn proper(self) -> bool {
        self.x_min <= self.x_max && self.y_min <= self.y_max
    }

    /// Whether the extents of both axes meet.
    pub open spec fn meets(self, other: TileRect) -> bool {
        &&& self.x_min <= other.x_max
        &&& self.x_max >= other.x_min
        &&& self.y_min <= other.y_max
        &&& self.y_max >= other.y_min
    }

    /// Tiles within Chebyshev distance `range` of `(cx, cy)`, cut at the map's edges.
    pub open spec fn view_spec(cx: u16, cy: u16, range: u16) -> TileRect {
        TileRect {
            x_min: (if cx >= range { cx - range } else { 0 }) as u16,
            y_min: (if cy >= range { cy - range } else { 0 }) as u16,
            x_max: (if cx + range <= u16::MAX { cx + range } else { u16::MAX as int }) as u16,
            y_max: (if cy + range <= u16::MAX { cy + range } else { u16::MAX as int }) as u16,
        }
    }

    pub open spec fn point_spec(x: u16, y: u16) -> TileRect {
        TileRect { x_min: x, y_min: y, x_max: x, y_max: y }
    }

    /// Single-tile rectangle at `(x, y)`.
    pub fn point(x: u16, y: u16) -> (r: TileRect)
        ensures
            r == TileRect::point_spec(x, y),
            forall|a: int, b: int| r.has(a, b) <==> a == x && b == y,
    {
        TileRect { x_min: x, y_min: y, x_max: x, y_max: y }
    }

    /// The tile rectangle covering the Chebyshev `range` around `(cx, cy)`.
    pub fn from_view(cx: u16, cy: u16, range: u16) -> (r: TileRect)
        ensures
            r == TileRect::view_spec(cx, cy, range),
            forall|x: int, y: int| #[trigger]
                r.has(x, y) <==> 0 <= x <= u16::MAX && 0 <= y <= u16::MAX && cx - range <= x <= cx
                    + range && cy - range <= y <= cy + range,
    {
        TileRect {
            x_min: cx.saturating_sub(range),
            y_min: cy.saturating_sub(range),
            x_max: cx.saturating_add(range),
            y_max: cy.saturating_add(range),
        }
    }

    /// Whether tile `(x, y)` lies in the rectangle.
    pub fn contains_xy(&self, x: u16, y: u16) -> (b: bool)
        ensures
            b == self.has(x as int, y as int),
    {
        x >= self.x_min && x <= self.x_max && y >= self.y_min && y <= self.y_max
    }

    /// Whether a position falls within this rectangle. Height is ignored.
    pub fn contains_pos(&self, pos: &Pos3D) -> (b: bool)
        ensures
            b == self.has(pos.x as int, pos.y as int),
    {
        self.contains_xy(pos.x, pos.y)
    }

    /// Whether a mobile position falls within this rectangle. Height and facing are ignored.
    pub fn contains_mpos(&self, pos: &MobilePos) -> (b: bool)
        ensures
            b == self.has(pos.x as int, pos.y as int),
    {
        self.contains_xy(pos.x, pos.y)
    }

    /// Whether the two rectangles overlap at all.
    pub fn overlaps(&self, other: &TileRect) -> (b: bool)
        ensures
            b == self.meets(*other),
    {
        self.x_min <= other.x_max && self.x_max >= other.x_min && self.y_min <= other.y_max
            && self.y_max >= other.y_min
    }

    /// The overlapping area, or `None` where the rectangles do not overlap.
    pub fn intersection(&self, other: &TileRect) -> (r: Option<TileRect>)
        ensures
            r is Some <==> self.meets(*other),
            r matches Some(i) ==> {
                &&& forall|x: int, y: int| #[trigger]
                    i.has(x, y) <==> self.has(x, y) && other.has(x, y)
                &&& i.x_min == if self.x_min >= other.x_min { self.x_min } else { other.x_min }
                &&& i.y_min == if self.y_min >= other.y_min { self.y_min } else { other.y_min }
                &&& i.x_max == if self.x_max <= other.x_max { self.x_max } else { other.x_max }
                &&& i.y_max == if self.y_max <= other.y_max { self.y_max } else { other.y_max }
            },
    {
        if !self.overlaps(other) {
            return None;
        }
        Some(
            TileRect {
                x_min: if self.x_min >= other.x_min { self.x_min } else { other.x_min },
                y_min: if self.y_min >= other.y_min { self.y_min } else { other.y_min },
                x_max: if self.x_max <= other.x_max { self.x_max } else { other.x_max },
                y_max: if self.y_max <= other.y_max { self.y_max } else { other.y_max },
            },
        )
    }

    /// The strips of `self` outside `other`: all of `self` where they do not
    /// meet, else the strip above, the one below, then the parts to the left
    /// and to the right of the shared rows.
    pub open spec fn difference_spec(self, other: TileRect) -> Seq<TileRect> {
        if !self.meets(other) {
            seq![self]
        } else {
            let y0 = if self.y_min >= other.y_min { self.y_min } else { other.y_min };
            let y1 = if self.y_max <= other.y_max { self.y_max } else { other.y_max };
            let above = if self.y_min < other.y_min {
                seq![TileRect { y_max: (other.y_min - 1) as u16, ..self }]
            } else {
                seq![]
            };
            let below = if self.y_max > other.y_max {
                seq![TileRect { y_min: (other.y_max + 1) as u16, ..self }]
            } else {
                seq![]
            };
            let left = if self.x_min < other.x_min {
                seq![
                    TileRect {
                        x_min: self.x_min,
                        x_max: (other.x_min - 1) as u16,
                        y_min: y0,
                        y_max: y1,
                    },
                ]
            } else {
                seq![]
            };
            let right = if self.x_max > other.x_max {
                seq![
                    TileRect {
                        x_min: (other.x_max + 1) as u16,
                        x_max: self.x_max,
                        y_min: y0,
                        y_max: y1,
                    },
                ]
            } else {
                seq![]
            };
            above + below + left + right
        }
    }

    /// The tiles of `self` that are not in `other`, as rectangular strips.
    pub fn difference(&self, other: &TileRect) -> (strips: Vec<TileRect>)
        ensures
            strips@ == self.difference_spec(*other),
    {
        let mut strips: Vec<TileRect> = Vec::with_capacity(4);
        if !self.overlaps(other) {
            strips.push(*self);
            return strips;
        }
        if self.y_min < other.y_min {
            strips.push(
                TileRect {
                    x_min: self.x_min,
                    x_max: self.x_max,
                    y_min: self.y_min,
                    y_max: other.y_min - 1,
                },
            );
        }
        if self.y_max > other.y_max {
            strips.push(
                TileRect {
                    x_min: self.x_min,
                    x_max: self.x_max,
                    y_min: other.y_max + 1,
                    y_max: self.y_max,
                },
            );
        }
        let oy_min: u16 = if self.y_min >= other.y_min { self.y_min } else { other.y_min };
        let oy_max: u16 = if self.y_max <= other.y_max { self.y_max } else { other.y_max };
        if self.x_min < other.x_min {
            strips.push(
                TileRect {
                    x_min: self.x_min,
                    x_max: other.x_min - 1,
                    y_min: oy_min,
                    y_max: oy_max,
                },
            );
        }
        if self.x_max > other.x_max {
            strips.push(
                TileRect {
                    x_min: other.x_max + 1,
                    x_max: self.x_max,
                    y_min: oy_min,
                    y_max: oy_max,
                },
            );
        }
        strips
    }
}

/// Whether some strip holds the tile.
pub open spec fn covered(strips: Seq<TileRect>, x: int, y: int) -> bool {
    exists|i: int| 0 <= i < strips.len() && (#[trigger] strips[i]).has(x, y)
}

/// Law: the strips of a difference cover exactly the tiles of the first
/// rectangle that are not in the second, there are at most four of them, and
/// no tile lies in two of them.
pub proof fn difference_is_exact(a: TileRect, b: TileRect)
    requires
        b.proper(),
    ensures
        a.difference_spec(b).len() <= 4,
        forall|x: int, y: int| #[trigger]
            covered(a.difference_spec(b), x, y) <==> a.has(x, y) && !b.has(x, y),
        forall|i: int, j: int, x: int, y: int|
            0 <= i < j < a.difference_spec(b).len() ==> !(#[trigger] a.difference_spec(b)[i].has(
                x,
                y,
            ) && #[trigger] a.difference_spec(b)[j].has(x, y)),
{
    let d = a.difference_spec(b);
    if !a.meets(b) {
        assert(d =~= seq![a]);
        assert forall|x: int, y: int| #[trigger] covered(d, x, y) <==> a.has(x, y) && !b.has(
            x,
            y,
        ) by {
            if a.has(x, y) {
                assert(d[0].has(x, y));
            }
        }
    } else {
        let y0 = if a.y_min >= b.y_min { a.y_min } else { b.y_min };
        let y1 = if a.y_max <= b.y_max { a.y_max } else { b.y_max };
        let n1: int = if a.y_min < b.y_min { 1 } else { 0 };
        let n2: int = n1 + if a.y_max > b.y_max { 1int } else { 0 };
        let n3: int = n2 + if a.x_min < b.x_min { 1int } else { 0 };
        let n4: int = n3 + if a.x_max > b.x_max { 1int } else { 0 };
        assert(d.len() == n4);
        assert forall|x: int, y: int| #[trigger] covered(d, x, y) <==> a.has(x, y) && !b.has(
            x,
            y,
        ) by {
            if a.has(x, y) && !b.has(x, y) {
                if y < b.y_min {
                    assert(d[0].has(x, y));
                } else if y > b.y_max {
                    assert(d[n1].has(x, y));
                } else if x < b.x_min {
                    assert(d[n2].has(x, y));
                } else {
                    assert(d[n3].has(x, y));
                }
            }
        }
    }
}

/// Law: two proper rectangles overlap exactly when they share a tile.
pub proof fn overlap_is_a_shared_tile(a: TileRect, b: TileRect)
    requires
        a.proper(),
        b.proper(),
    ensures
        a.meets(b) <==> exists|x: int, y: int| #[trigger] a.has(x, y) && b.has(x, y),
{
    if a.meets(b) {
        let x = if a.x_min >= b.x_min { a.x_min } else { b.x_min };
        let y = if a.y_min >= b.y_min { a.y_min } else { b.y_min };
        assert(a.has(x as int, y as int) && b.has(x as int, y as int));
    }
}

/// Law: a rectangle holds the tiles between its corners, both included; that of a single
/// tile holds that tile alone, and that of a view the tiles no farther off than its range.
pub proof fn rectangles_hold_their_tiles(r: TileRect, cx: u16, cy: u16, range: u16, x: u16, y: u16)
    ensures
        r.has(x as int, y as int) <==> !(x < r.x_min || x > r.x_max || y < r.y_min || y > r.y_max),
        TileRect::point_spec(cx, cy).has(x as int, y as int) <==> x == cx && y == cy,
        TileRect::view_spec(cx, cy, range).has(x as int, y as int) <==> {
            let dx = if x >= cx {
                x - cx
            } else {
                cx - x
            };
            let dy = if y >= cy {
                y - cy
            } else {
                cy - y
            };
            dx <= range && dy <= range
        },
{
}

/// Law: two rectangles meet unless one is wholly to one side of the other.
pub proof fn rectangles_meet_unless_apart(a: TileRect, b: TileRect)
    ensures
        a.meets(b) <==> !(a.x_max < b.x_min || b.x_max < a.x_min || a.y_max < b.y_min || b.y_max
            < a.y_min),
        a.meets(b) <==> b.meets(a),
{
}

} // verus!

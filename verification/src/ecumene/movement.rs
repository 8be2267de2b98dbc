//! Which steps a walker, swimmer or flyer can take.
//!
//! Passability is decided from the flags of each shape when a step is tested.
//! `passable_mask` lets shapes with one of its bits be entered although they
//! are `IMPASSABLE`; `can_fly` lets a creature settle on `HOVER_OVER` surfaces
//! that are near enough. Others walk past those as if they were not there.

use vstd::prelude::*;

use super::land_z::{abs_int, max_int};
use super::tile_provider::TileProvider;
use crate::coords::Heading;
use crate::vessel::tile_shape::{TileFlags, TileShape};

verus! {

/// Height a character occupies.
pub const CHARACTER_HEIGHT: i16 = 16;

/// Greatest climb of one step.
pub const CLIMB_HEIGHT: i8 = 2;

/// How far from a hover-over surface a flyer may be to settle on it.
pub const HOVER_SNAP_TOLERANCE: i16 = 25;

/// Whether the shape carries the hover-over flag.
pub open spec fn hovers(s: TileShape) -> bool {
    s.flag_bits() & TileFlags::HOVER_OVER != 0
}

/// Whether one may stand on the shape under the two overrides.
pub open spec fn shape_passable(s: TileShape, passable_mask: u64, can_fly: bool) -> bool {
    &&& !(s is Background)
    &&& if hovers(s) {
        can_fly
    } else {
        s.passable_with(passable_mask)
    }
}

/// Whether a tile shape may be stood on.
///
/// Hover-over shapes are for flyers only. A shape with a bit of a non-zero
/// `passable_mask` may be entered even if it is `IMPASSABLE`.
pub fn is_shape_passable(shape: &TileShape, passable_mask: u64, can_fly: bool) -> (b: bool)
    ensures
        b == shape_passable(*shape, passable_mask, can_fly),
{
    match *shape {
        TileShape::Slope { flags, .. } | TileShape::Surface { flags, .. } => {
            if flags & TileFlags::HOVER_OVER != 0 {
                return can_fly;
            }
            if passable_mask != 0 && flags & passable_mask != 0 {
                return true;
            }
            flags & TileFlags::IMPASSABLE == 0
        },
        TileShape::Background { .. } => false,
    }
}

/// Whether the shape takes part in walking: a slope, or a surface that is not
/// hovered over.
pub open spec fn solid(s: TileShape) -> bool {
    s is Slope || (s is Surface && !hovers(s))
}

/// Lowest height the walker at `z` may fall to, after the first `n` shapes: the
/// highest footing at or below `z`, and the foot of a slope one stands on.
pub open spec fn fall_limit(shapes: Seq<TileShape>, z: i8, n: int) -> i8
    decreases n,
{
    if n <= 0 {
        i8::MIN
    } else {
        let before = fall_limit(shapes, z, n - 1);
        let s = shapes[n - 1];
        if !solid(s) {
            before
        } else {
            let raised = if s.stand() <= z && s.stand() > before { s.stand() } else { before };
            if s is Slope && s.stand() == z && s.base() < raised {
                s.base()
            } else {
                raised
            }
        }
    }
}

/// Highest point under the walker at `z`, after the first `n` shapes: `z`, or
/// the top of a slope one stands on.
pub open spec fn reach_limit(shapes: Seq<TileShape>, z: i8, n: int) -> i8
    decreases n,
{
    if n <= 0 {
        z
    } else {
        let before = reach_limit(shapes, z, n - 1);
        let s = shapes[n - 1];
        if s is Slope && s.stand() == z && s.top() > before {
            s.top()
        } else {
            before
        }
    }
}

/// The greatest climb from `top`, within the range of heights.
pub open spec fn climb_from(top: i8) -> i8 {
    if top + CLIMB_HEIGHT > i8::MAX {
        i8::MAX
    } else {
        (top + CLIMB_HEIGHT) as i8
    }
}

/// The heights reachable from a source tile: the lowest one may fall to, and
/// the highest one may climb to.
///
/// `shapes` is the stack of the source tile. Hover-over surfaces do not count.
pub fn compute_source_range(shapes: &[TileShape], z: i8) -> (r: (i8, i8))
    ensures
        r.0 == fall_limit(shapes@, z, shapes@.len() as int),
        r.1 == climb_from(reach_limit(shapes@, z, shapes@.len() as int)),
{
    let mut z_low: i8 = i8::MIN;
    let mut z_high: i8 = z;
    let mut n: usize = 0;
    while n < shapes.len()
        invariant
            n <= shapes@.len(),
            z_low == fall_limit(shapes@, z, n as int),
            z_high == reach_limit(shapes@, z, n as int),
        decreases shapes@.len() - n,
    {
        match shapes[n] {
            TileShape::Surface { z_base, z_stand, flags } => {
                if flags & TileFlags::HOVER_OVER == 0 && z_stand <= z && z_stand > z_low {
                    z_low = z_stand;
                }
            },
            TileShape::Slope { z_base, z_stand, z_top, flags } => {
                if z_stand <= z && z_stand > z_low {
                    z_low = z_stand;
                }
                if z_stand == z {
                    if z_base < z_low {
                        z_low = z_base;
                    }
                    if z_top > z_high {
                        z_high = z_top;
                    }
                }
            },
            TileShape::Background { .. } => {},
        }
        n += 1;
    }
    let high: i8 = if z_high > i8::MAX - CLIMB_HEIGHT {
        i8::MAX
    } else {
        z_high + CLIMB_HEIGHT
    };
    (z_low, high)
}

/// Law: a walker never falls upwards and never climbs down: the reachable
/// range starts at or below `z` and ends at or above it.
pub proof fn source_range_holds_z(shapes: Seq<TileShape>, z: i8, n: int)
    ensures
        fall_limit(shapes, z, n) <= z,
        reach_limit(shapes, z, n) >= z,
        climb_from(reach_limit(shapes, z, n)) >= z,
    decreases n,
{
    if n > 0 {
        source_range_holds_z(shapes, z, n - 1);
    }
}

/// Greatest standing height among the first `n` shapes picked by `counts`, and
/// `floor` at the least.
pub open spec fn footing(
    shapes: Seq<TileShape>,
    counts: spec_fn(TileShape) -> bool,
    floor: int,
    n: int,
) -> int
    decreases n,
{
    if n <= 0 {
        floor
    } else {
        let before = footing(shapes, counts, floor, n - 1);
        if counts(shapes[n - 1]) {
            max_int(before, shapes[n - 1].stand() as int)
        } else {
            before
        }
    }
}

/// Of a height found before and a new one, the one nearer to `z`; the earlier
/// one where both are as near.
pub open spec fn nearer(z: int, found: Option<i8>, new: Option<i8>) -> Option<i8> {
    match (found, new) {
        (_, None) => found,
        (None, Some(_)) => new,
        (Some(a), Some(b)) => if abs_int(z - b) < abs_int(z - a) {
            new
        } else {
            found
        },
    }
}

/// The rules of a walk onto a tile.
pub struct Gait {
    pub z: int,
    pub z_low: int,
    pub z_high: int,
    pub passable_mask: u64,
    pub can_fly: bool,
}

/// Whether the walker can come down on the shape: it may be stood on, and its
/// foot (of a slope) or its top (of a surface) is not too high.
pub open spec fn landable(s: TileShape, g: Gait) -> bool {
    &&& solid(s)
    &&& shape_passable(s, g.passable_mask, g.can_fly)
    &&& if s is Slope {
        s.base() <= g.z_high
    } else {
        s.stand() <= g.z_high
    }
}

/// The footing under shape `i`, where one can stand between the two: shape `i`
/// is a ceiling high enough over everything below it, and the highest
/// footing below is one the walker can come down on.
pub open spec fn landing(shapes: Seq<TileShape>, g: Gait, i: int) -> Option<i8> {
    let floor = footing(shapes, |s: TileShape| solid(s), i8::MIN as int, i);
    if solid(shapes[i]) && shapes[i].base() - max_int(g.z_low, floor) >= CHARACTER_HEIGHT && (
    exists|j: int|
        0 <= j < i && landable(#[trigger] shapes[j], g) && shapes[j].stand() == floor) {
        Some(floor as i8)
    } else {
        None
    }
}

/// The landing nearest to `z` under the first `n` shapes.
pub open spec fn best_landing(shapes: Seq<TileShape>, g: Gait, n: int) -> Option<i8>
    decreases n,
{
    if n <= 0 {
        None
    } else {
        nearer(g.z, best_landing(shapes, g, n - 1), landing(shapes, g, n - 1))
    }
}

/// Whether a flyer settles on the shape.
pub open spec fn snaps(s: TileShape, g: Gait) -> bool {
    &&& g.can_fly
    &&& s is Surface
    &&& hovers(s)
    &&& abs_int(s.base() - g.z) <= HOVER_SNAP_TOLERANCE
}

pub open spec fn any_snap(shapes: Seq<TileShape>, g: Gait, n: int) -> bool {
    exists|i: int| 0 <= i < n && snaps(#[trigger] shapes[i], g)
}

/// Where a step ends: on the lowest surface of the stack that a flyer settles
/// on, else on the landing nearest to `z`.
pub open spec fn dest_height(shapes: Seq<TileShape>, g: Gait, r: Option<i8>) -> bool {
    if any_snap(shapes, g, shapes.len() as int) {
        exists|i: int| #[trigger]
            first_snap(shapes, g, i) && r == Some(shapes[i].base())
    } else {
        r == best_landing(shapes, g, shapes.len() as int)
    }
}

pub open spec fn first_snap(shapes: Seq<TileShape>, g: Gait, i: int) -> bool {
    0 <= i < shapes.len() && snaps(shapes[i], g) && !any_snap(shapes, g, i)
}

/// A step ends in one way.
pub proof fn lemma_one_height(shapes: Seq<TileShape>, g: Gait, a: Option<i8>, b: Option<i8>)
    requires
        dest_height(shapes, g, a),
        dest_height(shapes, g, b),
    ensures
        a == b,
{
    if any_snap(shapes, g, shapes.len() as int) {
        let i = choose|i: int| #[trigger]
            first_snap(shapes, g, i) && a == Some(shapes[i].base());
        let j = choose|j: int| #[trigger]
            first_snap(shapes, g, j) && b == Some(shapes[j].base());
        if i < j {
            assert(snaps(shapes[i], g));
        } else if j < i {
            assert(snaps(shapes[j], g));
        }
    }
}

/// The gait of a walker at `z` whose reachable range is `z_low` to `z_high`; one
/// who falls is taken to start at the foot of the range.
pub open spec fn gait(z: i8, z_low: i8, z_high: i8, passable_mask: u64, can_fly: bool) -> Gait {
    Gait {
        z: max_int(z as int, z_low as int),
        z_low: z_low as int,
        z_high: z_high as int,
        passable_mask,
        can_fly,
    }
}

fn abs_diff(a: i16, b: i16) -> (d: i16)
    requires
        -1000 <= a <= 1000,
        -1000 <= b <= 1000,
    ensures
        d == abs_int(a - b),
{
    if a < b {
        b - a
    } else {
        a - b
    }
}

fn pick_nearer(z: i8, found: Option<i8>, new: Option<i8>) -> (r: Option<i8>)
    ensures
        r == nearer(z as int, found, new),
{
    match (found, new) {
        (_, None) => found,
        (None, Some(_)) => new,
        (Some(a), Some(b)) => if abs_diff(z as i16, b as i16) < abs_diff(z as i16, a as i16) {
            new
        } else {
            found
        },
    }
}

proof fn lemma_footing_bounds(
    shapes: Seq<TileShape>,
    counts: spec_fn(TileShape) -> bool,
    floor: int,
    n: int,
)
    requires
        0 <= n <= shapes.len(),
        -128 <= floor <= 127,
    ensures
        floor <= footing(shapes, counts, floor, n) <= 127,
        forall|j: int|
            0 <= j < n && counts(#[trigger] shapes[j]) ==> shapes[j].stand() <= footing(
                shapes,
                counts,
                floor,
                n,
            ),
    decreases n,
{
    if n > 0 {
        lemma_footing_bounds(shapes, counts, floor, n - 1);
    }
}

/// The best standing height within the reachable range.
///
/// Looks for a footing with room for a character above it, and picks the one
/// nearest to `z`. A flyer settles on the first hover-over surface within
/// [`HOVER_SNAP_TOLERANCE`] instead. The last shape should be
/// [`TileShape::cap`], the ceiling over the topmost footing.
pub fn compute_dest_position(
    shapes_with_cap: &[TileShape],
    z: i8,
    z_low: i8,
    z_high: i8,
    passable_mask: u64,
    can_fly: bool,
) -> (r: Option<i8>)
    ensures
        dest_height(shapes_with_cap@, gait(z, z_low, z_high, passable_mask, can_fly), r),
{
    let shapes = shapes_with_cap;
    let ghost g = gait(z, z_low, z_high, passable_mask, can_fly);
    let ghost walk = |s: TileShape| solid(s);
    let start: i8 = if z < z_low {
        z_low
    } else {
        z
    };
    let mut floor: i8 = i8::MIN;
    let mut result: Option<i8> = None;
    let mut i: usize = 0;
    while i < shapes.len()
        invariant
            i <= shapes@.len(),
            shapes@ == shapes_with_cap@,
            g == gait(z, z_low, z_high, passable_mask, can_fly),
            g.z == start,
            walk == |s: TileShape| solid(s),
            floor == footing(shapes@, walk, i8::MIN as int, i as int),
            result == best_landing(shapes@, g, i as int),
            !any_snap(shapes@, g, i as int),
        decreases shapes@.len() - i,
    {
        let (base, stand, is_solid) = match shapes[i] {
            TileShape::Slope { z_base, z_stand, .. } => (z_base, z_stand, true),
            TileShape::Surface { z_base, z_stand, flags } => {
                if flags & TileFlags::HOVER_OVER != 0 {
                    if can_fly && abs_diff(z_base as i16, start as i16) <= HOVER_SNAP_TOLERANCE {
                        assert(snaps(shapes@[i as int], g));
                        assert(first_snap(shapes@, g, i as int));
                        assert(any_snap(shapes@, g, shapes@.len() as int));
                        return Some(z_base);
                    }
                    (z_base, z_stand, false)
                } else {
                    (z_base, z_stand, true)
                }
            },
            TileShape::Background { z_base, z_top } => (z_base, z_top, false),
        };
        assert(!any_snap(shapes@, g, i + 1)) by {
            if any_snap(shapes@, g, i + 1) {
                let k = choose|k: int| 0 <= k < i + 1 && snaps(#[trigger] shapes@[k], g);
                assert(k == i);
            }
        }
        if is_solid {
            let lowest: i8 = if floor > z_low {
                floor
            } else {
                z_low
            };
            if base as i16 - lowest as i16 >= CHARACTER_HEIGHT {
                let found = carries(shapes, i, floor, z_high, passable_mask, can_fly, Ghost(g));
                if found {
                    result = pick_nearer(start, result, Some(floor));
                }
            }
            if stand > floor {
                floor = stand;
            }
        }
        proof {
            assert(walk(shapes@[i as int]) == solid(shapes@[i as int]));
        }
        i += 1;
    }
    result
}

/// Whether one of the first `n` shapes has its footing at `floor` and can be
/// come down on.
fn carries(
    shapes: &[TileShape],
    n: usize,
    floor: i8,
    z_high: i8,
    passable_mask: u64,
    can_fly: bool,
    Ghost(g): Ghost<Gait>,
) -> (b: bool)
    requires
        n <= shapes@.len(),
        g.z_high == z_high,
        g.passable_mask == passable_mask,
        g.can_fly == can_fly,
    ensures
        b == exists|j: int|
            0 <= j < n && landable(#[trigger] shapes@[j], g) && shapes@[j].stand() == floor,
{
    let mut j: usize = 0;
    while j < n
        invariant
            j <= n <= shapes@.len(),
            g.z_high == z_high,
            g.passable_mask == passable_mask,
            g.can_fly == can_fly,
            forall|k: int|
                0 <= k < j ==> !(landable(#[trigger] shapes@[k], g) && shapes@[k].stand() == floor),
        decreases n - j,
    {
        let passable = is_shape_passable(&shapes[j], passable_mask, can_fly);
        let here = match shapes[j] {
            TileShape::Slope { z_base, z_stand, .. } => z_stand == floor && z_base <= z_high,
            TileShape::Surface { z_stand, flags, .. } => {
                flags & TileFlags::HOVER_OVER == 0 && z_stand == floor && z_stand <= z_high
            },
            TileShape::Background { .. } => false,
        };
        if passable && here {
            assert(landable(shapes@[j as int], g));
            return true;
        }
        j += 1;
    }
    false
}

/// Law: where a walk ends on a landing, no other landing under the same rules
/// is nearer to where it set out.
pub proof fn best_landing_is_nearest(shapes: Seq<TileShape>, g: Gait, n: int)
    requires
        0 <= n,
    ensures
        best_landing(shapes, g, n) is Some <==> exists|i: int|
            0 <= i < n && (#[trigger] landing(shapes, g, i)) is Some,
        best_landing(shapes, g, n) matches Some(b) ==> {
            &&& exists|i: int| 0 <= i < n && #[trigger] landing(shapes, g, i) == Some(b)
            &&& forall|i: int|
                0 <= i < n && (#[trigger] landing(shapes, g, i)) is Some ==> abs_int(g.z - b)
                    <= abs_int(g.z - landing(shapes, g, i)->0)
        },
    decreases n,
{
    if n > 0 {
        best_landing_is_nearest(shapes, g, n - 1);
        let l = landing(shapes, g, n - 1);
        if l is Some {
            assert(landing(shapes, g, n - 1) is Some);
        }
        if best_landing(shapes, g, n - 1) is Some {
            let i = choose|i: int|
                0 <= i < n - 1 && #[trigger] landing(shapes, g, i) == best_landing(
                    shapes,
                    g,
                    n - 1,
                );
            assert(landing(shapes, g, i) is Some);
        }
    }
}

/// Law: wherever a step ends on foot, there is a passable footing at that very
/// height and room for a character above it.
pub proof fn landing_has_headroom(shapes: Seq<TileShape>, g: Gait, i: int)
    requires
        0 <= i < shapes.len(),
        landing(shapes, g, i) is Some,
    ensures
        shapes[i].base() - (landing(shapes, g, i)->0) >= CHARACTER_HEIGHT,
        exists|j: int|
            0 <= j < i && shapes[j].stand() == (landing(shapes, g, i)->0) && shape_passable(
                #[trigger] shapes[j],
                g.passable_mask,
                g.can_fly,
            ),
{
    lemma_footing_bounds(shapes, |s: TileShape| solid(s), i8::MIN as int, i);
    let floor = footing(shapes, |s: TileShape| solid(s), i8::MIN as int, i);
    let j = choose|j: int|
        0 <= j < i && landable(#[trigger] shapes[j], g) && shapes[j].stand() == floor;
    assert(shape_passable(shapes[j], g.passable_mask, g.can_fly));
}


/// The tile one step from `c` along `d`, held on the map.
pub open spec fn stepped(c: u16, d: int) -> u16 {
    if c + d < 0 {
        0
    } else if c + d > u16::MAX {
        u16::MAX
    } else {
        (c + d) as u16
    }
}

pub(crate) fn step_coord(c: u16, d: i32) -> (r: u16)
    requires
        -1 <= d <= 1,
    ensures
        r == stepped(c, d as int),
{
    let t: i32 = c as i32 + d;
    if t < 0 {
        0
    } else if t > 0xFFFF {
        0xFFFF
    } else {
        t as u16
    }
}

/// Whether a flyer near `z_ref`, or anyone on foot, may stand on the shape.
pub open spec fn standable(s: TileShape, z_ref: int, passable_mask: u64, can_fly: bool) -> bool {
    if s is Surface && hovers(s) {
        can_fly && abs_int(s.stand() - z_ref) <= HOVER_SNAP_TOLERANCE
    } else {
        s.passable_with(passable_mask)
    }
}

/// The footing under shape `i`, where one can stand between the two.
pub open spec fn perch(
    shapes: Seq<TileShape>,
    z_hint: int,
    passable_mask: u64,
    can_fly: bool,
    i: int,
) -> Option<i8> {
    let floor = footing(shapes, |s: TileShape| !(s is Background), i8::MIN as int, i);
    if !(shapes[i] is Background) && shapes[i].base() - floor >= CHARACTER_HEIGHT && (exists|j: int|
        0 <= j < i && standable(#[trigger] shapes[j], z_hint, passable_mask, can_fly)
            && shapes[j].stand() == floor) {
        Some(floor as i8)
    } else {
        None
    }
}

/// The perch nearest to `z_hint` under the first `n` shapes.
pub open spec fn best_perch(
    shapes: Seq<TileShape>,
    z_hint: int,
    passable_mask: u64,
    can_fly: bool,
    n: int,
) -> Option<i8>
    decreases n,
{
    if n <= 0 {
        None
    } else {
        nearer(
            z_hint,
            best_perch(shapes, z_hint, passable_mask, can_fly, n - 1),
            perch(shapes, z_hint, passable_mask, can_fly, n - 1),
        )
    }
}

/// Whether `r` is the outcome of one step between two tiles, without a look at
/// the tiles beside the way.
pub open spec fn single_step<T: TileProvider>(
    provider: &T,
    passable_mask: u64,
    can_fly: bool,
    x: u16,
    y: u16,
    z: i8,
    direction: Heading,
    r: Option<i8>,
) -> bool {
    let source = provider.stack(x, y, direction);
    let dest = provider.stack(
        stepped(x, direction.dx()),
        stepped(y, direction.dy()),
        Heading::North,
    ).push(TileShape::cap_spec());
    let n = source.len() as int;
    dest_height(
        dest,
        gait(
            z,
            fall_limit(source, z, n),
            climb_from(reach_limit(source, z, n)),
            passable_mask,
            can_fly,
        ),
        r,
    )
}

/// Decides steps against a tile source.
pub struct MovementValidator<'a, T: TileProvider> {
    pub provider: &'a T,
    pub passable_mask: u64,
    pub can_fly: bool,
}

impl<'a, T: TileProvider> MovementValidator<'a, T> {
    /// Whether `r` is the outcome of a step that looks at no tile beside the way.
    pub open spec fn steps_to(
        &self,
        x: u16,
        y: u16,
        z: i8,
        direction: Heading,
        r: Option<i8>,
    ) -> bool {
        single_step(self.provider, self.passable_mask, self.can_fly, x, y, z, direction, r)
    }

    /// Whether such a step is blocked.
    pub open spec fn blocked(&self, x: u16, y: u16, z: i8, direction: Heading) -> bool {
        self.steps_to(x, y, z, direction, None)
    }

    /// Whether the source can be asked about the step's two tiles.
    pub open spec fn step_covered(&self, x: u16, y: u16, direction: Heading) -> bool {
        &&& self.provider.covers(x, y)
        &&& self.provider.covers(stepped(x, direction.dx()), stepped(y, direction.dy()))
    }

    /// Whether the source can be asked about all tiles that a step looks at.
    pub open spec fn all_covered(&self, x: u16, y: u16, direction: Heading) -> bool {
        &&& self.step_covered(x, y, direction)
        &&& direction.diagonal() ==> self.step_covered(
            x,
            y,
            Heading::at(direction.index_spec() + 1),
        )
        &&& direction.diagonal() ==> self.step_covered(
            x,
            y,
            Heading::at(direction.index_spec() - 1),
        )
    }

    /// Whether `r` is the outcome of a step: it is blocked where the way is, and
    /// a diagonal one where a cardinal step beside it is; else it ends where
    /// the way leads.
    pub open spec fn leads_to(
        &self,
        x: u16,
        y: u16,
        z: i8,
        direction: Heading,
        r: Option<i8>,
    ) -> bool {
        &&& r is None <==> (self.blocked(x, y, z, direction) || (direction.diagonal() && (
        self.blocked(x, y, z, Heading::at(direction.index_spec() + 1)) || self.blocked(
            x,
            y,
            z,
            Heading::at(direction.index_spec() - 1),
        ))))
        &&& r is Some ==> self.steps_to(x, y, z, direction, r)
    }

    /// A validator for creatures on foot: `IMPASSABLE` stops them and
    /// hover-over surfaces are not there for them.
    pub fn new(provider: &'a T) -> (v: Self)
        ensures
            v.provider == provider,
            v.passable_mask == 0,
            !v.can_fly,
    {
        MovementValidator { provider, passable_mask: 0, can_fly: false }
    }

    /// Lets shapes with a bit of `mask` be entered even if they are `IMPASSABLE`.
    pub fn with_passable_mask(self, mask: u64) -> (v: Self)
        ensures
            v.provider == self.provider,
            v.passable_mask == mask,
            v.can_fly == self.can_fly,
    {
        MovementValidator { provider: self.provider, passable_mask: mask, can_fly: self.can_fly }
    }

    /// Turns flight on or off.
    pub fn with_flying(self, flying: bool) -> (v: Self)
        ensures
            v.provider == self.provider,
            v.passable_mask == self.passable_mask,
            v.can_fly == flying,
    {
        MovementValidator {
            provider: self.provider,
            passable_mask: self.passable_mask,
            can_fly: flying,
        }
    }

    /// The standing height after a step from `(x, y, z)` along `direction`, or
    /// `None` where the step is blocked.
    ///
    /// A diagonal step also needs both cardinal steps beside it.
    pub fn test_step(&self, x: u16, y: u16, z: i8, direction: Heading) -> (r: Option<i8>)
        requires
            self.all_covered(x, y, direction),
        ensures
            self.leads_to(x, y, z, direction, r),
    {
        let dest = self.test_step_single(x, y, z, direction);
        proof {
            self.lemma_one_outcome(x, y, z, direction, dest);
        }
        if dest.is_none() {
            return None;
        }
        if !direction.is_diagonal() {
            return dest;
        }
        let right = self.test_step_single(x, y, z, direction.turn(1));
        let left = self.test_step_single(x, y, z, direction.turn(-1));
        proof {
            self.lemma_one_outcome(x, y, z, Heading::at(direction.index_spec() + 1), right);
            self.lemma_one_outcome(x, y, z, Heading::at(direction.index_spec() - 1), left);
        }
        if right.is_none() || left.is_none() {
            return None;
        }
        dest
    }

    /// A step has one outcome: where it is not blocked, it is not `None` too.
    proof fn lemma_one_outcome(&self, x: u16, y: u16, z: i8, direction: Heading, r: Option<i8>)
        requires
            self.steps_to(x, y, z, direction, r),
        ensures
            self.blocked(x, y, z, direction) <==> r is None,
    {
    }

    /// The standing height at `(x, y)` nearest to `z_hint`, or `None` where
    /// nobody can stand there.
    pub fn resolve_standing_z(&self, x: u16, y: u16, z_hint: i8, direction: Heading) -> (r: Option<
        i8,
    >)
        requires
            self.provider.covers(x, y),
        ensures
            ({
                let shapes = self.provider.stack(x, y, direction).push(TileShape::cap_spec());
                r == best_perch(
                    shapes,
                    z_hint as int,
                    self.passable_mask,
                    self.can_fly,
                    shapes.len() as int,
                )
            }),
    {
        let mut shapes = self.provider.query_tile_stack(x, y, direction);
        shapes.push(TileShape::cap());
        let ghost any = |s: TileShape| !(s is Background);
        let mut best: Option<i8> = None;
        let mut floor: i8 = i8::MIN;
        let mut i: usize = 0;
        while i < shapes.len()
            invariant
                i <= shapes@.len(),
                any == |s: TileShape| !(s is Background),
                floor == footing(shapes@, any, i8::MIN as int, i as int),
                best == best_perch(
                    shapes@,
                    z_hint as int,
                    self.passable_mask,
                    self.can_fly,
                    i as int,
                ),
            decreases shapes@.len() - i,
        {
            let (base, stand, present) = match shapes[i] {
                TileShape::Slope { z_base, z_stand, .. } => (z_base, z_stand, true),
                TileShape::Surface { z_base, z_stand, .. } => (z_base, z_stand, true),
                TileShape::Background { z_base, z_top } => (z_base, z_top, false),
            };
            if present {
                if base as i16 - floor as i16 >= CHARACTER_HEIGHT {
                    if self.perched(&shapes, i, floor, z_hint) {
                        best = pick_nearer(z_hint, best, Some(floor));
                    }
                }
                if stand > floor {
                    floor = stand;
                }
            }
            proof {
                assert(any(shapes@[i as int]) == !(shapes@[i as int] is Background));
            }
            i += 1;
        }
        best
    }

    /// Whether one of the first `n` shapes has its footing at `floor` and may be
    /// stood on.
    fn perched(&self, shapes: &Vec<TileShape>, n: usize, floor: i8, z_hint: i8) -> (b: bool)
        requires
            n <= shapes@.len(),
        ensures
            b == exists|j: int|
                0 <= j < n && standable(
                    #[trigger] shapes@[j],
                    z_hint as int,
                    self.passable_mask,
                    self.can_fly,
                ) && shapes@[j].stand() == floor,
    {
        let mut j: usize = 0;
        while j < n
            invariant
                j <= n <= shapes@.len(),
                forall|k: int|
                    0 <= k < j ==> !(standable(
                        #[trigger] shapes@[k],
                        z_hint as int,
                        self.passable_mask,
                        self.can_fly,
                    ) && shapes@[k].stand() == floor),
            decreases n - j,
        {
            let here = match shapes[j] {
                TileShape::Slope { z_stand, .. } => {
                    z_stand == floor && self.is_passable(&shapes[j])
                },
                TileShape::Surface { z_stand, flags, .. } => {
                    z_stand == floor && self.is_surface_passable(
                        flags,
                        z_stand as i16,
                        z_hint as i16,
                    )
                },
                TileShape::Background { .. } => false,
            };
            if here {
                assert(standable(
                    shapes@[j as int],
                    z_hint as int,
                    self.passable_mask,
                    self.can_fly,
                ));
                return true;
            }
            j += 1;
        }
        false
    }

    fn is_passable(&self, shape: &TileShape) -> (b: bool)
        ensures
            b == shape.passable_with(self.passable_mask),
    {
        shape.is_passable_with(self.passable_mask)
    }

    /// Whether a surface with these flags may be stood on: a hover-over one by
    /// flyers near it, any other by the rules of the ground.
    fn is_surface_passable(&self, flags: u64, z_stand: i16, z_ref: i16) -> (b: bool)
        requires
            -128 <= z_stand <= 127,
            -128 <= z_ref <= 127,
        ensures
            b == if flags & TileFlags::HOVER_OVER != 0 {
                self.can_fly && abs_int(z_stand - z_ref) <= HOVER_SNAP_TOLERANCE
            } else {
                (self.passable_mask != 0 && flags & self.passable_mask != 0) || flags
                    & TileFlags::IMPASSABLE == 0
            },
    {
        if flags & TileFlags::HOVER_OVER != 0 {
            return self.can_fly && abs_diff(z_stand, z_ref) <= HOVER_SNAP_TOLERANCE;
        }
        if self.passable_mask != 0 && flags & self.passable_mask != 0 {
            return true;
        }
        flags & TileFlags::IMPASSABLE == 0
    }

    /// One step, without a look at the tiles beside the way.
    fn test_step_single(&self, x: u16, y: u16, z: i8, direction: Heading) -> (r: Option<i8>)
        requires
            self.step_covered(x, y, direction),
        ensures
            self.steps_to(x, y, z, direction, r),
    {
        let (dx, dy) = direction.delta();
        let to_x: u16 = step_coord(x, dx);
        let to_y: u16 = step_coord(y, dy);
        let source = self.provider.query_tile_stack(x, y, direction);
        let (z_low, z_high) = compute_source_range(source.as_slice(), z);
        let mut dest = self.provider.query_tile_stack(to_x, to_y, Heading::North);
        dest.push(TileShape::cap());
        compute_dest_position(
            dest.as_slice(),
            z,
            z_low,
            z_high,
            self.passable_mask,
            self.can_fly,
        )
    }
}

} // verus!

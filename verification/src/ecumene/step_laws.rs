//! What a step on foot, through water or in the air amounts to, in the heights and flags of
//! the shapes that it leads over.

use vstd::prelude::*;

use super::movement::{
    best_landing, best_perch, climb_from, dest_height, fall_limit, footing, gait, landable, landing,
    perch, reach_limit, single_step, snaps, solid, standable, stepped, Gait, MovementValidator,
};
use super::tile_provider::TileProvider;
use crate::coords::Heading;
use crate::vessel::tile_shape::TileShape;

verus! {

/// The lowest point of a shape.
pub open spec fn foot(s: TileShape) -> int {
    match s {
        TileShape::Slope { z_base, .. } => z_base as int,
        TileShape::Surface { z_base, .. } => z_base as int,
        TileShape::Background { z_base, .. } => z_base as int,
    }
}

/// The height at which one stands on a shape.
pub open spec fn height(s: TileShape) -> int {
    match s {
        TileShape::Slope { z_stand, .. } => z_stand as int,
        TileShape::Surface { z_stand, .. } => z_stand as int,
        TileShape::Background { z_top, .. } => z_top as int,
    }
}

/// The lowest point at which a walker comes onto a shape: the foot of a slope, the top of
/// a surface.
pub open spec fn entry(s: TileShape) -> int {
    match s {
        TileShape::Slope { z_base, .. } => z_base as int,
        TileShape::Surface { z_stand, .. } => z_stand as int,
        TileShape::Background { z_top, .. } => z_top as int,
    }
}

/// Whether a walker can neither pass through a shape nor stand in it: ground, stairs and
/// surfaces, but no scenery and no surfaces to hover over.
pub open spec fn is_massive(s: TileShape) -> bool {
    match s {
        TileShape::Slope { .. } => true,
        TileShape::Surface { flags, .. } => flags & 0x200_0000 == 0,
        TileShape::Background { .. } => false,
    }
}

/// Whether a shape with these flags may be entered: what hovers only by those who fly,
/// what is impassable only with a flag of the mask.
pub open spec fn may_enter(flags: u64, mask: u64, fly: bool) -> bool {
    if flags & 0x200_0000 != 0 {
        fly
    } else {
        flags & 0x40 == 0 || flags & mask != 0
    }
}

/// Whether a shape bears one who stands on it.
pub open spec fn bears(s: TileShape, mask: u64, fly: bool) -> bool {
    match s {
        TileShape::Slope { flags, .. } => may_enter(flags, mask, fly),
        TileShape::Surface { flags, .. } => flags & 0x200_0000 == 0 && may_enter(flags, mask, fly),
        TileShape::Background { .. } => false,
    }
}

/// Whether shape `j` is a footing at height `b` that is entered no higher than `high`.
pub open spec fn footing_at(
    shapes: Seq<TileShape>,
    j: int,
    b: int,
    high: int,
    mask: u64,
    fly: bool,
) -> bool {
    &&& 0 <= j < shapes.len()
    &&& bears(shapes[j], mask, fly)
    &&& height(shapes[j]) == b
    &&& entry(shapes[j]) <= high
}

/// Whether there is room for a character from height `b` up, who comes in above `low`:
/// each shape is at or under the feet, or leaves sixteen units free; so does the end of
/// the world at 127.
pub open spec fn has_room(shapes: Seq<TileShape>, b: int, low: int) -> bool {
    &&& b + 16 <= 127
    &&& low + 16 <= 127
    &&& forall|k: int|
        0 <= k < shapes.len() && is_massive(#[trigger] shapes[k]) ==> height(shapes[k]) <= b || (
        foot(shapes[k]) >= b + 16 && foot(shapes[k]) >= low + 16)
}

/// Whether one can come to stand at height `b`.
pub open spec fn can_stand(
    shapes: Seq<TileShape>,
    b: int,
    low: int,
    high: int,
    mask: u64,
    fly: bool,
) -> bool {
    &&& exists|j: int| #[trigger] footing_at(shapes, j, b, high, mask, fly)
    &&& has_room(shapes, b, low)
}

/// Whether the shapes are listed from bottom to top.
pub open spec fn from_bottom_up(shapes: Seq<TileShape>) -> bool {
    forall|i: int, j: int|
        0 <= i <= j < shapes.len() ==> foot(#[trigger] shapes[i]) <= foot(#[trigger] shapes[j])
}

/// Whether no shape stands under its own foot.
pub open spec fn upright(shapes: Seq<TileShape>) -> bool {
    forall|i: int| 0 <= i < shapes.len() ==> foot(#[trigger] shapes[i]) <= height(shapes[i])
}

pub open spec fn apart(a: int, b: int) -> int {
    if a >= b {
        a - b
    } else {
        b - a
    }
}

/// Whether a flyer at `z` settles on a shape: a surface to hover over within 25 units.
pub open spec fn hovered(s: TileShape, z: int) -> bool {
    match s {
        TileShape::Surface { z_base, flags, .. } => flags & 0x200_0000 != 0 && apart(
            z_base as int,
            z,
        ) <= 25,
        _ => false,
    }
}

proof fn lemma_words(s: TileShape, g: Gait)
    ensures
        s.base() == foot(s),
        s.stand() == height(s),
        solid(s) <==> is_massive(s),
        landable(s, g) <==> bears(s, g.passable_mask, g.can_fly) && entry(s) <= g.z_high,
        snaps(s, g) <==> g.can_fly && hovered(s, g.z),
{
    let mask = g.passable_mask;
    match s {
        TileShape::Slope { flags, .. } => {
            assert(flags & 0 == 0) by (bit_vector);
        },
        TileShape::Surface { flags, .. } => {
            assert(flags & 0 == 0) by (bit_vector);
        },
        TileShape::Background { .. } => {
            assert(0u64 & 0x200_0000u64 == 0) by (bit_vector);
        },
    }
}

proof fn lemma_footing(shapes: Seq<TileShape>, n: int)
    requires
        0 <= n <= shapes.len(),
    ensures
        ({
            let f = footing(shapes, |s: TileShape| solid(s), i8::MIN as int, n);
            &&& -128 <= f <= 127
            &&& forall|j: int|
                0 <= j < n && solid(#[trigger] shapes[j]) ==> shapes[j].stand() <= f
            &&& f > -128 ==> exists|j: int|
                0 <= j < n && solid(#[trigger] shapes[j]) && shapes[j].stand() == f
            &&& n > 0 ==> footing(shapes, |s: TileShape| solid(s), i8::MIN as int, n - 1) <= f
        }),
    decreases n,
{
    if n > 0 {
        lemma_footing(shapes, n - 1);
    }
}

proof fn lemma_footing_grows(shapes: Seq<TileShape>, m: int, n: int)
    requires
        0 <= m <= n <= shapes.len(),
    ensures
        footing(shapes, |s: TileShape| solid(s), i8::MIN as int, m) <= footing(
            shapes,
            |s: TileShape| solid(s),
            i8::MIN as int,
            n,
        ),
    decreases n - m,
{
    if m < n {
        lemma_footing_grows(shapes, m, n - 1);
        lemma_footing(shapes, n);
    }
}

/// The first shape that leaves room over height `b`.
proof fn first_above(shapes: Seq<TileShape>, b: int, k: int) -> (i: int)
    requires
        0 <= k < shapes.len(),
        is_massive(shapes.last()) && foot(shapes.last()) >= b + 16,
    ensures
        k <= i < shapes.len(),
        is_massive(shapes[i]) && foot(shapes[i]) >= b + 16,
        forall|m: int| k <= m < i ==> !(is_massive(#[trigger] shapes[m]) && foot(shapes[m]) >= b + 16),
    decreases shapes.len() - k,
{
    if is_massive(shapes[k]) && foot(shapes[k]) >= b + 16 {
        k
    } else {
        assert(k < shapes.len() - 1);
        first_above(shapes, b, k + 1)
    }
}

/// Of the landings, the nearest is taken, the lower of two that are as near.
proof fn lemma_nearest_landing(shapes: Seq<TileShape>, g: Gait, n: int)
    requires
        0 <= n <= shapes.len(),
    ensures
        best_landing(shapes, g, n) is Some <==> exists|i: int|
            0 <= i < n && (#[trigger] landing(shapes, g, i)) is Some,
        best_landing(shapes, g, n) matches Some(b) ==> {
            &&& exists|i: int| 0 <= i < n && #[trigger] landing(shapes, g, i) == Some(b)
            &&& forall|i: int|
                0 <= i < n && (#[trigger] landing(shapes, g, i)) is Some ==> {
                    let c = landing(shapes, g, i)->0;
                    &&& apart(g.z, b as int) <= apart(g.z, c as int)
                    &&& apart(g.z, b as int) == apart(g.z, c as int) ==> b <= c
                }
        },
    decreases n,
{
    if n > 0 {
        lemma_nearest_landing(shapes, g, n - 1);
        let l = landing(shapes, g, n - 1);
        let before = best_landing(shapes, g, n - 1);
        assert forall|i: int| 0 <= i < n - 1 && (#[trigger] landing(shapes, g, i)) is Some && l is Some
            implies landing(shapes, g, i)->0 <= l->0 by {
            lemma_footing_grows(shapes, i, n - 1);
            lemma_footing(shapes, i);
            lemma_footing(shapes, n - 1);
        }
        if l is Some {
            assert(landing(shapes, g, n - 1) is Some);
        }
        if before is Some {
            let i = choose|i: int| 0 <= i < n - 1 && #[trigger] landing(shapes, g, i) == before;
            assert(landing(shapes, g, i) is Some);
        }
    }
}

/// A landing is a place to stand.
proof fn lemma_landing_stands(shapes: Seq<TileShape>, g: Gait, i: int)
    requires
        0 <= i <= shapes.len(),
        landing(shapes.push(TileShape::cap_spec()), g, i) is Some,
    ensures
        exists|j: int| #[trigger]
            footing_at(
                shapes,
                j,
                (landing(shapes.push(TileShape::cap_spec()), g, i)->0) as int,
                g.z_high,
                g.passable_mask,
                g.can_fly,
            ),
        from_bottom_up(shapes) ==> has_room(
            shapes,
            (landing(shapes.push(TileShape::cap_spec()), g, i)->0) as int,
            g.z_low,
        ),
{
    let all = shapes.push(TileShape::cap_spec());
    let f = footing(all, |s: TileShape| solid(s), i8::MIN as int, i);
    lemma_footing(all, i);
    let j = choose|j: int| 0 <= j < i && landable(#[trigger] all[j], g) && all[j].stand() == f;
    lemma_words(all[j], g);
    assert(shapes[j] == all[j]);
    assert(footing_at(
        shapes,
        j,
        (landing(all, g, i)->0) as int,
        g.z_high,
        g.passable_mask,
        g.can_fly,
    ));
    lemma_words(all[i], g);
    if from_bottom_up(shapes) {
        assert forall|k: int| 0 <= k < shapes.len() && is_massive(#[trigger] shapes[k]) implies height(
            shapes[k],
        ) <= f || (foot(shapes[k]) >= f + 16 && foot(shapes[k]) >= g.z_low + 16) by {
            lemma_words(all[k], g);
            assert(all[k] == shapes[k]);
            if k >= i {
                assert(all[i] == shapes[i]);
                assert(foot(shapes[i]) <= foot(shapes[k]));
            }
        }
    }
}

/// Where one can stand, there is a landing.
proof fn lemma_stand_lands(shapes: Seq<TileShape>, g: Gait, b: int)
    requires
        from_bottom_up(shapes),
        upright(shapes),
        can_stand(shapes, b, g.z_low, g.z_high, g.passable_mask, g.can_fly),
    ensures
        exists|i: int|
            0 <= i <= shapes.len() && #[trigger] landing(
                shapes.push(TileShape::cap_spec()),
                g,
                i,
            ) == Some(b as i8),
        -128 <= b <= 127,
{
    let cap = TileShape::cap_spec();
    let all = shapes.push(cap);
    assert(0u64 & 0x200_0000u64 == 0) by (bit_vector);
    let j = choose|j: int| #[trigger]
        footing_at(shapes, j, b, g.z_high, g.passable_mask, g.can_fly);
    assert(all.last() == cap);
    let i = first_above(all, b, 0);
    let f = footing(all, |s: TileShape| solid(s), i8::MIN as int, i);
    lemma_footing(all, i);
    assert(all[j] == shapes[j]);
    lemma_words(all[j], g);
    lemma_words(all[i], g);
    assert(foot(shapes[j]) <= height(shapes[j]));
    if i < shapes.len() {
        assert(all[i] == shapes[i]);
        if i <= j {
            assert(foot(shapes[i]) <= foot(shapes[j]));
        }
    }
    assert(j < i);
    assert forall|k: int| 0 <= k < i && solid(#[trigger] all[k]) implies all[k].stand() <= b by {
        lemma_words(all[k], g);
        assert(all[k] == shapes[k]);
    }
    assert(f == b) by {
        if f > b {
            let k = choose|k: int| 0 <= k < i && solid(#[trigger] all[k]) && all[k].stand() == f;
            assert(all[k].stand() <= b);
        }
        assert(solid(all[j])) by {
            assert(landable(all[j], g));
        }
    }
    assert(landable(all[j], g) && all[j].stand() == f);
    assert(landing(all, g, i) == Some(b as i8));
}

/// Law: one who neither flies nor finds a surface to hover over comes to stand on a shape
/// that may be entered, whose top, or whose foot if it is a slope, is no higher than the
/// climb; and with sixteen units free from there up. Where there is no such place the way
/// is blocked; of several the one nearest to where one set out is taken, the lower one of
/// two that are as near. One who falls sets out from as deep as the fall goes.
pub proof fn walkers_stand_where_there_is_room(
    shapes: Seq<TileShape>,
    z: i8,
    low: i8,
    high: i8,
    mask: u64,
    fly: bool,
    r: Option<i8>,
)
    requires
        from_bottom_up(shapes),
        upright(shapes),
        fly ==> forall|i: int|
            0 <= i < shapes.len() ==> !hovered(
                #[trigger] shapes[i],
                if z >= low {
                    z as int
                } else {
                    low as int
                },
            ),
        dest_height(shapes.push(TileShape::cap_spec()), gait(z, low, high, mask, fly), r),
    ensures
        r is Some <==> exists|b: int| #[trigger]
            can_stand(shapes, b, low as int, high as int, mask, fly),
        r matches Some(b) ==> can_stand(shapes, b as int, low as int, high as int, mask, fly),
        r matches Some(b) ==> forall|c: int| #[trigger]
            can_stand(shapes, c, low as int, high as int, mask, fly) ==> {
                let from = if z >= low {
                    z as int
                } else {
                    low as int
                };
                &&& apart(from, b as int) <= apart(from, c)
                &&& apart(from, b as int) == apart(from, c) ==> b <= c
            },
{
    let g = gait(z, low, high, mask, fly);
    let all = shapes.push(TileShape::cap_spec());
    lemma_no_snap(shapes, g);
    lemma_nearest_landing(all, g, all.len() as int);
    assert(r == best_landing(all, g, all.len() as int));
    if let Some(b) = r {
        let i = choose|i: int| 0 <= i < all.len() && #[trigger] landing(all, g, i) == Some(b);
        lemma_landing_stands(shapes, g, i);
        assert(can_stand(shapes, b as int, low as int, high as int, mask, fly));
        assert forall|c: int| #[trigger]
            can_stand(shapes, c, low as int, high as int, mask, fly) implies {
            let from = g.z;
            &&& apart(from, b as int) <= apart(from, c)
            &&& apart(from, b as int) == apart(from, c) ==> b <= c
        } by {
            lemma_stand_lands(shapes, g, c);
            let k = choose|k: int|
                0 <= k <= shapes.len() && #[trigger] landing(all, g, k) == Some(c as i8);
            assert(landing(all, g, k) is Some);
        }
    }
    if exists|b: int| #[trigger] can_stand(shapes, b, low as int, high as int, mask, fly) {
        let b = choose|b: int| #[trigger]
            can_stand(shapes, b, low as int, high as int, mask, fly);
        lemma_stand_lands(shapes, g, b);
        let k = choose|k: int|
            0 <= k <= shapes.len() && #[trigger] landing(all, g, k) == Some(b as i8);
        assert(landing(all, g, k) is Some);
    }
}

proof fn lemma_no_snap(shapes: Seq<TileShape>, g: Gait)
    requires
        g.can_fly ==> forall|i: int| 0 <= i < shapes.len() ==> !hovered(#[trigger] shapes[i], g.z),
    ensures
        forall|i: int|
            0 <= i <= shapes.len() ==> !snaps(
                #[trigger] shapes.push(TileShape::cap_spec())[i],
                g,
            ),
{
    let all = shapes.push(TileShape::cap_spec());
    assert(0u64 & 0x200_0000u64 == 0) by (bit_vector);
    assert forall|i: int| 0 <= i <= shapes.len() implies !snaps(#[trigger] all[i], g) by {
        lemma_words(all[i], g);
        if i < shapes.len() {
            assert(all[i] == shapes[i]);
        }
    }
}

/// Law: whatever the order of the shapes, a step on foot ends on one that may be entered,
/// at the height at which one stands on it, and that begins no higher than the climb. So
/// a tile all of whose shapes begin higher is blocked.
pub proof fn nobody_climbs_too_high(
    shapes: Seq<TileShape>,
    z: i8,
    low: i8,
    high: i8,
    mask: u64,
    r: Option<i8>,
)
    requires
        dest_height(shapes.push(TileShape::cap_spec()), gait(z, low, high, mask, false), r),
    ensures
        r matches Some(b) ==> exists|j: int| #[trigger]
            footing_at(shapes, j, b as int, high as int, mask, false),
        (forall|j: int| 0 <= j < shapes.len() ==> entry(#[trigger] shapes[j]) > high) ==> r is None,
{
    let g = gait(z, low, high, mask, false);
    let all = shapes.push(TileShape::cap_spec());
    lemma_no_snap(shapes, g);
    lemma_nearest_landing(all, g, all.len() as int);
    if let Some(b) = r {
        let i = choose|i: int| 0 <= i < all.len() && #[trigger] landing(all, g, i) == Some(b);
        lemma_landing_stands(shapes, g, i);
        let j = choose|j: int| #[trigger]
            footing_at(shapes, j, b as int, high as int, mask, false);
        assert(entry(shapes[j]) <= high);
    }
}

/// Law: a flyer settles on the first surface of the stack that is to hover over and within
/// 25 units of where the flight set out, at its foot.
pub proof fn flyers_settle_on_what_hovers(
    shapes: Seq<TileShape>,
    z: i8,
    low: i8,
    high: i8,
    mask: u64,
    i: int,
    r: Option<i8>,
)
    requires
        0 <= i < shapes.len(),
        hovered(
            shapes[i],
            if z >= low {
                z as int
            } else {
                low as int
            },
        ),
        forall|k: int|
            0 <= k < i ==> !hovered(
                #[trigger] shapes[k],
                if z >= low {
                    z as int
                } else {
                    low as int
                },
            ),
        dest_height(shapes, gait(z, low, high, mask, true), r),
    ensures
        r matches Some(b) && b == foot(shapes[i]),
{
    let g = gait(z, low, high, mask, true);
    lemma_words(shapes[i], g);
    assert(snaps(shapes[i], g));
    assert(super::movement::any_snap(shapes, g, shapes.len() as int));
    let k = choose|k: int| #[trigger]
        super::movement::first_snap(shapes, g, k) && r == Some(shapes[k].base());
    lemma_words(shapes[k], g);
    if k < i {
        assert(!hovered(shapes[k], g.z));
    }
    if i < k {
        assert(snaps(shapes[i], g));
    }
}

/// Law: one climbs two units from where one stands, or from the top of a slope that one
/// stands on, and not higher than 127.
pub proof fn climbs_are_small(shapes: Seq<TileShape>, z: i8)
    ensures
        ({
            let high = climb_from(reach_limit(shapes, z, shapes.len() as int));
            &&& high >= z + 2 || high == 127
            &&& forall|i: int|
                0 <= i < shapes.len() ==> (#[trigger] shapes[i] matches TileShape::Slope {
                    z_stand,
                    z_top,
                    ..
                } ==> (z_stand == z ==> high >= z_top + 2 || high == 127))
            &&& high <= z + 2 || exists|i: int|
                0 <= i < shapes.len() && (#[trigger] shapes[i] matches TileShape::Slope {
                    z_stand,
                    z_top,
                    ..
                } && z_stand == z && high <= z_top + 2)
        }),
{
    lemma_reach(shapes, z, shapes.len() as int);
}

proof fn lemma_reach(shapes: Seq<TileShape>, z: i8, n: int)
    requires
        0 <= n <= shapes.len(),
    ensures
        ({
            let top = reach_limit(shapes, z, n);
            &&& top >= z
            &&& forall|i: int|
                0 <= i < n ==> (#[trigger] shapes[i] matches TileShape::Slope { z_stand, z_top, .. }
                    ==> (z_stand == z ==> top >= z_top))
            &&& top == z || exists|i: int|
                0 <= i < n && (#[trigger] shapes[i] matches TileShape::Slope { z_stand, z_top, .. }
                    && z_stand == z && top == z_top)
        }),
    decreases n,
{
    if n > 0 {
        lemma_reach(shapes, z, n - 1);
        let before = reach_limit(shapes, z, n - 1);
        let top = reach_limit(shapes, z, n);
        if top == before {
            if top != z {
                let i = choose|i: int|
                    0 <= i < n - 1 && (#[trigger] shapes[i] matches TileShape::Slope {
                        z_stand,
                        z_top,
                        ..
                    } && z_stand == z && top == z_top);
                assert(0 <= i < n);
            }
        } else {
            assert(shapes[n - 1] matches TileShape::Slope { z_stand, z_top, .. } && z_stand == z
                && top == z_top);
        }
    }
}

/// Law: one falls no deeper than the highest footing at or under the feet, unless one
/// stands on a slope; and never deeper than there is something to fall on. On a slope
/// alone one goes down to its foot.
pub proof fn falls_end_on_something(shapes: Seq<TileShape>, z: i8)
    ensures
        ({
            let low = fall_limit(shapes, z, shapes.len() as int);
            &&& low <= z
            &&& low == -128 || exists|i: int|
                0 <= i < shapes.len() && is_massive(#[trigger] shapes[i]) && (height(shapes[i])
                    == low || (shapes[i] is Slope && height(shapes[i]) == z && foot(shapes[i])
                    == low))
            &&& (forall|i: int|
                0 <= i < shapes.len() && (#[trigger] shapes[i]) is Slope ==> height(shapes[i]) != z)
                ==> forall|i: int|
                0 <= i < shapes.len() && is_massive(#[trigger] shapes[i]) && height(shapes[i]) <= z
                    ==> height(shapes[i]) <= low
            &&& shapes.len() == 1 && shapes[0] is Slope && height(shapes[0]) == z && foot(shapes[0])
                <= z ==> low == foot(shapes[0])
        }),
{
    lemma_fall(shapes, z, shapes.len() as int);
    if shapes.len() == 1 {
        reveal_with_fuel(fall_limit, 2);
    }
}

proof fn lemma_fall(shapes: Seq<TileShape>, z: i8, n: int)
    requires
        0 <= n <= shapes.len(),
    ensures
        ({
            let low = fall_limit(shapes, z, n);
            &&& low <= z
            &&& low == -128 || exists|i: int|
                0 <= i < n && is_massive(#[trigger] shapes[i]) && (height(shapes[i]) == low || (
                shapes[i] is Slope && height(shapes[i]) == z && foot(shapes[i]) == low))
            &&& (forall|i: int|
                0 <= i < n && (#[trigger] shapes[i]) is Slope ==> height(shapes[i]) != z)
                ==> forall|i: int|
                0 <= i < n && is_massive(#[trigger] shapes[i]) && height(shapes[i]) <= z ==> height(
                    shapes[i],
                ) <= low
        }),
    decreases n,
{
    if n > 0 {
        lemma_fall(shapes, z, n - 1);
        let g = gait(z, z, z, 0, false);
        lemma_words(shapes[n - 1], g);
        let low = fall_limit(shapes, z, n);
        let before = fall_limit(shapes, z, n - 1);
        if low == before && low != -128 {
            let i = choose|i: int|
                0 <= i < n - 1 && is_massive(#[trigger] shapes[i]) && (height(shapes[i]) == low || (
                shapes[i] is Slope && height(shapes[i]) == z && foot(shapes[i]) == low));
            assert(0 <= i < n && is_massive(shapes[i]));
        }
        if low != before {
            assert(is_massive(shapes[n - 1]));
        }
    }
}

/// Law: a step leads to the next tile in its direction, as long as that is on the map.
pub proof fn steps_lead_to_the_next_tile(c: u16, d: int)
    requires
        -1 <= d <= 1,
    ensures
        0 <= c + d <= 65535 ==> stepped(c, d) == c + d,
        !(0 <= c + d <= 65535) ==> stepped(c, d) == c,
{
}

/// Law: a step on foot that is not blocked ends at a footing of the next tile that begins
/// no more than two units over where one stood, or over the top of a slope that one stood
/// on, with sixteen units free above it.
pub proof fn steps_end_on_a_footing<T: TileProvider>(
    provider: &T,
    mask: u64,
    x: u16,
    y: u16,
    z: i8,
    h: Heading,
    b: i8,
)
    requires
        single_step(provider, mask, false, x, y, z, h, Some(b)),
        0 <= x + h.dx() <= 65535,
        0 <= y + h.dy() <= 65535,
        from_bottom_up(
            provider.stack((x + h.dx()) as u16, (y + h.dy()) as u16, Heading::North),
        ),
    ensures
        ({
            let here = provider.stack(x, y, h);
            let there = provider.stack((x + h.dx()) as u16, (y + h.dy()) as u16, Heading::North);
            &&& exists|j: int, high: int|
                {
                    &&& #[trigger] footing_at(there, j, b as int, high, mask, false)
                    &&& high <= z + 2 || exists|i: int|
                        0 <= i < here.len() && (#[trigger] here[i] matches TileShape::Slope {
                            z_stand,
                            z_top,
                            ..
                        } && z_stand == z && high <= z_top + 2)
                }
            &&& has_room(there, b as int, -128)
        }),
{
    let here = provider.stack(x, y, h);
    let there = provider.stack((x + h.dx()) as u16, (y + h.dy()) as u16, Heading::North);
    assert(-1 <= h.dx() <= 1 && -1 <= h.dy() <= 1);
    steps_lead_to_the_next_tile(x, h.dx());
    steps_lead_to_the_next_tile(y, h.dy());
    let n = here.len() as int;
    let low = fall_limit(here, z, n);
    let high = climb_from(reach_limit(here, z, n));
    let g = gait(z, low, high, mask, false);
    let all = there.push(TileShape::cap_spec());
    climbs_are_small(here, z);
    lemma_no_snap(there, g);
    lemma_nearest_landing(all, g, all.len() as int);
    let i = choose|i: int| 0 <= i < all.len() && #[trigger] landing(all, g, i) == Some(b);
    lemma_landing_stands(there, g, i);
    let j = choose|j: int| #[trigger]
        footing_at(there, j, b as int, high as int, mask, false);
    assert(footing_at(there, j, b as int, high as int, mask, false));
    assert(has_room(there, b as int, low as int));
    assert(has_room(there, b as int, -128)) by {
        assert forall|k: int| 0 <= k < there.len() && is_massive(#[trigger] there[k]) implies height(
            there[k],
        ) <= b || (foot(there[k]) >= b + 16 && foot(there[k]) >= -128 + 16) by {}
    }
}

/// Law: a diagonal step is taken only where both of the cardinal steps that it is made of
/// can be taken, and then ends where it leads by itself; a cardinal step needs no other.
pub proof fn diagonal_steps_need_both_sides<'a, T: TileProvider>(
    v: &MovementValidator<'a, T>,
    x: u16,
    y: u16,
    z: i8,
    h: Heading,
    along: Heading,
    across: Heading,
    r: Option<i8>,
)
    requires
        v.leads_to(x, y, z, h, r),
        along.dx() == h.dx() && along.dy() == 0 && along.dx() != 0,
        across.dx() == 0 && across.dy() == h.dy() && across.dy() != 0,
    ensures
        r is None <==> single_step(v.provider, v.passable_mask, v.can_fly, x, y, z, h, None)
            || single_step(v.provider, v.passable_mask, v.can_fly, x, y, z, along, None)
            || single_step(v.provider, v.passable_mask, v.can_fly, x, y, z, across, None),
        r is Some ==> single_step(v.provider, v.passable_mask, v.can_fly, x, y, z, h, r),
{
}

/// Law: a cardinal step looks at the one tile that it leads to.
pub proof fn cardinal_steps_need_no_other<'a, T: TileProvider>(
    v: &MovementValidator<'a, T>,
    x: u16,
    y: u16,
    z: i8,
    h: Heading,
    r: Option<i8>,
)
    requires
        v.leads_to(x, y, z, h, r),
        h.dx() == 0 || h.dy() == 0,
    ensures
        r is None <==> single_step(v.provider, v.passable_mask, v.can_fly, x, y, z, h, None),
        r is Some ==> single_step(v.provider, v.passable_mask, v.can_fly, x, y, z, h, r),
{
}

/// Whether one can stand on a shape near height `z`: on one that may be entered, or, in
/// flight, on a surface to hover over within 25 units.
pub open spec fn holds_up(s: TileShape, z: int, mask: u64, fly: bool) -> bool {
    match s {
        TileShape::Slope { flags, .. } => flags & 0x40 == 0 || flags & mask != 0,
        TileShape::Surface { z_stand, flags, .. } => if flags & 0x200_0000 != 0 {
            fly && apart(z_stand as int, z) <= 25
        } else {
            flags & 0x40 == 0 || flags & mask != 0
        },
        TileShape::Background { .. } => false,
    }
}

/// Whether one can stand at height `b`: on a shape that holds up, with sixteen units free
/// above it.
pub open spec fn can_perch(shapes: Seq<TileShape>, b: int, z: int, mask: u64, fly: bool) -> bool {
    &&& exists|j: int|
        0 <= j < shapes.len() && holds_up(#[trigger] shapes[j], z, mask, fly) && height(shapes[j])
            == b
    &&& b + 16 <= 127
    &&& forall|k: int|
        0 <= k < shapes.len() && !((#[trigger] shapes[k]) is Background) ==> height(shapes[k]) <= b
            || foot(shapes[k]) >= b + 16
}

proof fn lemma_perch_words(s: TileShape, z: int, mask: u64, fly: bool)
    ensures
        s.base() == foot(s),
        s.stand() == height(s),
        standable(s, z, mask, fly) <==> holds_up(s, z, mask, fly),
{
    match s {
        TileShape::Slope { flags, .. } => {
            assert(flags & 0 == 0) by (bit_vector);
        },
        TileShape::Surface { flags, .. } => {
            assert(flags & 0 == 0) by (bit_vector);
        },
        TileShape::Background { .. } => {},
    }
}

proof fn lemma_perch_footing(shapes: Seq<TileShape>, m: int, n: int)
    requires
        0 <= m <= n <= shapes.len(),
    ensures
        ({
            let f = footing(shapes, |s: TileShape| !(s is Background), i8::MIN as int, n);
            &&& -128 <= f <= 127
            &&& forall|j: int|
                0 <= j < n && !((#[trigger] shapes[j]) is Background) ==> shapes[j].stand() <= f
            &&& f > -128 ==> exists|j: int|
                0 <= j < n && !((#[trigger] shapes[j]) is Background) && shapes[j].stand() == f
            &&& footing(shapes, |s: TileShape| !(s is Background), i8::MIN as int, m) <= f
        }),
    decreases n,
{
    if n > 0 {
        if m < n {
            lemma_perch_footing(shapes, m, n - 1);
        } else {
            lemma_perch_footing(shapes, n - 1, n - 1);
        }
    }
}

proof fn first_over(shapes: Seq<TileShape>, b: int, k: int) -> (i: int)
    requires
        0 <= k < shapes.len(),
        !(shapes.last() is Background) && foot(shapes.last()) >= b + 16,
    ensures
        k <= i < shapes.len(),
        !(shapes[i] is Background) && foot(shapes[i]) >= b + 16,
        forall|m: int|
            k <= m < i ==> !(!((#[trigger] shapes[m]) is Background) && foot(shapes[m]) >= b + 16),
    decreases shapes.len() - k,
{
    if !(shapes[k] is Background) && foot(shapes[k]) >= b + 16 {
        k
    } else {
        assert(k < shapes.len() - 1);
        first_over(shapes, b, k + 1)
    }
}

proof fn lemma_nearest_perch(
    shapes: Seq<TileShape>,
    z: int,
    mask: u64,
    fly: bool,
    n: int,
)
    requires
        0 <= n <= shapes.len(),
    ensures
        best_perch(shapes, z, mask, fly, n) is Some <==> exists|i: int|
            0 <= i < n && (#[trigger] perch(shapes, z, mask, fly, i)) is Some,
        best_perch(shapes, z, mask, fly, n) matches Some(b) ==> {
            &&& exists|i: int| 0 <= i < n && #[trigger] perch(shapes, z, mask, fly, i) == Some(b)
            &&& forall|i: int|
                0 <= i < n && (#[trigger] perch(shapes, z, mask, fly, i)) is Some ==> {
                    let c = perch(shapes, z, mask, fly, i)->0;
                    &&& apart(z, b as int) <= apart(z, c as int)
                    &&& apart(z, b as int) == apart(z, c as int) ==> b <= c
                }
        },
    decreases n,
{
    if n > 0 {
        lemma_nearest_perch(shapes, z, mask, fly, n - 1);
        let l = perch(shapes, z, mask, fly, n - 1);
        let before = best_perch(shapes, z, mask, fly, n - 1);
        assert forall|i: int|
            0 <= i < n - 1 && (#[trigger] perch(shapes, z, mask, fly, i)) is Some && l is Some
            implies perch(shapes, z, mask, fly, i)->0 <= l->0 by {
            lemma_perch_footing(shapes, i, n - 1);
            lemma_perch_footing(shapes, i, i);
        }
        if l is Some {
            assert(perch(shapes, z, mask, fly, n - 1) is Some);
        }
        if before is Some {
            let i = choose|i: int|
                0 <= i < n - 1 && #[trigger] perch(shapes, z, mask, fly, i) == before;
            assert(perch(shapes, z, mask, fly, i) is Some);
        }
    }
}

proof fn lemma_perch_holds(shapes: Seq<TileShape>, z: int, mask: u64, fly: bool, i: int)
    requires
        from_bottom_up(shapes),
        0 <= i <= shapes.len(),
        perch(shapes.push(TileShape::cap_spec()), z, mask, fly, i) is Some,
    ensures
        can_perch(
            shapes,
            (perch(shapes.push(TileShape::cap_spec()), z, mask, fly, i)->0) as int,
            z,
            mask,
            fly,
        ),
{
    let all = shapes.push(TileShape::cap_spec());
    let f = footing(all, |s: TileShape| !(s is Background), i8::MIN as int, i);
    lemma_perch_footing(all, i, i);
    let j = choose|j: int|
        0 <= j < i && standable(#[trigger] all[j], z, mask, fly) && all[j].stand() == f;
    lemma_perch_words(all[j], z, mask, fly);
    assert(shapes[j] == all[j]);
    assert(holds_up(shapes[j], z, mask, fly) && height(shapes[j]) == f);
    lemma_perch_words(all[i], z, mask, fly);
    assert forall|k: int| 0 <= k < shapes.len() && !((#[trigger] shapes[k]) is Background) implies height(
        shapes[k],
    ) <= f || foot(shapes[k]) >= f + 16 by {
        assert(all[k] == shapes[k]);
        lemma_perch_words(all[k], z, mask, fly);
        if k >= i {
            assert(all[i] == shapes[i]);
            assert(foot(shapes[i]) <= foot(shapes[k]));
        }
    }
}

proof fn lemma_holds_perch(shapes: Seq<TileShape>, b: int, z: int, mask: u64, fly: bool)
    requires
        from_bottom_up(shapes),
        upright(shapes),
        can_perch(shapes, b, z, mask, fly),
    ensures
        exists|i: int|
            0 <= i <= shapes.len() && #[trigger] perch(
                shapes.push(TileShape::cap_spec()),
                z,
                mask,
                fly,
                i,
            ) == Some(b as i8),
        -128 <= b <= 127,
{
    let cap = TileShape::cap_spec();
    let all = shapes.push(cap);
    let j = choose|j: int|
        0 <= j < shapes.len() && holds_up(#[trigger] shapes[j], z, mask, fly) && height(shapes[j])
            == b;
    assert(all.last() == cap);
    let i = first_over(all, b, 0);
    let f = footing(all, |s: TileShape| !(s is Background), i8::MIN as int, i);
    lemma_perch_footing(all, i, i);
    assert(all[j] == shapes[j]);
    lemma_perch_words(all[j], z, mask, fly);
    lemma_perch_words(all[i], z, mask, fly);
    assert(foot(shapes[j]) <= height(shapes[j]));
    if i < shapes.len() {
        assert(all[i] == shapes[i]);
        if i <= j {
            assert(foot(shapes[i]) <= foot(shapes[j]));
        }
    }
    assert(j < i);
    assert forall|k: int| 0 <= k < i && !((#[trigger] all[k]) is Background) implies all[k].stand()
        <= b by {
        lemma_perch_words(all[k], z, mask, fly);
        assert(all[k] == shapes[k]);
    }
    assert(f == b) by {
        if f > b {
            let k = choose|k: int|
                0 <= k < i && !((#[trigger] all[k]) is Background) && all[k].stand() == f;
            assert(all[k].stand() <= b);
        }
    }
    assert(standable(all[j], z, mask, fly) && all[j].stand() == f);
    assert(perch(all, z, mask, fly, i) == Some(b as i8));
}

/// Law: the standing height nearest to a hint is one at which there is a shape that holds
/// up, with sixteen units free above it; there is none only where no shape does. Of
/// several heights the nearest is taken, the lower one of two that are as near.
pub proof fn standing_heights_have_room(
    shapes: Seq<TileShape>,
    z: int,
    mask: u64,
    fly: bool,
)
    requires
        from_bottom_up(shapes),
        upright(shapes),
    ensures
        ({
            let r = best_perch(
                shapes.push(TileShape::cap_spec()),
                z,
                mask,
                fly,
                (shapes.len() + 1) as int,
            );
            &&& r is Some <==> exists|b: int| #[trigger] can_perch(shapes, b, z, mask, fly)
            &&& r matches Some(b) ==> can_perch(shapes, b as int, z, mask, fly)
            &&& r matches Some(b) ==> forall|c: int| #[trigger]
                can_perch(shapes, c, z, mask, fly) ==> {
                    &&& apart(z, b as int) <= apart(z, c)
                    &&& apart(z, b as int) == apart(z, c) ==> b <= c
                }
        }),
{
    let all = shapes.push(TileShape::cap_spec());
    let r = best_perch(all, z, mask, fly, (shapes.len() + 1) as int);
    lemma_nearest_perch(all, z, mask, fly, all.len() as int);
    if let Some(b) = r {
        let i = choose|i: int|
            0 <= i < all.len() && #[trigger] perch(all, z, mask, fly, i) == Some(b);
        lemma_perch_holds(shapes, z, mask, fly, i);
        assert forall|c: int| #[trigger] can_perch(shapes, c, z, mask, fly) implies {
            &&& apart(z, b as int) <= apart(z, c)
            &&& apart(z, b as int) == apart(z, c) ==> b <= c
        } by {
            lemma_holds_perch(shapes, c, z, mask, fly);
            let k = choose|k: int|
                0 <= k <= shapes.len() && #[trigger] perch(all, z, mask, fly, k) == Some(c as i8);
            assert(perch(all, z, mask, fly, k) is Some);
        }
    }
    if exists|b: int| #[trigger] can_perch(shapes, b, z, mask, fly) {
        let b = choose|b: int| #[trigger] can_perch(shapes, b, z, mask, fly);
        lemma_holds_perch(shapes, b, z, mask, fly);
        let k = choose|k: int|
            0 <= k <= shapes.len() && #[trigger] perch(all, z, mask, fly, k) == Some(b as i8);
        assert(perch(all, z, mask, fly, k) is Some);
    }
}

/// Law: a stack is listed from bottom to top, by the feet of its shapes.
pub proof fn stacks_are_from_bottom_up(shapes: Seq<TileShape>)
    requires
        super::tile_provider::stack_sorted(shapes),
    ensures
        from_bottom_up(shapes),
{
    assert forall|i: int, j: int| 0 <= i <= j < shapes.len() implies foot(#[trigger] shapes[i])
        <= foot(#[trigger] shapes[j]) by {
        assert(super::tile_provider::below(shapes[i], shapes[j]));
    }
}

} // verus!

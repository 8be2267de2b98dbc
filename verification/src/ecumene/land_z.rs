//! Heights of a land tile from its four corner heights.

use vstd::prelude::*;

use crate::coords::Heading;

verus! {

pub open spec fn abs_int(x: int) -> int {
    if x < 0 {
        -x
    } else {
        x
    }
}

pub open spec fn min_int(a: int, b: int) -> int {
    if a <= b {
        a
    } else {
        b
    }
}

pub open spec fn max_int(a: int, b: int) -> int {
    if a >= b {
        a
    } else {
        b
    }
}

/// Division that drops the fraction, for a positive divisor.
pub open spec fn trunc_div(a: int, b: int) -> int {
    if a >= 0 {
        a / b
    } else {
        -((-a) / b)
    }
}

/// Lowest of the four corners.
pub open spec fn land_base(left: int, bottom: int, right: int, top: int) -> int {
    min_int(min_int(left, bottom), min_int(right, top))
}

/// Standing height: the mean, rounded down, of the opposite pair of corners
/// that differ least; `left` and `right` where both pairs differ alike.
pub open spec fn land_stand(left: int, bottom: int, right: int, top: int) -> int {
    if abs_int(left - right) > abs_int(top - bottom) {
        (top + bottom) / 2
    } else {
        (left + right) / 2
    }
}

/// Height of the edge or corner towards `direction`.
pub open spec fn land_exit(
    left: int,
    bottom: int,
    right: int,
    top: int,
    direction: Heading,
) -> int {
    match direction {
        Heading::North => trunc_div(left + bottom, 2),
        Heading::NorthEast => bottom,
        Heading::East => trunc_div(bottom + right, 2),
        Heading::SouthEast => right,
        Heading::South => trunc_div(right + top, 2),
        Heading::SouthWest => top,
        Heading::West => trunc_div(top + left, 2),
        Heading::NorthWest => left,
    }
}

/// Mean of the four corners, rounded towards zero.
pub open spec fn land_mean(left: int, bottom: int, right: int, top: int) -> int {
    trunc_div(left + bottom + right + top, 4)
}

fn floor_half(s: i16) -> (h: i16)
    requires
        -256 <= s <= 254,
    ensures
        h == s as int / 2,
{
    (s + 256) / 2 - 128
}

fn trunc_half(s: i16) -> (h: i16)
    requires
        -256 <= s <= 254,
    ensures
        h == trunc_div(s as int, 2),
{
    if s >= 0 {
        s / 2
    } else {
        -((-s) / 2)
    }
}

fn abs_i16(d: i16) -> (a: i16)
    requires
        d > i16::MIN,
    ensures
        a == abs_int(d as int),
{
    if d < 0 {
        -d
    } else {
        d
    }
}

fn base_and_stand(left: i16, bottom: i16, right: i16, top: i16) -> (r: (i16, i16))
    requires
        -128 <= left <= 127,
        -128 <= bottom <= 127,
        -128 <= right <= 127,
        -128 <= top <= 127,
    ensures
        r.0 == land_base(left as int, bottom as int, right as int, top as int),
        r.1 == land_stand(left as int, bottom as int, right as int, top as int),
        -128 <= r.0 <= 127,
        -128 <= r.1 <= 127,
{
    let a: i16 = if left <= bottom { left } else { bottom };
    let b: i16 = if right <= top { right } else { top };
    let base: i16 = if a <= b { a } else { b };
    let stand: i16 = if abs_i16(left - right) > abs_i16(top - bottom) {
        floor_half(top + bottom)
    } else {
        floor_half(left + right)
    };
    (base, stand)
}

/// Base, standing and top height of a land tile approached along `direction`.
///
/// `left`, `bottom`, `right` and `top` are the heights at `(x, y)`,
/// `(x+1, y)`, `(x+1, y+1)` and `(x, y+1)`. The top is the greater of the
/// standing height and the height of the edge that `direction` leads to.
pub fn compute_land_z_stand(left: i8, bottom: i8, right: i8, top: i8, direction: Heading) -> (r: (
    i8,
    i8,
    i8,
))
    ensures
        r.0 == land_base(left as int, bottom as int, right as int, top as int),
        r.1 == land_stand(left as int, bottom as int, right as int, top as int),
        r.2 == max_int(
            land_exit(left as int, bottom as int, right as int, top as int, direction),
            land_stand(left as int, bottom as int, right as int, top as int),
        ),
{
    let left: i16 = left as i16;
    let bottom: i16 = bottom as i16;
    let right: i16 = right as i16;
    let top: i16 = top as i16;
    let (base, stand) = base_and_stand(left, bottom, right, top);
    let exit_z: i16 = match direction {
        Heading::North => trunc_half(left + bottom),
        Heading::NorthEast => bottom,
        Heading::East => trunc_half(bottom + right),
        Heading::SouthEast => right,
        Heading::South => trunc_half(right + top),
        Heading::SouthWest => top,
        Heading::West => trunc_half(top + left),
        Heading::NorthWest => left,
    };
    let z_top: i16 = if exit_z > stand { exit_z } else { stand };
    (base as i8, stand as i8, z_top as i8)
}

/// Base, standing and top height of a land tile, whatever the approach.
///
/// The top is the greater of the standing height and the mean of the corners,
/// rounded towards zero.
pub fn compute_land_z_range(left: i8, bottom: i8, right: i8, top: i8) -> (r: (i8, i8, i8))
    ensures
        r.0 == land_base(left as int, bottom as int, right as int, top as int),
        r.1 == land_stand(left as int, bottom as int, right as int, top as int),
        r.2 == max_int(
            land_mean(left as int, bottom as int, right as int, top as int),
            land_stand(left as int, bottom as int, right as int, top as int),
        ),
{
    let left: i16 = left as i16;
    let bottom: i16 = bottom as i16;
    let right: i16 = right as i16;
    let top: i16 = top as i16;
    let (base, stand) = base_and_stand(left, bottom, right, top);
    let sum: i16 = left + bottom + right + top;
    let mean: i16 = if sum >= 0 {
        sum / 4
    } else {
        -((-sum) / 4)
    };
    let z_top: i16 = if mean >= stand { mean } else { stand };
    (base as i8, stand as i8, z_top as i8)
}

/// Law: on level ground all three heights are the height of the ground.
pub proof fn level_ground_is_level(z: i8, direction: Heading)
    ensures
        land_base(z as int, z as int, z as int, z as int) == z,
        land_stand(z as int, z as int, z as int, z as int) == z,
        land_exit(z as int, z as int, z as int, z as int, direction) == z,
        land_mean(z as int, z as int, z as int, z as int) == z,
{
}

/// Law: one stands between the lowest and the highest corner.
pub proof fn stand_is_between_corners(left: i8, bottom: i8, right: i8, top: i8)
    ensures
        land_base(left as int, bottom as int, right as int, top as int) <= land_stand(
            left as int,
            bottom as int,
            right as int,
            top as int,
        ) <= max_int(
            max_int(left as int, bottom as int),
            max_int(right as int, top as int),
        ),
{
}

/// The height at which land is left towards `direction`, on tile `(x, y)` of ground whose
/// corner at `(x, y)` is at `ground(x, y)`.
pub open spec fn exit_on(
    ground: spec_fn(int, int) -> int,
    x: int,
    y: int,
    direction: Heading,
) -> int {
    land_exit(ground(x, y), ground(x + 1, y), ground(x + 1, y + 1), ground(x, y + 1), direction)
}

/// Law: two neighbouring tiles meet at one height: a tile is left towards a neighbour at
/// the height at which that one is left towards the tile.
pub proof fn exits_meet(
    ground: spec_fn(int, int) -> int,
    x: int,
    y: int,
    direction: Heading,
    back: Heading,
)
    requires
        back.dx() == -direction.dx(),
        back.dy() == -direction.dy(),
    ensures
        exit_on(ground, x, y, direction) == exit_on(
            ground,
            x + direction.dx(),
            y + direction.dy(),
            back,
        ),
{
}

/// Whether the corner at `(x + i, y + j)` of a tile lies on the side towards a direction.
pub open spec fn on_side(direction: Heading, i: int, j: int) -> bool {
    &&& direction.dx() == -1 ==> i == 0
    &&& direction.dx() == 1 ==> i == 1
    &&& direction.dy() == -1 ==> j == 0
    &&& direction.dy() == 1 ==> j == 1
}

/// Law: a tile is left at the mean height, rounded towards zero, of the corners that it
/// shares with the neighbour in that direction: two of them in a cardinal direction, one
/// in a diagonal one.
pub proof fn exit_is_on_the_shared_corners(
    ground: spec_fn(int, int) -> int,
    x: int,
    y: int,
    direction: Heading,
    a: (int, int),
    b: (int, int),
)
    requires
        0 <= a.0 <= 1 && 0 <= a.1 <= 1 && on_side(direction, a.0, a.1),
        0 <= b.0 <= 1 && 0 <= b.1 <= 1 && on_side(direction, b.0, b.1),
        direction.dx() == 0 || direction.dy() == 0 ==> a != b,
    ensures
        ({
            let sum = ground(x + a.0, y + a.1) + ground(x + b.0, y + b.1);
            let e = exit_on(ground, x, y, direction);
            &&& -1 <= 2 * e - sum <= 1
            &&& sum >= 0 ==> 0 <= 2 * e <= sum
            &&& sum <= 0 ==> sum <= 2 * e <= 0
        }),
{
}

/// Law: the base of a tile is at its lowest corner.
pub proof fn base_is_the_lowest_corner(left: int, bottom: int, right: int, top: int)
    ensures
        ({
            let b = land_base(left, bottom, right, top);
            &&& b <= left && b <= bottom && b <= right && b <= top
            &&& b == left || b == bottom || b == right || b == top
        }),
{
}

/// Law: one stands halfway, rounded down, along the flatter of the two diagonals of a
/// tile; along that from `(x, y)` to `(x + 1, y + 1)` where both are as steep.
pub proof fn stand_is_on_the_flatter_diagonal(
    ground: spec_fn(int, int) -> int,
    x: int,
    y: int,
)
    ensures
        ({
            let nw = ground(x, y);
            let ne = ground(x + 1, y);
            let se = ground(x + 1, y + 1);
            let sw = ground(x, y + 1);
            let stand = land_stand(nw, ne, se, sw);
            let steep = if nw >= se { nw - se } else { se - nw };
            let across = if ne >= sw { ne - sw } else { sw - ne };
            &&& steep <= across ==> 2 * stand <= nw + se <= 2 * stand + 1
            &&& across < steep ==> 2 * stand <= ne + sw <= 2 * stand + 1
        }),
{
}

/// Law: the mean of the corners is rounded towards zero.
pub proof fn mean_is_of_all_corners(left: int, bottom: int, right: int, top: int)
    ensures
        ({
            let sum = left + bottom + right + top;
            let m = land_mean(left, bottom, right, top);
            &&& -4 < 4 * m - sum < 4
            &&& sum >= 0 ==> 0 <= 4 * m <= sum
            &&& sum <= 0 ==> sum <= 4 * m <= 0
        }),
{
}

} // verus!

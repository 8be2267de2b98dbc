//! Where sight goes and what stops it, in the tiles of its way and the flags of the shapes
//! on them.

use vstd::arithmetic::div_mod::{lemma_fundamental_div_mod, lemma_mod_bound};
use vstd::prelude::*;

use super::land_z::{abs_int, max_int, trunc_div};
use super::line_of_sight::{minor_at, sign, LosRay, LosValidator};
use super::step_laws::apart;
use super::tile_provider::TileProvider;
use crate::coords::Heading;
use crate::vessel::tile_shape::TileShape;

verus! {

/// The greater of two numbers.
pub open spec fn greater(a: int, b: int) -> int {
    if a >= b {
        a
    } else {
        b
    }
}

proof fn lemma_minor(major: int, minor: int, k: int)
    requires
        major > 0,
        0 <= minor <= major,
        0 <= k <= major,
    ensures
        -major <= 2 * (minor_at(major, minor, k) * major - k * minor) < major,
        0 <= minor_at(major, minor, k) <= minor,
{
    let a = k * minor + (major - 1 - major / 2);
    let m = minor_at(major, minor, k);
    lemma_fundamental_div_mod(a, major);
    lemma_mod_bound(a, major);
    assert(major * m == m * major) by (nonlinear_arith);
    assert(0 <= k * minor <= major * minor) by (nonlinear_arith)
        requires
            0 <= minor,
            0 <= k <= major,
    ;
    assert(m >= 0) by (nonlinear_arith)
        requires
            m * major > -major,
            major > 0,
    ;
    assert(m <= minor) by (nonlinear_arith)
        requires
            m * major < major * minor + major,
            major > 0,
    ;
}

/// Law: the ray after `k` steps is on the tile nearest to the straight line between its
/// ends, as far along the longer way as it has taken steps; halfway between two tiles it
/// is on the one nearer to the start.
pub proof fn rays_keep_to_the_line(
    x1: u16,
    y1: u16,
    z1: i16,
    x2: u16,
    y2: u16,
    z2: i16,
    k: int,
)
    requires
        0 <= k <= greater(apart(x1 as int, x2 as int), apart(y1 as int, y2 as int)),
    ensures
        ({
            let t = LosRay::between(x1, y1, z1, x2, y2, z2).tile_at(k);
            let nx = apart(x1 as int, x2 as int);
            let ny = apart(y1 as int, y2 as int);
            let n = greater(nx, ny);
            let px = apart(x1 as int, t.0 as int);
            let py = apart(y1 as int, t.1 as int);
            &&& x1 <= t.0 <= x2 || x2 <= t.0 <= x1
            &&& y1 <= t.1 <= y2 || y2 <= t.1 <= y1
            &&& n > 0 ==> -n <= 2 * (px * n - k * nx) < n
            &&& n > 0 ==> -n <= 2 * (py * n - k * ny) < n
        }),
{
    let r = LosRay::between(x1, y1, z1, x2, y2, z2);
    let nx = abs_int(x2 - x1);
    let ny = abs_int(y2 - y1);
    let n = max_int(nx, ny);
    let less = if nx >= ny {
        ny
    } else {
        nx
    };
    if n > 0 {
        lemma_minor(n, less, k);
        let m = minor_at(n, less, k);
        lemma_along(x1 as int, x2 as int, n - k);
        lemma_along(y1 as int, y2 as int, n - k);
        lemma_along(x1 as int, x2 as int, less - m);
        lemma_along(y1 as int, y2 as int, less - m);
        assert(k * n == n * k) by (nonlinear_arith);
        if r.x_dominant {
            assert(r.x_at(k) == x2 - sign(x2 - x1) * (n - k));
            assert(r.y_at(k) == y2 - sign(y2 - y1) * (less - m));
        } else {
            assert(r.x_at(k) == x2 - sign(x2 - x1) * (less - m));
            assert(r.y_at(k) == y2 - sign(y2 - y1) * (n - k));
        }
    } else {
        assert(r.sx == 0 && r.sy == 0);
        assert(r.sx * (r.steps - k) == 0) by (nonlinear_arith)
            requires
                r.sx == 0,
        ;
        let m = r.abs_minor - minor_at(r.steps as int, r.abs_minor as int, k);
        assert(r.sy * m == 0) by (nonlinear_arith)
            requires
                r.sy == 0,
        ;
    }
}

/// A place so many tiles before the end of a way.
proof fn lemma_along(a: int, b: int, left: int)
    ensures
        a == b ==> b - sign(b - a) * left == a,
        a < b ==> b - sign(b - a) * left == b - left,
        a > b ==> b - sign(b - a) * left == b + left,
{
    assert(0 * left == 0);
    assert(1 * left == left);
    assert(-1 * left == -left);
}

/// Law: a ray rises or falls evenly between its ends, the fraction dropped.
pub proof fn rays_rise_evenly(
    x1: u16,
    y1: u16,
    z1: i16,
    x2: u16,
    y2: u16,
    z2: i16,
    k: int,
)
    requires
        0 <= k <= greater(apart(x1 as int, x2 as int), apart(y1 as int, y2 as int)),
        greater(apart(x1 as int, x2 as int), apart(y1 as int, y2 as int)) > 0,
    ensures
        ({
            let t = LosRay::between(x1, y1, z1, x2, y2, z2).tile_at(k);
            let n = greater(apart(x1 as int, x2 as int), apart(y1 as int, y2 as int));
            let up = apart(z1 as int, z2 as int);
            let risen = apart(z1 as int, t.2 as int);
            &&& z1 <= t.2 <= z2 || z2 <= t.2 <= z1
            &&& risen * n <= k * up < (risen + 1) * n
        }),
{
    let r = LosRay::between(x1, y1, z1, x2, y2, z2);
    let n = greater(apart(x1 as int, x2 as int), apart(y1 as int, y2 as int));
    let up = apart(z1 as int, z2 as int);
    assert(r.steps == n);
    let a = k * up;
    assert(0 <= a <= n * up) by (nonlinear_arith)
        requires
            0 <= k <= n,
            0 <= up,
            a == k * up,
    ;
    lemma_fundamental_div_mod(a, n);
    lemma_mod_bound(a, n);
    let q = a / n;
    assert(n * q == q * n) by (nonlinear_arith);
    assert(q <= up) by (nonlinear_arith)
        requires
            q * n <= n * up,
            n > 0,
    ;
    assert(q >= 0) by (nonlinear_arith)
        requires
            q * n > a - n,
            a >= 0,
            n > 0,
    ;
    assert((q + 1) * n == q * n + n) by (nonlinear_arith);
    if z2 >= z1 {
        assert(r.dz * k == a) by (nonlinear_arith)
            requires
                r.dz == up,
                a == k * up,
        ;
    } else {
        assert(r.dz * k == -a) by (nonlinear_arith)
            requires
                r.dz == -up,
                a == k * up,
        ;
        if a == 0 {
            assert(q == 0) by (nonlinear_arith)
                requires
                    q * n <= 0,
                    q >= 0,
                    n > 0,
            ;
            assert(trunc_div(r.dz * k, n) == 0int / n);
        }
    }
    assert(trunc_div(r.dz * k, n) == if z2 >= z1 {
        q
    } else {
        -q
    });
}

/// Whether a shape stops sight at height `z`: it reaches over that height, and its flags
/// stop sight without letting it through.
pub open spec fn in_sight_of(
    s: TileShape,
    z: int,
    blocking: u64,
    exempt: u64,
    transparent: u64,
) -> bool {
    match s {
        TileShape::Slope { z_base, z_top, flags, .. } => z_base <= z <= z_top && flags & blocking
            != 0 && flags & exempt == 0 && flags & transparent == 0,
        TileShape::Surface { z_base, z_stand, flags } => z_base <= z <= z_stand && flags & blocking
            != 0 && flags & exempt == 0 && flags & transparent == 0,
        TileShape::Background { .. } => false,
    }
}

/// Law: sight is clear if and only if on no tile strictly between its ends a shape stops
/// it; the end tiles do not count.
pub proof fn sight_is_stopped_between_its_ends<'a, T: TileProvider>(
    v: &LosValidator<'a, T>,
    x1: u16,
    y1: u16,
    z1: i16,
    x2: u16,
    y2: u16,
    z2: i16,
)
    ensures
        v.clear(x1, y1, z1, x2, y2, z2) <==> forall|k: int, i: int|
            #![trigger v.provider.stack(
                LosRay::between(x1, y1, z1, x2, y2, z2).tile_at(k).0,
                LosRay::between(x1, y1, z1, x2, y2, z2).tile_at(k).1,
                Heading::North,
            )[i]]
            0 < k < greater(apart(x1 as int, x2 as int), apart(y1 as int, y2 as int)) && 0 <= i
                < v.provider.stack(
                LosRay::between(x1, y1, z1, x2, y2, z2).tile_at(k).0,
                LosRay::between(x1, y1, z1, x2, y2, z2).tile_at(k).1,
                Heading::North,
            ).len() ==> !in_sight_of(
                v.provider.stack(
                    LosRay::between(x1, y1, z1, x2, y2, z2).tile_at(k).0,
                    LosRay::between(x1, y1, z1, x2, y2, z2).tile_at(k).1,
                    Heading::North,
                )[i],
                LosRay::between(x1, y1, z1, x2, y2, z2).tile_at(k).2 as int,
                v.blocking_mask,
                v.exempt_mask,
                v.transparent_mask,
            ),
{
    let r = LosRay::between(x1, y1, z1, x2, y2, z2);
    let n = greater(apart(x1 as int, x2 as int), apart(y1 as int, y2 as int));
    let tiles = r.pending();
    assert(r.steps == n);
    assert forall|k: int| 0 < k < n implies tiles.len() == n - 1 && tiles[k - 1] == #[trigger] r.tile_at(
        k,
    ) by {}
    if v.clear(x1, y1, z1, x2, y2, z2) {
        assert forall|k: int, i: int|
            #![trigger v.provider.stack(r.tile_at(k).0, r.tile_at(k).1, Heading::North)[i]]
            0 < k < n && 0 <= i < v.provider.stack(
                r.tile_at(k).0,
                r.tile_at(k).1,
                Heading::North,
            ).len() implies !in_sight_of(
            v.provider.stack(r.tile_at(k).0, r.tile_at(k).1, Heading::North)[i],
            r.tile_at(k).2 as int,
            v.blocking_mask,
            v.exempt_mask,
            v.transparent_mask,
        ) by {
            let t = tiles[k - 1];
            assert(t == r.tile_at(k));
            assert(!v.stops(t));
            let s = v.provider.stack(t.0, t.1, Heading::North)[i];
            lemma_stops(s, t.2, v.blocking_mask, v.exempt_mask, v.transparent_mask);
        }
    }
    if !v.clear(x1, y1, z1, x2, y2, z2) {
        let j = choose|j: int| 0 <= j < tiles.len() && v.stops(#[trigger] tiles[j]);
        let t = tiles[j];
        assert(t == r.tile_at(j + 1));
        let stack = v.provider.stack(t.0, t.1, Heading::North);
        let i = choose|i: int|
            0 <= i < stack.len() && (#[trigger] stack[i]).blocks_sight(
                v.blocking_mask,
                v.exempt_mask,
                v.transparent_mask,
            ) && stack[i].base() <= t.2 <= stack[i].top();
        lemma_stops(stack[i], t.2, v.blocking_mask, v.exempt_mask, v.transparent_mask);
        assert(0 < j + 1 < n);
        assert(v.provider.stack(r.tile_at(j + 1).0, r.tile_at(j + 1).1, Heading::North)[i]
            == stack[i]);
    }
}

proof fn lemma_stops(s: TileShape, z: i16, blocking: u64, exempt: u64, transparent: u64)
    ensures
        (s.blocks_sight(blocking, exempt, transparent) && s.base() <= z <= s.top())
            <==> in_sight_of(s, z as int, blocking, exempt, transparent),
{
}

/// Law: unless told otherwise, walls and whatever cannot be walked or shot through stop
/// sight, and windows do not.
pub proof fn walls_stop_sight_and_windows_do_not(flags: u64)
    ensures
        flags & TileShape::LOS_BLOCKING_DEFAULT != 0 <==> flags & 0x10 != 0 || flags & 0x40 != 0
            || flags & 0x2000 != 0,
        flags & TileShape::LOS_EXEMPT_DEFAULT != 0 <==> flags & 0x1000 != 0,
{
    assert(flags & 0x2050 != 0 <==> flags & 0x10 != 0 || flags & 0x40 != 0 || flags & 0x2000 != 0)
        by (bit_vector);
}

} // verus!

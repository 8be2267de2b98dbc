//! Rays over the tile grid, and sight along them.
//!
//! A [`LosRay`] walks from tile to tile between two points of the world. A
//! [`LosValidator`] follows such a ray through a [`TileProvider`] and finds
//! the tiles that stop it.

use vstd::arithmetic::div_mod::{lemma_fundamental_div_mod, lemma_fundamental_div_mod_converse};
use vstd::prelude::*;

use super::land_z::{abs_int, max_int, trunc_div};
use super::tile_provider::TileProvider;
use crate::coords::Heading;
use crate::vessel::tile_shape::TileShape;

verus! {

/// A tile on a ray, with the height of the ray over it.
pub type RayTile = (u16, u16, i16);

/// What a ray met on its way.
#[derive(Debug, Clone)]
pub struct LosTrace {
    /// The tiles between the two ends, in the order of the ray.
    pub tiles: Vec<RayTile>,
    /// Indices into `tiles` of all tiles that stop the ray, in its order.
    pub blockers: Vec<usize>,
    /// Whether nothing stops the ray.
    pub has_los: bool,
}

impl LosTrace {
    /// Index of the first tile that stops the ray, if any.
    pub fn first_blocker(&self) -> (r: Option<usize>)
        ensures
            r == if self.blockers@.len() == 0 {
                None
            } else {
                Some(self.blockers@[0])
            },
    {
        if self.blockers.len() == 0 {
            None
        } else {
            Some(self.blockers[0])
        }
    }
}

/// Minor-axis tiles left behind after `k` of `major` steps towards an end that
/// is `minor` tiles off: `k * minor / major` rounded to the nearest tile, a
/// tie going down where `major` is even.
pub open spec fn minor_at(major: int, minor: int, k: int) -> int {
    (k * minor + (major - 1 - major / 2)) / major
}

/// A straight walk over the tile grid from one point to another.
///
/// One tile is visited per step along the longer axis. The two end tiles are
/// left out unless [`LosRay::with_endpoints`] asks for them.
#[derive(Debug, Clone, Copy, PartialEq, Eq, Structural)]
pub struct LosRay {
    pub cur_x: i32,
    pub cur_y: i32,
    pub end_x: i32,
    pub end_y: i32,
    pub z1: i32,
    pub dz: i32,
    /// Distance to the next step of the shorter axis.
    pub error: i32,
    /// Length of the longer axis.
    pub steps: u32,
    /// Steps done: 0 on the start tile, `steps` on the end tile.
    pub step: u32,
    pub sx: i32,
    pub sy: i32,
    pub abs_minor: u32,
    pub x_dominant: bool,
    pub emit_endpoints: bool,
    pub done: bool,
}

pub open spec fn sign(d: int) -> int {
    if d > 0 {
        1
    } else if d < 0 {
        -1
    } else {
        0
    }
}

/// Whether the heights along the ray can be computed in 32 bits.
pub open spec fn ray_fits(x1: u16, y1: u16, z1: i16, x2: u16, y2: u16, z2: i16) -> bool {
    abs_int(z2 - z1) * max_int(abs_int(x2 - x1), abs_int(y2 - y1)) <= i32::MAX
}

impl LosRay {
    /// Horizontal position after `k` steps.
    pub open spec fn x_at(self, k: int) -> int {
        if self.x_dominant {
            self.end_x - self.sx * (self.steps - k)
        } else {
            self.end_x - self.sx * (self.abs_minor - minor_at(
                self.steps as int,
                self.abs_minor as int,
                k,
            ))
        }
    }

    /// Vertical position after `k` steps.
    pub open spec fn y_at(self, k: int) -> int {
        if self.x_dominant {
            self.end_y - self.sy * (self.abs_minor - minor_at(
                self.steps as int,
                self.abs_minor as int,
                k,
            ))
        } else {
            self.end_y - self.sy * (self.steps - k)
        }
    }

    /// Height after `k` steps: linear between the ends, the fraction dropped.
    pub open spec fn z_at(self, k: int) -> int {
        if self.steps == 0 {
            self.z1 as int
        } else {
            self.z1 + trunc_div(self.dz * k, self.steps as int)
        }
    }

    /// The tile after `k` steps.
    pub open spec fn tile_at(self, k: int) -> RayTile {
        (self.x_at(k) as u16, self.y_at(k) as u16, self.z_at(k) as i16)
    }

    /// What does not change while the ray is walked.
    pub open spec fn frame(self) -> bool {
        &&& self.abs_minor <= self.steps <= 0xFFFF
        &&& -1 <= self.sx <= 1
        &&& -1 <= self.sy <= 1
        &&& self.steps > 0 ==> if self.x_dominant {
            self.sx != 0
        } else {
            self.sy != 0
        }
        &&& self.steps == 0 ==> self.sx == 0 && self.sy == 0
        &&& 0 <= self.end_x <= 0xFFFF
        &&& 0 <= self.end_y <= 0xFFFF
        &&& self.x_dominant ==> {
            &&& 0 <= self.end_x - self.sx * self.steps <= 0xFFFF
            &&& 0 <= self.end_y - self.sy * self.abs_minor <= 0xFFFF
        }
        &&& !self.x_dominant ==> {
            &&& 0 <= self.end_x - self.sx * self.abs_minor <= 0xFFFF
            &&& 0 <= self.end_y - self.sy * self.steps <= 0xFFFF
        }
        &&& -0x8000 <= self.z1 <= 0x7FFF
        &&& -0x8000 <= self.z1 + self.dz <= 0x7FFF
        &&& abs_int(self.dz as int) * self.steps <= i32::MAX
    }

    /// Whether the walk stands where its step count says.
    pub open spec fn wf(self) -> bool {
        &&& self.frame()
        &&& !self.done ==> {
            &&& self.step <= self.steps
            &&& self.cur_x == self.x_at(self.step as int)
            &&& self.cur_y == self.y_at(self.step as int)
            &&& self.steps > 0 ==> self.error == self.error_at(self.step as int)
        }
    }

    pub open spec fn error_at(self, k: int) -> int {
        self.steps as int / 2 - k * self.abs_minor + minor_at(
            self.steps as int,
            self.abs_minor as int,
            k,
        ) * self.steps
    }

    /// The tiles still to come.
    pub open spec fn pending(self) -> Seq<RayTile> {
        let first: int = if self.step == 0 && !self.emit_endpoints {
            1
        } else {
            self.step as int
        };
        let end: int = if self.emit_endpoints {
            self.steps + 1
        } else {
            self.steps as int
        };
        if self.done || end <= first {
            Seq::empty()
        } else {
            Seq::new((end - first) as nat, |i: int| self.tile_at(first + i))
        }
    }

    /// The ray from `(x1, y1, z1)` to `(x2, y2, z2)`.
    pub open spec fn between(x1: u16, y1: u16, z1: i16, x2: u16, y2: u16, z2: i16) -> LosRay {
        let ax = abs_int(x2 - x1);
        let ay = abs_int(y2 - y1);
        LosRay {
            cur_x: x1 as i32,
            cur_y: y1 as i32,
            end_x: x2 as i32,
            end_y: y2 as i32,
            z1: z1 as i32,
            dz: (z2 - z1) as i32,
            error: (max_int(ax, ay) / 2) as i32,
            steps: max_int(ax, ay) as u32,
            step: 0,
            sx: sign(x2 - x1) as i32,
            sy: sign(y2 - y1) as i32,
            abs_minor: (if ax >= ay { ay } else { ax }) as u32,
            x_dominant: ax >= ay,
            emit_endpoints: false,
            done: false,
        }
    }

    /// A ray from `(x1, y1, z1)` to `(x2, y2, z2)`, without its end tiles.
    pub fn new(x1: u16, y1: u16, z1: i16, x2: u16, y2: u16, z2: i16) -> (r: LosRay)
        requires
            ray_fits(x1, y1, z1, x2, y2, z2),
        ensures
            r == LosRay::between(x1, y1, z1, x2, y2, z2),
            r.wf(),
    {
        let dx: i32 = x2 as i32 - x1 as i32;
        let dy: i32 = y2 as i32 - y1 as i32;
        let dz: i32 = z2 as i32 - z1 as i32;
        let abs_dx: u32 = if dx < 0 {
            (-dx) as u32
        } else {
            dx as u32
        };
        let abs_dy: u32 = if dy < 0 {
            (-dy) as u32
        } else {
            dy as u32
        };
        let x_dominant = abs_dx >= abs_dy;
        let steps: u32 = if x_dominant {
            abs_dx
        } else {
            abs_dy
        };
        let abs_minor: u32 = if x_dominant {
            abs_dy
        } else {
            abs_dx
        };
        let sx: i32 = if dx > 0 {
            1
        } else if dx < 0 {
            -1
        } else {
            0
        };
        let sy: i32 = if dy > 0 {
            1
        } else if dy < 0 {
            -1
        } else {
            0
        };
        let r = LosRay {
            cur_x: x1 as i32,
            cur_y: y1 as i32,
            end_x: x2 as i32,
            end_y: y2 as i32,
            z1: z1 as i32,
            dz,
            error: (steps / 2) as i32,
            steps,
            step: 0,
            sx,
            sy,
            abs_minor,
            x_dominant,
            emit_endpoints: false,
            done: false,
        };
        proof {
            assert(sx * abs_dx == dx) by (nonlinear_arith)
                requires
                    sx == sign(dx as int),
                    abs_dx == abs_int(dx as int),
            ;
            assert(sy * abs_dy == dy) by (nonlinear_arith)
                requires
                    sy == sign(dy as int),
                    abs_dy == abs_int(dy as int),
            ;
            if steps > 0 {
                lemma_minor_ends(steps as int, abs_minor as int);
            } else {
                assert(sx * (abs_minor - minor_at(0, 0, 0)) == 0) by (nonlinear_arith)
                    requires
                        sx == 0,
                ;
                assert(sy * (abs_minor - minor_at(0, 0, 0)) == 0) by (nonlinear_arith)
                    requires
                        sy == 0,
                ;
            }
        }
        r
    }

    /// Chooses whether the two end tiles are visited too.
    pub fn with_endpoints(self, emit: bool) -> (r: LosRay)
        ensures
            r == (LosRay { emit_endpoints: emit, ..self }),
            self.wf() ==> r.wf(),
    {
        LosRay { emit_endpoints: emit, ..self }
    }

    fn z_at_step(&self, step: u32) -> (z: i16)
        requires
            self.frame(),
            step <= self.steps,
        ensures
            z == self.z_at(step as int),
    {
        if self.steps == 0 {
            return self.z1 as i16;
        }
        let ghost a = abs_int(self.dz as int);
        proof {
            assert(0 <= a * step <= a * self.steps) by (nonlinear_arith)
                requires
                    0 <= a,
                    0 <= step <= self.steps,
            ;
            assert(a * step / (self.steps as int) <= a) by {
                assert(a * step <= a * self.steps);
                vstd::arithmetic::div_mod::lemma_div_is_ordered(
                    a * step,
                    a * self.steps,
                    self.steps as int,
                );
                vstd::arithmetic::div_mod::lemma_div_multiples_vanish(a, self.steps as int);
                assert(a * self.steps == self.steps * a) by (nonlinear_arith);
            }
            assert(0 <= a * step / (self.steps as int)) by {
                vstd::arithmetic::div_mod::lemma_div_pos_is_pos(a * step, self.steps as int);
            }
            assert(self.dz * step == if self.dz >= 0 {
                a * step
            } else {
                -(a * step)
            }) by (nonlinear_arith)
                requires
                    a == abs_int(self.dz as int),
            ;
        }
        if self.dz >= 0 {
            let rise: i32 = self.dz * step as i32 / self.steps as i32;
            (self.z1 + rise) as i16
        } else {
            let drop_by: i32 = (-self.dz) * step as i32 / self.steps as i32;
            (self.z1 - drop_by) as i16
        }
    }

    /// One step along the longer axis, and one along the shorter where it is due.
    fn advance(&mut self)
        requires
            old(self).wf(),
            !old(self).done,
            old(self).step < old(self).steps,
        ensures
            final(self).wf(),
            *final(self) == (LosRay {
                step: (old(self).step + 1) as u32,
                cur_x: final(self).cur_x,
                cur_y: final(self).cur_y,
                error: final(self).error,
                ..*old(self)
            }),
    {
        proof {
            let k = self.step as int;
            lemma_minor_step(self.steps as int, self.abs_minor as int, k);
            lemma_minor_in_range(self.steps as int, self.abs_minor as int, k);
            lemma_minor_in_range(self.steps as int, self.abs_minor as int, k + 1);
            let m0 = minor_at(self.steps as int, self.abs_minor as int, k);
            let m1 = minor_at(self.steps as int, self.abs_minor as int, k + 1);
            let n = self.abs_minor as int;
            assert((k + 1) * n == k * n + n) by (nonlinear_arith);
            assert((m0 + 1) * self.steps == m0 * self.steps + self.steps) by (nonlinear_arith);
            let s = self.steps as int;
            lemma_scaled(self.sx as int, s - k);
            lemma_scaled(self.sx as int, s - (k + 1));
            lemma_scaled(self.sy as int, s - k);
            lemma_scaled(self.sy as int, s - (k + 1));
            lemma_scaled(self.sx as int, n - m0);
            lemma_scaled(self.sx as int, n - m1);
            lemma_scaled(self.sy as int, n - m0);
            lemma_scaled(self.sy as int, n - m1);
            lemma_scaled(self.sx as int, s);
            lemma_scaled(self.sy as int, s);
            lemma_scaled(self.sx as int, n);
            lemma_scaled(self.sy as int, n);
        }
        if self.x_dominant {
            self.cur_x = self.cur_x + self.sx;
            self.error = self.error - self.abs_minor as i32;
            if self.error < 0 {
                self.cur_y = self.cur_y + self.sy;
                self.error = self.error + self.steps as i32;
            }
        } else {
            self.cur_y = self.cur_y + self.sy;
            self.error = self.error - self.abs_minor as i32;
            if self.error < 0 {
                self.cur_x = self.cur_x + self.sx;
                self.error = self.error + self.steps as i32;
            }
        }
        self.step = self.step + 1;
    }

    /// The next tile of the ray, or `None` after the last.
    pub fn next(&mut self) -> (t: Option<RayTile>)
        requires
            old(self).wf(),
        ensures
            final(self).wf(),
            final(self).emit_endpoints == old(self).emit_endpoints,
            t is None <==> old(self).pending().len() == 0,
            t is None ==> final(self).done,
            t is Some ==> t == Some(old(self).pending()[0]),
            t is Some ==> final(self).pending() == old(self).pending().drop_first(),
    {
        if self.done {
            return None;
        }
        if self.step == 0 && !self.emit_endpoints {
            if self.steps == 0 {
                self.done = true;
                return None;
            }
            self.advance();
        }
        if self.step == self.steps {
            let t = (self.end_x as u16, self.end_y as u16, self.z_at_step(self.step));
            proof {
                self.lemma_end();
                assert(t == self.tile_at(self.step as int));
            }
            self.done = true;
            if self.emit_endpoints {
                assert(self.pending() =~= old(self).pending().drop_first());
                return Some(t);
            }
            return None;
        }
        proof {
            self.lemma_on_map(self.step as int);
        }
        let t = (self.cur_x as u16, self.cur_y as u16, self.z_at_step(self.step));
        self.advance();
        assert(self.pending() =~= old(self).pending().drop_first());
        Some(t)
    }

    /// Bounds on the number of tiles to come.
    pub fn size_hint(&self) -> (h: (usize, Option<usize>))
        requires
            self.wf(),
        ensures
            h.0 == 0,
            h.1 == if self.done {
                Some(0usize)
            } else {
                Some(
                    (self.steps - self.step + if self.emit_endpoints {
                        2int
                    } else {
                        0
                    }) as usize,
                )
            },
            self.pending().len() <= h.1->0,
    {
        if self.done {
            return (0, Some(0));
        }
        let remaining: usize = (self.steps - self.step) as usize;
        if self.emit_endpoints {
            (0, Some(remaining + 2))
        } else {
            (0, Some(remaining))
        }
    }

    /// All tiles to come.
    pub fn collect(self) -> (tiles: Vec<RayTile>)
        requires
            self.wf(),
        ensures
            tiles@ == self.pending(),
    {
        let mut ray = self;
        let mut tiles: Vec<RayTile> = Vec::new();
        loop
            invariant
                ray.wf(),
                tiles@ + ray.pending() == self.pending(),
            ensures
                tiles@ == self.pending(),
            decreases ray.pending().len(),
        {
            let ghost rest = ray.pending();
            match ray.next() {
                Some(t) => {
                    tiles.push(t);
                    assert(tiles@ + ray.pending() =~= self.pending());
                },
                None => {
                    assert(tiles@ =~= self.pending());
                    break;
                },
            }
        }
        tiles
    }

    /// How many tiles are to come.
    pub fn count(self) -> (n: usize)
        requires
            self.wf(),
        ensures
            n == self.pending().len(),
    {
        let tiles = self.collect();
        tiles.len()
    }

    /// After all steps the walk is on the end tile.
    proof fn lemma_end(self)
        requires
            self.frame(),
        ensures
            self.x_at(self.steps as int) == self.end_x,
            self.y_at(self.steps as int) == self.end_y,
    {
        let s = self.steps as int;
        let n = self.abs_minor as int;
        if s > 0 {
            lemma_minor_ends(s, n);
        }
        lemma_scaled(self.sx as int, s - s);
        lemma_scaled(self.sy as int, s - s);
        lemma_scaled(self.sx as int, n - minor_at(s, n, s));
        lemma_scaled(self.sy as int, n - minor_at(s, n, s));
    }

    /// Every tile of the walk is on the map.
    proof fn lemma_on_map(self, k: int)
        requires
            self.frame(),
            0 <= k <= self.steps,
            self.steps > 0,
        ensures
            0 <= self.x_at(k) <= 0xFFFF,
            0 <= self.y_at(k) <= 0xFFFF,
    {
        let s = self.steps as int;
        let n = self.abs_minor as int;
        let m = minor_at(s, n, k);
        lemma_minor_in_range(s, n, k);
        lemma_scaled(self.sx as int, s - k);
        lemma_scaled(self.sy as int, s - k);
        lemma_scaled(self.sx as int, n - m);
        lemma_scaled(self.sy as int, n - m);
        lemma_scaled(self.sx as int, s);
        lemma_scaled(self.sy as int, s);
        lemma_scaled(self.sx as int, n);
        lemma_scaled(self.sy as int, n);
    }
}

proof fn lemma_scaled(sign: int, v: int)
    requires
        -1 <= sign <= 1,
    ensures
        sign * v == if sign == 1 {
            v
        } else if sign == -1 {
            -v
        } else {
            0
        },
{
    assert(sign * v == if sign == 1 {
        v
    } else if sign == -1 {
        -v
    } else {
        0
    }) by (nonlinear_arith)
        requires
            -1 <= sign <= 1,
    ;
}

proof fn lemma_minor_ends(major: int, minor: int)
    requires
        0 <= minor <= major,
        0 < major,
    ensures
        minor_at(major, minor, 0) == 0,
        minor_at(major, minor, major) == minor,
{
    let c = major - 1 - major / 2;
    assert(0 * minor + c == 0 * major + c) by (nonlinear_arith);
    lemma_fundamental_div_mod_converse(0 * minor + c, major, 0, c);
    assert(major * minor + c == minor * major + c) by (nonlinear_arith);
    lemma_fundamental_div_mod_converse(major * minor + c, major, minor, c);
}

proof fn lemma_minor_step(major: int, minor: int, k: int)
    requires
        0 <= minor <= major,
        0 < major,
    ensures
        ({
            let e = major / 2 - k * minor + minor_at(major, minor, k) * major;
            &&& 0 <= e < major
            &&& minor_at(major, minor, k + 1) == minor_at(major, minor, k) + if e < minor {
                1int
            } else {
                0
            }
        }),
{
    let c = major - 1 - major / 2;
    let m = minor_at(major, minor, k);
    let r = (k * minor + c) % major;
    lemma_fundamental_div_mod(k * minor + c, major);
    assert(major * m == m * major) by (nonlinear_arith);
    assert((k + 1) * minor == k * minor + minor) by (nonlinear_arith);
    let e = major / 2 - k * minor + m * major;
    assert(e == major - 1 - r);
    if e < minor {
        assert((m + 1) * major == m * major + major) by (nonlinear_arith);
        lemma_fundamental_div_mod_converse(
            (k + 1) * minor + c,
            major,
            m + 1,
            r + minor - major,
        );
    } else {
        lemma_fundamental_div_mod_converse((k + 1) * minor + c, major, m, r + minor);
    }
}

proof fn lemma_minor_in_range(major: int, minor: int, k: int)
    requires
        0 <= minor <= major,
        0 < major,
        0 <= k <= major,
    ensures
        0 <= minor_at(major, minor, k) <= minor,
    decreases k,
{
    lemma_minor_ends(major, minor);
    lemma_minor_monotone(major, minor, 0, k);
    lemma_minor_monotone(major, minor, k, major);
}

proof fn lemma_minor_monotone(major: int, minor: int, a: int, b: int)
    requires
        0 <= minor <= major,
        0 < major,
        a <= b,
    ensures
        minor_at(major, minor, a) <= minor_at(major, minor, b),
    decreases b - a,
{
    if a < b {
        lemma_minor_monotone(major, minor, a, b - 1);
        lemma_minor_step(major, minor, b - 1);
    }
}

/// Law: a ray starts on its start tile, ends on its end tile, and has one
/// tile between them for each further step of the longer axis.
pub proof fn ray_joins_its_ends(x1: u16, y1: u16, z1: i16, x2: u16, y2: u16, z2: i16)
    requires
        ray_fits(x1, y1, z1, x2, y2, z2),
    ensures
        ({
            let r = LosRay::between(x1, y1, z1, x2, y2, z2);
            &&& r.tile_at(0) == (x1, y1, z1)
            &&& r.tile_at(r.steps as int) == (x2, y2, if r.steps == 0 {
                z1
            } else {
                z2
            })
            &&& r.steps == max_int(abs_int(x2 - x1), abs_int(y2 - y1))
            &&& r.pending().len() == max_int(r.steps - 1, 0)
        }),
{
    let r = LosRay::between(x1, y1, z1, x2, y2, z2);
    let dx = x2 - x1;
    let dy = y2 - y1;
    let s = r.steps as int;
    let n = r.abs_minor as int;
    lemma_scaled(r.sx as int, abs_int(dx));
    lemma_scaled(r.sy as int, abs_int(dy));
    assert(r.frame());
    if s > 0 {
        r.lemma_end();
        lemma_minor_ends(s, n);
        assert(r.dz * 0 == 0) by (nonlinear_arith);
        assert(0int / s == 0) by {
            lemma_fundamental_div_mod_converse(0, s, 0, 0);
        }
        let a = abs_int(r.dz as int);
        assert(a * s == s * a) by (nonlinear_arith);
        assert(r.dz * s == if r.dz >= 0 {
            a * s
        } else {
            -(a * s)
        }) by (nonlinear_arith)
            requires
                a == abs_int(r.dz as int),
        ;
        vstd::arithmetic::div_mod::lemma_div_multiples_vanish(a, s);
        assert(a * s >= 0) by (nonlinear_arith)
            requires
                a >= 0,
                s >= 0,
        ;
        assert(r.dz < 0 ==> a * s > 0) by (nonlinear_arith)
            requires
                a == abs_int(r.dz as int),
                s > 0,
        ;
        assert(r.z_at(s) == z2);
        assert(r.z_at(0) == z1);
    } else {
        assert(r.x_at(0) == x2 && r.y_at(0) == y2) by {
            assert(r.sx == 0 && r.sy == 0);
            assert(r.sx * (s - 0) == 0) by (nonlinear_arith)
                requires
                    r.sx == 0,
            ;
            assert(r.sy * (n - minor_at(s, n, 0)) == 0) by (nonlinear_arith)
                requires
                    r.sy == 0,
            ;
        }
    }
}

/// Law: consecutive tiles of a ray touch, the longer axis moves by one tile at
/// each step, and no tile before the last is the end tile.
pub proof fn ray_is_connected(r: LosRay, k: int)
    requires
        r.frame(),
        0 <= k < r.steps,
    ensures
        abs_int(r.x_at(k + 1) - r.x_at(k)) <= 1,
        abs_int(r.y_at(k + 1) - r.y_at(k)) <= 1,
        r.x_dominant ==> r.x_at(k + 1) == r.x_at(k) + r.sx,
        !r.x_dominant ==> r.y_at(k + 1) == r.y_at(k) + r.sy,
        r.x_at(k) != r.end_x || r.y_at(k) != r.end_y,
{
    let s = r.steps as int;
    let n = r.abs_minor as int;
    lemma_minor_step(s, n, k);
    lemma_scaled(r.sx as int, s - k);
    lemma_scaled(r.sx as int, s - (k + 1));
    lemma_scaled(r.sy as int, s - k);
    lemma_scaled(r.sy as int, s - (k + 1));
    let m0 = minor_at(s, n, k);
    let m1 = minor_at(s, n, k + 1);
    lemma_scaled(r.sx as int, n - m0);
    lemma_scaled(r.sx as int, n - m1);
    lemma_scaled(r.sy as int, n - m0);
    lemma_scaled(r.sy as int, n - m1);
}

/// Whether index `k` is in the list.
pub open spec fn listed(list: Seq<usize>, k: int) -> bool {
    exists|i: int| 0 <= i < list.len() && #[trigger] list[i] == k
}

/// Follows rays through a tile source.
///
/// A shape stops a ray that meets its vertical extent unless a transparent
/// bit, or else an exempt bit, lets the ray through, and a blocking bit is set.
pub struct LosValidator<'a, T: TileProvider> {
    pub provider: &'a T,
    pub blocking_mask: u64,
    pub exempt_mask: u64,
    pub transparent_mask: u64,
}

impl<'a, T: TileProvider> LosValidator<'a, T> {
    /// Whether a shape of the stack stops a ray at height `z`.
    pub open spec fn stack_stops(&self, shapes: Seq<TileShape>, z: i16) -> bool {
        exists|i: int|
            0 <= i < shapes.len() && (#[trigger] shapes[i]).blocks_sight(
                self.blocking_mask,
                self.exempt_mask,
                self.transparent_mask,
            ) && shapes[i].base() <= z <= shapes[i].top()
    }

    /// Whether tile `t` of a ray stops it.
    pub open spec fn stops(&self, t: RayTile) -> bool {
        self.stack_stops(self.provider.stack(t.0, t.1, Heading::North), t.2)
    }

    /// Whether the source can be asked about every tile of the sequence.
    pub open spec fn all_covered(&self, tiles: Seq<RayTile>) -> bool {
        forall|i: int|
            0 <= i < tiles.len() ==> #[trigger] self.provider.covers(tiles[i].0, tiles[i].1)
    }

    /// Whether no tile between the two ends stops the ray.
    pub open spec fn clear(
        &self,
        x1: u16,
        y1: u16,
        z1: i16,
        x2: u16,
        y2: u16,
        z2: i16,
    ) -> bool {
        let tiles = LosRay::between(x1, y1, z1, x2, y2, z2).pending();
        forall|i: int| 0 <= i < tiles.len() ==> !self.stops(#[trigger] tiles[i])
    }

    /// A validator with the usual masks.
    pub fn new(provider: &'a T) -> (v: Self)
        ensures
            v.provider == provider,
            v.blocking_mask == TileShape::LOS_BLOCKING_DEFAULT,
            v.exempt_mask == TileShape::LOS_EXEMPT_DEFAULT,
            v.transparent_mask == 0,
    {
        LosValidator {
            provider,
            blocking_mask: TileShape::LOS_BLOCKING_DEFAULT,
            exempt_mask: TileShape::LOS_EXEMPT_DEFAULT,
            transparent_mask: 0,
        }
    }

    /// Replaces the flags that stop a ray.
    pub fn with_blocking_mask(self, mask: u64) -> (v: Self)
        ensures
            v == (LosValidator { blocking_mask: mask, ..self }),
    {
        LosValidator { blocking_mask: mask, ..self }
    }

    /// Replaces the flags that exempt a shape.
    pub fn with_exempt_mask(self, mask: u64) -> (v: Self)
        ensures
            v == (LosValidator { exempt_mask: mask, ..self }),
    {
        LosValidator { exempt_mask: mask, ..self }
    }

    /// Sees through shapes with a bit of `mask`, such as `TileFlags::FOLIAGE`.
    pub fn with_transparent_mask(self, mask: u64) -> (v: Self)
        ensures
            v == (LosValidator { transparent_mask: mask, ..self }),
    {
        LosValidator { transparent_mask: mask, ..self }
    }

    /// Whether nothing between the two points stops a ray. The end tiles do not
    /// count. The caller adds the height of the eyes to `z1` and `z2`.
    pub fn has_los(&self, x1: u16, y1: u16, z1: i16, x2: u16, y2: u16, z2: i16) -> (b: bool)
        requires
            ray_fits(x1, y1, z1, x2, y2, z2),
            self.all_covered(LosRay::between(x1, y1, z1, x2, y2, z2).pending()),
        ensures
            b == self.clear(x1, y1, z1, x2, y2, z2),
    {
        let ray = LosRay::new(x1, y1, z1, x2, y2, z2);
        let ghost all = ray.pending();
        let mut rest = ray;
        let ghost mut seen: int = 0;
        loop
            invariant
                rest.wf(),
                all == LosRay::between(x1, y1, z1, x2, y2, z2).pending(),
                self.all_covered(all),
                0 <= seen <= all.len(),
                rest.pending() == all.skip(seen),
                forall|i: int| 0 <= i < seen ==> !self.stops(#[trigger] all[i]),
            ensures
                forall|i: int| 0 <= i < all.len() ==> !self.stops(#[trigger] all[i]),
            decreases rest.pending().len(),
        {
            match rest.next() {
                Some(t) => {
                    assert(t == all[seen]);
                    assert(self.provider.covers(all[seen].0, all[seen].1));
                    if self.tile_blocks_ray(t.0, t.1, t.2) {
                        return false;
                    }
                    proof {
                        assert(all.skip(seen).drop_first() =~= all.skip(seen + 1));
                        seen = seen + 1;
                    }
                },
                None => {
                    break;
                },
            }
        }
        true
    }

    /// All tiles between the two points and the indices of those that stop the ray.
    pub fn trace(&self, x1: u16, y1: u16, z1: i16, x2: u16, y2: u16, z2: i16) -> (t: LosTrace)
        requires
            ray_fits(x1, y1, z1, x2, y2, z2),
            self.all_covered(LosRay::between(x1, y1, z1, x2, y2, z2).pending()),
        ensures
            t.tiles@ == LosRay::between(x1, y1, z1, x2, y2, z2).pending(),
            t.has_los == (t.blockers@.len() == 0),
            forall|i: int, j: int|
                0 <= i < j < t.blockers@.len() ==> #[trigger] t.blockers@[i]
                    < #[trigger] t.blockers@[j],
            forall|i: int|
                0 <= i < t.blockers@.len() ==> (#[trigger] t.blockers@[i]) < t.tiles@.len()
                    && self.stops(t.tiles@[t.blockers@[i] as int]),
            forall|k: int|
                0 <= k < t.tiles@.len() && self.stops(#[trigger] t.tiles@[k]) ==> listed(
                    t.blockers@,
                    k,
                ),
            t.has_los == self.clear(x1, y1, z1, x2, y2, z2),
    {
        let tiles = LosRay::new(x1, y1, z1, x2, y2, z2).collect();
        let mut blockers: Vec<usize> = Vec::new();
        let mut k: usize = 0;
        while k < tiles.len()
            invariant
                k <= tiles@.len(),
                self.all_covered(tiles@),
                forall|i: int, j: int|
                    0 <= i < j < blockers@.len() ==> #[trigger] blockers@[i]
                        < #[trigger] blockers@[j],
                forall|i: int|
                    0 <= i < blockers@.len() ==> (#[trigger] blockers@[i]) < k && self.stops(
                        tiles@[blockers@[i] as int],
                    ),
                forall|m: int|
                    0 <= m < k && self.stops(#[trigger] tiles@[m]) ==> listed(blockers@, m),
            decreases tiles@.len() - k,
        {
            let (x, y, z) = tiles[k];
            assert(self.provider.covers(tiles@[k as int].0, tiles@[k as int].1));
            let ghost prev = blockers@;
            if self.tile_blocks_ray(x, y, z) {
                blockers.push(k);
            }
            assert forall|m: int| 0 <= m < k + 1 && self.stops(
                #[trigger] tiles@[m],
            ) implies listed(blockers@, m) by {
                if m < k {
                    assert(listed(prev, m));
                    let i = choose|i: int| 0 <= i < prev.len() && #[trigger] prev[i] == m;
                    assert(blockers@[i] == m);
                } else {
                    assert(blockers@[blockers@.len() - 1] == m);
                }
            }
            k += 1;
        }
        let has_los = blockers.len() == 0;
        proof {
            if blockers@.len() > 0 {
                assert(self.stops(tiles@[blockers@[0] as int]));
            } else {
                assert forall|m: int| 0 <= m < tiles@.len() implies !self.stops(
                    #[trigger] tiles@[m],
                ) by {
                    assert(!listed(blockers@, m));
                }
            }
        }
        LosTrace { has_los, tiles, blockers }
    }

    /// Whether a shape of tile `(x, y)` stops a ray at height `ray_z`.
    fn tile_blocks_ray(&self, x: u16, y: u16, ray_z: i16) -> (b: bool)
        requires
            self.provider.covers(x, y),
        ensures
            b == self.stops((x, y, ray_z)),
    {
        let shapes = self.provider.query_tile_stack(x, y, Heading::North);
        let mut i: usize = 0;
        while i < shapes.len()
            invariant
                i <= shapes@.len(),
                shapes@ == self.provider.stack(x, y, Heading::North),
                forall|k: int|
                    0 <= k < i ==> !((#[trigger] shapes@[k]).blocks_sight(
                        self.blocking_mask,
                        self.exempt_mask,
                        self.transparent_mask,
                    ) && shapes@[k].base() <= ray_z <= shapes@[k].top()),
            decreases shapes@.len() - i,
        {
            if shapes[i].blocks_los_masked(
                self.blocking_mask,
                self.exempt_mask,
                self.transparent_mask,
            ) {
                if ray_z >= shapes[i].z_base() as i16 && ray_z <= shapes[i].z_top() as i16 {
                    return true;
                }
            }
            i += 1;
        }
        false
    }
}

} // verus!

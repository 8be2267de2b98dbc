//! What a search is to find, and what steps cost.

use vstd::prelude::*;

use super::frontier::Place;
use crate::coords::Heading;
use crate::ecumene::land_z::{abs_int, max_int};

verus! {

/// News of a search, for one who watches it.
#[derive(Debug, Clone, Copy, PartialEq, Eq, Structural)]
pub enum AStarEvent {
    /// A place was visited, at cost `g`.
    Visited { x: isize, y: isize, z: i8, g: isize },
    /// A place was found that may be visited later.
    Frontier { x: isize, y: isize, z: i8, f: isize },
    /// A point of the way that was found.
    Path { x: isize, y: isize, z: i8 },
}

/// What the watcher of a search wants.
#[derive(Debug, Clone, Copy, PartialEq, Eq, Structural)]
pub enum AStarAction {
    /// The search goes on.
    Continue,
    /// The search ends at once.
    Cancel,
}

/// How the distance to the destination is estimated.
#[derive(Debug, Clone, Copy, PartialEq, Eq, Structural)]
pub enum DistanceFunc {
    Manhattan,
    Chebyshev,
    Diagonal,
    Euclidean,
}

impl Default for DistanceFunc {
    fn default() -> (d: DistanceFunc)
        ensures
            d == DistanceFunc::Diagonal,
    {
        DistanceFunc::Diagonal
    }
}

/// Settings of a search. What is not set has a default.
#[derive(Debug, Clone, Copy, PartialEq, Eq, Structural)]
pub struct TraceOptions {
    /// Whether diagonal steps are taken. Default: no.
    pub allow_diagonal_move: Option<bool>,
    /// Whether the walker flies. Default: no.
    pub fly: Option<bool>,
    /// Flags of shapes that may be entered although they are impassable. Default: none.
    pub passable_mask: Option<u64>,
    /// Default: diagonal.
    pub heuristic_distance: Option<DistanceFunc>,
    /// Weight of a straight step in the estimate. Default: 5.
    pub heuristic_straight: Option<isize>,
    /// Weight of a diagonal step in the estimate. Default: that of a straight one.
    pub heuristic_diagonal: Option<isize>,
    /// Cost of a change of direction. Default: 1.
    pub cost_turn: Option<isize>,
    /// Cost of a straight step. Default: 1.
    pub cost_move_straight: Option<isize>,
    /// Cost of a diagonal step. Default: that of a straight one.
    pub cost_move_diagonal: Option<isize>,
    /// Cost of a step onto a tile that a multi-object occupies, added if positive.
    /// Default: 0.
    pub cost_move_multi: Option<isize>,
    /// No place is visited at a greater cost. Default: no limit.
    pub cost_limit: Option<isize>,
    /// Edges of the area of the search. Default: those of the map.
    pub left: Option<isize>,
    pub top: Option<isize>,
    pub right: Option<isize>,
    pub bottom: Option<isize>,
    /// How far from the destination the way may end. Default: 0.
    pub accuracy_x: Option<isize>,
    pub accuracy_y: Option<isize>,
    pub accuracy_z: Option<isize>,
    /// Whether all places visited are returned in place of the way. Default: no.
    pub all_points: Option<bool>,
    /// Milliseconds after which the search ends. Default: no limit.
    pub time_limit: Option<isize>,
}

impl Default for TraceOptions {
    fn default() -> (o: TraceOptions)
        ensures
            o == TraceOptions::unset(),
    {
        TraceOptions {
            allow_diagonal_move: None,
            fly: None,
            passable_mask: None,
            heuristic_distance: None,
            heuristic_straight: None,
            heuristic_diagonal: None,
            cost_turn: None,
            cost_move_straight: None,
            cost_move_diagonal: None,
            cost_move_multi: None,
            cost_limit: None,
            left: None,
            top: None,
            right: None,
            bottom: None,
            accuracy_x: None,
            accuracy_y: None,
            accuracy_z: None,
            all_points: None,
            time_limit: None,
        }
    }
}

impl TraceOptions {
    /// Settings of which none is set.
    pub open spec fn unset() -> TraceOptions {
        TraceOptions {
            allow_diagonal_move: None,
            fly: None,
            passable_mask: None,
            heuristic_distance: None,
            heuristic_straight: None,
            heuristic_diagonal: None,
            cost_turn: None,
            cost_move_straight: None,
            cost_move_diagonal: None,
            cost_move_multi: None,
            cost_limit: None,
            left: None,
            top: None,
            right: None,
            bottom: None,
            accuracy_x: None,
            accuracy_y: None,
            accuracy_z: None,
            all_points: None,
            time_limit: None,
        }
    }
}

/// A point of a way, or a place that was visited with its cost `w`.
#[derive(Debug, Clone, Copy, PartialEq, Eq, Structural)]
pub struct Point {
    pub x: isize,
    pub y: isize,
    pub z: i8,
    pub w: isize,
}

/// No coordinate of a search is farther than this from zero.
pub const FAR: i128 = 0x400_0000_0000_0000;

/// The settings of a search with the defaults filled in.
#[derive(Debug, Clone, Copy, PartialEq, Eq, Structural)]
pub struct Plan {
    pub start: Place,
    pub facing: Heading,
    pub goal: Place,
    pub diagonal: bool,
    pub distance: DistanceFunc,
    pub weight_straight: isize,
    pub weight_diagonal: isize,
    pub cost_turn: isize,
    pub cost_straight: isize,
    pub cost_diagonal: isize,
    pub cost_multi: isize,
    pub cost_limit: isize,
    pub left: isize,
    pub top: isize,
    pub right: isize,
    pub bottom: isize,
    pub slack_x: isize,
    pub slack_y: isize,
    pub slack_z: isize,
}

/// The value that is set, or else another one.
pub open spec fn set_or<V>(o: Option<V>, default: V) -> V {
    match o {
        Some(v) => v,
        None => default,
    }
}

/// The greatest number whose square is not above `n`.
pub open spec fn is_root(r: int, n: int) -> bool {
    0 <= r && r * r <= n && n < (r + 1) * (r + 1)
}

pub open spec fn root_of(n: int) -> int {
    choose|r: int| is_root(r, n)
}

/// A number has one root.
pub proof fn lemma_one_root(r: int, n: int)
    requires
        is_root(r, n),
    ensures
        root_of(n) == r,
{
    let q = root_of(n);
    assert(is_root(q, n));
    assert(q == r) by (nonlinear_arith)
        requires
            0 <= r,
            0 <= q,
            r * r <= n,
            q * q <= n,
            n < (r + 1) * (r + 1),
            n < (q + 1) * (q + 1),
    ;
}

/// The whole part of the square root.
pub fn root(n: u128) -> (r: u128)
    requires
        n < 0x1000_0000_0000_0000_0000_0000_0000_0000,
    ensures
        r == root_of(n as int),
        r < 0x4000_0000_0000_0000,
        is_root(r as int, n as int),
{
    let mut low: u128 = 0;
    let mut high: u128 = 0x4000_0000_0000_0000;
    assert(0x4000_0000_0000_0000 * 0x4000_0000_0000_0000
        == 0x1000_0000_0000_0000_0000_0000_0000_0000int);
    while high - low > 1
        invariant
            low < high <= 0x4000_0000_0000_0000,
            low * low <= n < high * high,
        decreases high - low,
    {
        let mid: u128 = (low + high) / 2;
        assert(mid * mid <= 0x4000_0000_0000_0000 * 0x4000_0000_0000_0000) by (nonlinear_arith)
            requires
                0 <= mid <= 0x4000_0000_0000_0000,
        ;
        if mid * mid <= n {
            low = mid;
        } else {
            high = mid;
        }
    }
    assert(high == low + 1);
    assert(is_root(low as int, n as int));
    proof {
        lemma_one_root(low as int, n as int);
    }
    low
}

/// Whether a coordinate is one of a search.
pub open spec fn in_reach(c: int) -> bool {
    -FAR <= c <= FAR
}

fn gap(a: isize, b: isize) -> (d: i128)
    requires
        in_reach(a as int),
        in_reach(b as int),
    ensures
        d == abs_int(a - b),
        0 <= d <= 2 * FAR,
{
    let d: i128 = a as i128 - b as i128;
    if d < 0 {
        -d
    } else {
        d
    }
}

impl Plan {
    /// The settings with the defaults filled in.
    pub open spec fn made_of(
        start: Place,
        facing: Heading,
        goal: Place,
        options: TraceOptions,
        map_width: isize,
        map_height: isize,
    ) -> Plan {
        let straight = set_or(options.cost_move_straight, 1);
        let weight = set_or(options.heuristic_straight, 5);
        Plan {
            start,
            facing,
            goal,
            diagonal: set_or(options.allow_diagonal_move, false),
            distance: set_or(options.heuristic_distance, DistanceFunc::Diagonal),
            weight_straight: weight,
            weight_diagonal: set_or(options.heuristic_diagonal, weight),
            cost_turn: set_or(options.cost_turn, 1),
            cost_straight: straight,
            cost_diagonal: set_or(options.cost_move_diagonal, straight),
            cost_multi: set_or(options.cost_move_multi, 0),
            cost_limit: set_or(options.cost_limit, isize::MAX),
            left: set_or(options.left, 0),
            top: set_or(options.top, 0),
            right: set_or(options.right, map_width),
            bottom: set_or(options.bottom, map_height),
            slack_x: set_or(options.accuracy_x, 0),
            slack_y: set_or(options.accuracy_y, 0),
            slack_z: set_or(options.accuracy_z, 0),
        }
    }

    pub fn new(
        start: Place,
        facing: Heading,
        goal: Place,
        options: &TraceOptions,
        map_width: isize,
        map_height: isize,
    ) -> (p: Plan)
        ensures
            p == Plan::made_of(start, facing, goal, *options, map_width, map_height),
    {
        let straight: isize = options.cost_move_straight.unwrap_or(1);
        let weight: isize = options.heuristic_straight.unwrap_or(5);
        Plan {
            start,
            facing,
            goal,
            diagonal: options.allow_diagonal_move.unwrap_or(false),
            distance: options.heuristic_distance.unwrap_or(DistanceFunc::Diagonal),
            weight_straight: weight,
            weight_diagonal: options.heuristic_diagonal.unwrap_or(weight),
            cost_turn: options.cost_turn.unwrap_or(1),
            cost_straight: straight,
            cost_diagonal: options.cost_move_diagonal.unwrap_or(straight),
            cost_multi: options.cost_move_multi.unwrap_or(0),
            cost_limit: options.cost_limit.unwrap_or(isize::MAX),
            left: options.left.unwrap_or(0),
            top: options.top.unwrap_or(0),
            right: options.right.unwrap_or(map_width),
            bottom: options.bottom.unwrap_or(map_height),
            slack_x: options.accuracy_x.unwrap_or(0),
            slack_y: options.accuracy_y.unwrap_or(0),
            slack_z: options.accuracy_z.unwrap_or(0),
        }
    }

    /// Whether start, destination and area are near enough to zero.
    pub open spec fn wf(self) -> bool {
        &&& in_reach(self.start.x as int) && in_reach(self.start.y as int)
        &&& in_reach(self.goal.x as int) && in_reach(self.goal.y as int)
        &&& in_reach(self.left as int) && in_reach(self.right as int)
        &&& in_reach(self.top as int) && in_reach(self.bottom as int)
    }

    /// Whether a tile is in the area of the search.
    pub open spec fn inside(self, x: int, y: int) -> bool {
        self.left <= x < self.right && self.top <= y < self.bottom
    }

    /// Number of directions steps are taken in.
    pub open spec fn ways(self) -> int {
        if self.diagonal {
            8
        } else {
            4
        }
    }

    /// Direction number `k`, clockwise from north.
    pub open spec fn way(self, k: int) -> Heading {
        if self.diagonal {
            Heading::at(k)
        } else {
            Heading::at(2 * k)
        }
    }

    /// Estimate of the cost from a tile to the destination.
    pub open spec fn estimate(self, x: int, y: int) -> int {
        let dx = abs_int(self.goal.x - x);
        let dy = abs_int(self.goal.y - y);
        let less = if dx <= dy { dx } else { dy };
        match self.distance {
            DistanceFunc::Manhattan => (dx + dy) * self.weight_straight,
            DistanceFunc::Chebyshev => max_int(dx, dy) * self.weight_straight,
            DistanceFunc::Diagonal => self.weight_straight * (dx + dy) + (self.weight_diagonal - 2
                * self.weight_straight) * less,
            DistanceFunc::Euclidean => root_of(dx * dx + dy * dy) * self.weight_straight,
        }
    }

    /// Distance of a place from the destination.
    pub open spec fn distance_of(self, p: Place) -> int {
        max_int(
            max_int(abs_int(self.goal.x - p.x), abs_int(self.goal.y - p.y)),
            abs_int(self.goal.z - p.z),
        )
    }

    /// Whether a place is near enough to the destination.
    pub open spec fn arrived(self, p: Place) -> bool {
        &&& abs_int(self.goal.x - p.x) <= self.slack_x
        &&& abs_int(self.goal.y - p.y) <= self.slack_y
        &&& abs_int(self.goal.z - p.z) <= self.slack_z
    }

    pub(crate) fn is_inside(&self, x: i128, y: i128) -> (b: bool)
        ensures
            b == self.inside(x as int, y as int),
    {
        self.left as i128 <= x && x < self.right as i128 && self.top as i128 <= y && y
            < self.bottom as i128
    }

    pub(crate) fn get_way(&self, k: u8) -> (h: Heading)
        requires
            k < self.ways(),
        ensures
            h == self.way(k as int),
    {
        if self.diagonal {
            Heading::from_index(k)
        } else {
            Heading::from_index(2 * k)
        }
    }

    pub(crate) fn get_estimate(&self, x: isize, y: isize) -> (e: i128)
        requires
            self.wf(),
            in_reach(x as int),
            in_reach(y as int),
        ensures
            e == self.estimate(x as int, y as int),
            -0x4000_0000_0000_0000_0000_0000_0000_0000 <= e
                <= 0x4000_0000_0000_0000_0000_0000_0000_0000,
    {
        let dx: i128 = gap(self.goal.x, x);
        let dy: i128 = gap(self.goal.y, y);
        let s: i128 = self.weight_straight as i128;
        let d: i128 = self.weight_diagonal as i128;
        let sum: i128 = dx + dy;
        let less: i128 = if dx <= dy {
            dx
        } else {
            dy
        };
        let more: i128 = if dx <= dy {
            dy
        } else {
            dx
        };
        let turn: i128 = d - 2 * s;
        proof {
            lemma_product_bound(sum as int, s as int);
            lemma_product_bound(more as int, s as int);
            lemma_product_bound(less as int, turn as int);
            lemma_square_bound(dx as int);
            lemma_square_bound(dy as int);
            assert(s * sum == sum * s) by (nonlinear_arith);
            assert(turn * less == less * turn) by (nonlinear_arith);
        }
        match self.distance {
            DistanceFunc::Manhattan => sum * s,
            DistanceFunc::Chebyshev => more * s,
            DistanceFunc::Diagonal => s * sum + turn * less,
            DistanceFunc::Euclidean => {
                let n: u128 = (dx * dx + dy * dy) as u128;
                let r: u128 = root(n);
                proof {
                    assert(r <= 0x1000_0000_0000_0000) by (nonlinear_arith)
                        requires
                            0 <= r,
                            r * r <= n,
                            n <= 0x100_0000_0000_0000_0000_0000_0000_0000,
                    ;
                    lemma_product_bound(r as int, s as int);
                }
                r as i128 * s
            },
        }
    }

    pub(crate) fn get_distance(&self, p: Place) -> (d: i128)
        requires
            self.wf(),
            in_reach(p.x as int),
            in_reach(p.y as int),
        ensures
            d == self.distance_of(p),
    {
        let dx: i128 = gap(self.goal.x, p.x);
        let dy: i128 = gap(self.goal.y, p.y);
        let dz: i128 = gap(self.goal.z as isize, p.z as isize);
        let xy: i128 = if dx >= dy {
            dx
        } else {
            dy
        };
        if xy >= dz {
            xy
        } else {
            dz
        }
    }

    pub(crate) fn has_arrived(&self, p: Place) -> (b: bool)
        requires
            self.wf(),
            in_reach(p.x as int),
            in_reach(p.y as int),
        ensures
            b == self.arrived(p),
    {
        gap(self.goal.x, p.x) <= self.slack_x as i128 && gap(self.goal.y, p.y)
            <= self.slack_y as i128 && gap(self.goal.z as isize, p.z as isize)
            <= self.slack_z as i128
    }
}

proof fn lemma_product_bound(a: int, b: int)
    requires
        0 <= a <= 0x1000_0000_0000_0000,
        -0x2_0000_0000_0000_0000 <= b <= 0x2_0000_0000_0000_0000,
    ensures
        -0x2000_0000_0000_0000_0000_0000_0000_0000 <= a * b
            <= 0x2000_0000_0000_0000_0000_0000_0000_0000,
{
    assert(-0x1000_0000_0000_0000 * 0x2_0000_0000_0000_0000 <= a * b <= 0x1000_0000_0000_0000
        * 0x2_0000_0000_0000_0000) by (nonlinear_arith)
        requires
            0 <= a <= 0x1000_0000_0000_0000,
            -0x2_0000_0000_0000_0000 <= b <= 0x2_0000_0000_0000_0000,
    ;
}

proof fn lemma_square_bound(a: int)
    requires
        0 <= a <= 2 * FAR,
    ensures
        0 <= a * a <= 0x40_0000_0000_0000_0000_0000_0000_0000,
{
    assert(0 <= a * a <= 0x800_0000_0000_0000 * 0x800_0000_0000_0000) by (nonlinear_arith)
        requires
            0 <= a <= 0x800_0000_0000_0000,
    ;
}

} // verus!

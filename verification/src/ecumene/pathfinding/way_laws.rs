//! What a search promises, in the coordinates of its places and the settings it was given.

use vstd::multiset::Multiset;
use vstd::prelude::*;

use super::cache::{flat_leads, flat_step, lemma_one_step};
use super::frontier::{Place, Scored};
use super::plan::{is_root, lemma_one_root, AStarAction, AStarEvent, Plan, Point, TraceOptions};
use super::surveyor::{
    all_let_on, answers, frontier_event, known, lineage, nearest, nearest_is_nearest, outcome,
    path_event, visit_event, way_to, Surveyor, MAX_STEPS_BACK,
};
use crate::coords::Heading;
use crate::ecumene::movement::{climb_from, fall_limit, reach_limit};
use crate::ecumene::step_laws::{
    apart, climbs_are_small, footing_at, from_bottom_up, has_room, nobody_climbs_too_high,
    steps_lead_to_the_next_tile, upright, walkers_stand_where_there_is_room,
};
use crate::ecumene::tile_provider::TileProvider;
use crate::vessel::tile_shape::TileShape;

verus! {

/// The setting, or what holds where it is not set.
pub open spec fn chosen(o: Option<isize>, otherwise: int) -> int {
    match o {
        Some(v) => v as int,
        None => otherwise,
    }
}

/// Whether a place is as near to the destination as the settings ask, in each of the three
/// coordinates; on the spot where they do not say.
pub open spec fn near_enough(options: TraceOptions, goal: Place, p: Place) -> bool {
    &&& apart(p.x as int, goal.x as int) <= chosen(options.accuracy_x, 0)
    &&& apart(p.y as int, goal.y as int) <= chosen(options.accuracy_y, 0)
    &&& apart(p.z as int, goal.z as int) <= chosen(options.accuracy_z, 0)
}

/// How far a place is from another: the greatest of the three differences.
pub open spec fn remoteness(p: Place, q: Place) -> int {
    let x = apart(p.x as int, q.x as int);
    let y = apart(p.y as int, q.y as int);
    let z = apart(p.z as int, q.z as int);
    let xy = if x >= y {
        x
    } else {
        y
    };
    if xy >= z {
        xy
    } else {
        z
    }
}

/// Law: each setting is taken as it is given; where one is not given, steps are straight
/// and cost one, a turn costs one, houses cost nothing, there is no limit to the cost, the
/// search covers the map, ends on the spot, and is led by five for each step still to go.
pub proof fn settings_are_taken(
    start: Place,
    facing: Heading,
    goal: Place,
    options: TraceOptions,
    width: isize,
    height: isize,
)
    ensures
        ({
            let p = Plan::made_of(start, facing, goal, options, width, height);
            let straight = chosen(options.cost_move_straight, 1);
            let weight = chosen(options.heuristic_straight, 5);
            &&& p.start == start && p.facing == facing && p.goal == goal
            &&& p.diagonal <==> options.allow_diagonal_move == Some(true)
            &&& options.heuristic_distance is None ==> p.distance is Diagonal
            &&& options.heuristic_distance matches Some(d) ==> p.distance == d
            &&& p.cost_straight == straight
            &&& p.cost_diagonal == chosen(options.cost_move_diagonal, straight)
            &&& p.cost_turn == chosen(options.cost_turn, 1)
            &&& p.cost_multi == chosen(options.cost_move_multi, 0)
            &&& p.cost_limit == chosen(options.cost_limit, isize::MAX as int)
            &&& p.weight_straight == weight
            &&& p.weight_diagonal == chosen(options.heuristic_diagonal, weight)
            &&& p.left == chosen(options.left, 0) && p.top == chosen(options.top, 0)
            &&& p.right == chosen(options.right, width as int)
            &&& p.bottom == chosen(options.bottom, height as int)
            &&& p.slack_x == chosen(options.accuracy_x, 0)
            &&& p.slack_y == chosen(options.accuracy_y, 0)
            &&& p.slack_z == chosen(options.accuracy_z, 0)
        }),
{
}

/// Only the last place of a run may be near enough to the destination.
proof fn lemma_only_last_arrives<'a, T: TileProvider>(
    s: &Surveyor<'a, T>,
    start: Place,
    facing: Heading,
    goal: Place,
    options: TraceOptions,
    width: isize,
    height: isize,
    run: Seq<Scored>,
)
    requires
        s.is_run(Plan::made_of(start, facing, goal, options, width, height), run),
    ensures
        ({
            let plan = Plan::made_of(start, facing, goal, options, width, height);
            let v = s.after(plan, run).visited;
            &&& forall|i: int|
                0 <= i < v.len() - 1 ==> !near_enough(options, goal, (#[trigger] v[i]).at)
            &&& Surveyor::<'a, T>::found(plan, s.after(plan, run)) <==> v.len() > 0 && near_enough(
                options,
                goal,
                v.last().at,
            )
        }),
    decreases run.len(),
{
    let plan = Plan::made_of(start, facing, goal, options, width, height);
    if run.len() > 0 {
        lemma_only_last_arrives(
            s,
            start,
            facing,
            goal,
            options,
            width,
            height,
            run.drop_last(),
        );
        let v = s.after(plan, run).visited;
        let w = s.after(plan, run.drop_last()).visited;
        assert forall|i: int| 0 <= i < v.len() - 1 implies !near_enough(
            options,
            goal,
            (#[trigger] v[i]).at,
        ) by {
            assert(v[i] == w[i]);
            if v.len() > w.len() && i == w.len() - 1 {
                assert(w.last() == w[i]);
            }
        }
    }
}

/// Law: a search that counts the way as found has just visited a place that is near enough
/// to the destination in all three coordinates; and one that does not has visited no such
/// place at all, so none is passed by.
pub proof fn found_is_near_the_destination<'a, T: TileProvider>(
    s: &Surveyor<'a, T>,
    start: Place,
    facing: Heading,
    goal: Place,
    options: TraceOptions,
    width: isize,
    height: isize,
    run: Seq<Scored>,
)
    requires
        s.is_run(Plan::made_of(start, facing, goal, options, width, height), run),
    ensures
        ({
            let plan = Plan::made_of(start, facing, goal, options, width, height);
            let v = s.after(plan, run).visited;
            &&& Surveyor::<'a, T>::found(plan, s.after(plan, run)) ==> v.len() > 0 && near_enough(
                options,
                goal,
                v.last().at,
            )
            &&& !Surveyor::<'a, T>::found(plan, s.after(plan, run)) ==> forall|i: int|
                0 <= i < v.len() ==> !near_enough(options, goal, (#[trigger] v[i]).at)
        }),
{
    lemma_only_last_arrives(s, start, facing, goal, options, width, height, run);
    let plan = Plan::made_of(start, facing, goal, options, width, height);
    let v = s.after(plan, run).visited;
    if !Surveyor::<'a, T>::found(plan, s.after(plan, run)) {
        assert forall|i: int| 0 <= i < v.len() implies !near_enough(
            options,
            goal,
            (#[trigger] v[i]).at,
        ) by {
            if i == v.len() - 1 {
                assert(v[i] == v.last());
            }
        }
    }
}

/// Law: the way that a search returns ends at the one of its visits that is the least
/// remote from the destination, the first of several.
pub proof fn ways_end_as_near_as_can_be(
    start: Place,
    facing: Heading,
    goal: Place,
    options: TraceOptions,
    width: isize,
    height: isize,
    visited: Seq<Scored>,
    n: int,
)
    requires
        0 < n <= visited.len(),
        visited.len() <= usize::MAX,
    ensures
        ({
            let plan = Plan::made_of(start, facing, goal, options, width, height);
            let best = nearest(plan, visited, n);
            let way = outcome(visited, best, false);
            &&& best is Some
            &&& 0 <= best->0 < n
            &&& way.len() > 0
            &&& way.last() == (Point {
                x: visited[(best->0) as int].at.x,
                y: visited[(best->0) as int].at.y,
                z: visited[(best->0) as int].at.z,
                w: 0,
            })
            &&& forall|i: int|
                0 <= i < n ==> remoteness(visited[(best->0) as int].at, goal) <= remoteness(
                    (#[trigger] visited[i]).at,
                    goal,
                )
            &&& forall|i: int|
                0 <= i < best->0 ==> remoteness(visited[(best->0) as int].at, goal) < remoteness(
                    (#[trigger] visited[i]).at,
                    goal,
                )
        }),
{
    let plan = Plan::made_of(start, facing, goal, options, width, height);
    nearest_is_nearest(plan, visited, n);
    let best = nearest(plan, visited, n);
    let b = (best->0) as int;
    assert(plan.distance_of(visited[b].at) == remoteness(visited[b].at, goal));
    assert forall|i: int| 0 <= i < n implies plan.distance_of((#[trigger] visited[i]).at)
        == remoteness(visited[i].at, goal) by {}
    lemma_way_last(visited, b);
}

proof fn lemma_way_last(visited: Seq<Scored>, b: int)
    requires
        0 <= b < visited.len(),
    ensures
        way_to(visited, b).len() > 0,
        way_to(visited, b).last() == (Point {
            x: visited[b].at.x,
            y: visited[b].at.y,
            z: visited[b].at.z,
            w: 0,
        }),
{
    let line = super::surveyor::lineage(visited, b, MAX_STEPS_BACK as nat);
    assert(line.last() == b);
    assert(way_to(visited, b).last() == super::surveyor::way_point(visited[line.last()]));
}

/// Law: a search without slack that finds its way returns one that ends on the very spot,
/// at its height.
pub proof fn exact_searches_end_on_the_spot<'a, T: TileProvider>(
    s: &Surveyor<'a, T>,
    start: Place,
    facing: Heading,
    goal: Place,
    options: TraceOptions,
    width: isize,
    height: isize,
    run: Seq<Scored>,
)
    requires
        chosen(options.accuracy_x, 0) == 0,
        chosen(options.accuracy_y, 0) == 0,
        chosen(options.accuracy_z, 0) == 0,
        s.is_run(Plan::made_of(start, facing, goal, options, width, height), run),
        Surveyor::<'a, T>::found(
            Plan::made_of(start, facing, goal, options, width, height),
            s.after(Plan::made_of(start, facing, goal, options, width, height), run),
        ),
        s.after(
            Plan::made_of(start, facing, goal, options, width, height),
            run,
        ).visited.len() <= usize::MAX,
    ensures
        ({
            let plan = Plan::made_of(start, facing, goal, options, width, height);
            let v = s.after(plan, run).visited;
            let way = outcome(v, nearest(plan, v, v.len() as int), false);
            &&& v.last().at == goal
            &&& way.len() > 0
            &&& way.last() == (Point { x: goal.x, y: goal.y, z: goal.z, w: 0 })
        }),
{
    let plan = Plan::made_of(start, facing, goal, options, width, height);
    let v = s.after(plan, run).visited;
    lemma_only_last_arrives(s, start, facing, goal, options, width, height, run);
    ways_end_as_near_as_can_be(start, facing, goal, options, width, height, v, v.len() as int);
    let b = (nearest(plan, v, v.len() as int)->0) as int;
    assert(v[v.len() - 1] == v.last());
    assert(remoteness(v[v.len() - 1].at, goal) == 0);
    assert(remoteness(v[b].at, goal) <= 0);
}

/// Law: each visit but the first lies in the area of the search, one tile on from an
/// earlier visit in the direction of its step, which is a diagonal one only where that is
/// allowed; and at the height at which the ground lets that step end.
pub proof fn visits_are_steps_within_the_area<'a, T: TileProvider>(
    s: &Surveyor<'a, T>,
    start: Place,
    facing: Heading,
    goal: Place,
    options: TraceOptions,
    width: isize,
    height: isize,
    run: Seq<Scored>,
    i: int,
)
    requires
        s.is_run(Plan::made_of(start, facing, goal, options, width, height), run),
        s.after(
            Plan::made_of(start, facing, goal, options, width, height),
            run,
        ).visited.len() <= usize::MAX,
        0 <= i < s.after(
            Plan::made_of(start, facing, goal, options, width, height),
            run,
        ).visited.len(),
    ensures
        ({
            let v = s.after(
                Plan::made_of(start, facing, goal, options, width, height),
                run,
            ).visited;
            let e = v[i];
            &&& i == 0 ==> e.at == start && e.g == 0
            &&& i > 0 ==> {
                let from = v[e.from as int];
                &&& 0 <= e.from < i
                &&& e.at.x == from.at.x + e.facing.dx()
                &&& e.at.y == from.at.y + e.facing.dy()
                &&& chosen(options.left, 0) <= e.at.x < chosen(options.right, width as int)
                &&& chosen(options.top, 0) <= e.at.y < chosen(options.bottom, height as int)
                &&& options.allow_diagonal_move != Some(true) ==> e.facing.dx() == 0
                    || e.facing.dy() == 0
                &&& e.g <= chosen(options.cost_limit, isize::MAX as int)
                &&& s.height_after(from.at, e.facing) == Some(e.at.z)
            }
        }),
{
    let plan = Plan::made_of(start, facing, goal, options, width, height);
    s.runs_are_sound(plan, run);
    let v = s.after(plan, run).visited;
    assert(s.rooted(plan, v, i));
    if i > 0 {
        let e = v[i];
        let from = v[e.from as int];
        assert(s.step(plan, from.at, e.facing) == Some(e.at));
    }
}

/// Law: what a visit costs is what the one before it cost, and the step: a diagonal or a
/// straight one, with the turn if its direction changes, and the house if there is one on
/// the tile and houses cost.
pub proof fn costs_add_up<'a, T: TileProvider>(
    s: &Surveyor<'a, T>,
    start: Place,
    facing: Heading,
    goal: Place,
    options: TraceOptions,
    width: isize,
    height: isize,
    run: Seq<Scored>,
    i: int,
)
    requires
        s.is_run(Plan::made_of(start, facing, goal, options, width, height), run),
        s.after(
            Plan::made_of(start, facing, goal, options, width, height),
            run,
        ).visited.len() <= usize::MAX,
        0 < i < s.after(
            Plan::made_of(start, facing, goal, options, width, height),
            run,
        ).visited.len(),
        0 <= s.after(
            Plan::made_of(start, facing, goal, options, width, height),
            run,
        ).visited[i].at.x <= 65535,
        0 <= s.after(
            Plan::made_of(start, facing, goal, options, width, height),
            run,
        ).visited[i].at.y <= 65535,
    ensures
        ({
            let v = s.after(
                Plan::made_of(start, facing, goal, options, width, height),
                run,
            ).visited;
            let e = v[i];
            let from = v[e.from as int];
            let straight = chosen(options.cost_move_straight, 1);
            let step = if e.facing.dx() != 0 && e.facing.dy() != 0 {
                chosen(options.cost_move_diagonal, straight)
            } else {
                straight
            };
            let turn = if e.facing == from.facing {
                0
            } else {
                chosen(options.cost_turn, 1)
            };
            let house = if s.provider.multi_on(e.at.x as u16, e.at.y as u16) && chosen(
                options.cost_move_multi,
                0,
            ) > 0 {
                chosen(options.cost_move_multi, 0)
            } else {
                0
            };
            e.g - from.g == step + turn + house
        }),
{
    let plan = Plan::made_of(start, facing, goal, options, width, height);
    s.runs_are_sound(plan, run);
    let v = s.after(plan, run).visited;
    assert(s.rooted(plan, v, i));
}

/// Law: what is visited next is never worse than anything else that was found: no entry of
/// the frontier has a lesser sum of its cost and the estimate of what is left.
pub proof fn the_most_promising_comes_next<'a, T: TileProvider>(
    s: &Surveyor<'a, T>,
    plan: Plan,
    run: Seq<Scored>,
    other: Scored,
)
    requires
        s.is_run(plan, run),
        run.len() > 0,
        s.after(plan, run.drop_last()).open.count(other) > 0,
    ensures
        run.last().f <= other.f,
        s.after(plan, run.drop_last()).open.count(run.last()) > 0,
{
}

/// Law: an offer is scored by its cost and the estimate from its tile, and is not made for
/// a place that was visited or that costs more than the limit.
pub proof fn offers_are_scored<'a, T: TileProvider>(
    s: &Surveyor<'a, T>,
    plan: Plan,
    visited: Seq<Scored>,
    k: int,
)
    requires
        0 < visited.len() <= usize::MAX,
        s.offer(plan, visited, k) is Some,
        i128::MIN <= (s.offer(plan, visited, k)->0).g + plan.estimate(
            (s.offer(plan, visited, k)->0).at.x as int,
            (s.offer(plan, visited, k)->0).at.y as int,
        ) <= i128::MAX,
    ensures
        ({
            let o = s.offer(plan, visited, k)->0;
            &&& o.f == o.g + plan.estimate(o.at.x as int, o.at.y as int)
            &&& o.g <= plan.cost_limit
            &&& forall|i: int| 0 <= i < visited.len() ==> (#[trigger] visited[i]).at != o.at
            &&& o.from == visited.len() - 1
        }),
{
    let o = s.offer(plan, visited, k)->0;
    assert forall|i: int| 0 <= i < visited.len() implies (#[trigger] visited[i]).at != o.at by {
        if visited[i].at == o.at {
            assert(known(visited, o.at));
        }
    }
}

/// Law: from a tile that is `d` diagonal and `s` straight steps from the destination, what
/// is left is estimated at so many steps of their weights: all of them straight by one
/// measure, the greater of the two differences by another, each by its own weight by the
/// third, and the straight line, rounded down, by the last.
pub proof fn estimates_count_the_steps_left(plan: Plan, x: int, y: int, d: int, s: int)
    requires
        d >= 0 && s >= 0,
        (apart(plan.goal.x as int, x) == d + s && apart(plan.goal.y as int, y) == d) || (apart(
            plan.goal.x as int,
            x,
        ) == d && apart(plan.goal.y as int, y) == d + s),
    ensures
        plan.distance is Manhattan ==> plan.estimate(x, y) == (2 * d + s) * plan.weight_straight,
        plan.distance is Chebyshev ==> plan.estimate(x, y) == (d + s) * plan.weight_straight,
        plan.distance is Diagonal ==> plan.estimate(x, y) == d * plan.weight_diagonal + s
            * plan.weight_straight,
        plan.distance is Euclidean ==> forall|r: int|
            0 <= r && #[trigger] (r * r) <= d * d + (d + s) * (d + s) && d * d + (d + s) * (d + s) < (r
                + 1) * (r + 1) ==> plan.estimate(x, y) == r * plan.weight_straight,
{
    let a = plan.weight_straight as int;
    let b = plan.weight_diagonal as int;
    if plan.distance is Diagonal {
        assert(a * (2 * d + s) + (b - 2 * a) * d == d * b + s * a) by (nonlinear_arith);
        assert(d + (d + s) == 2 * d + s);
    }
    if plan.distance is Euclidean {
        let n = d * d + (d + s) * (d + s);
        assert forall|r: int|
            0 <= r && #[trigger] (r * r) <= n && n < (r + 1) * (r + 1) implies plan.estimate(x, y)
            == r * plan.weight_straight by {
            assert(is_root(r, n));
            lemma_one_root(r, n);
        }
    }
}

/// Law: on the tile of the destination nothing is left to be estimated.
pub proof fn nothing_is_left_at_the_destination(plan: Plan)
    ensures
        plan.estimate(plan.goal.x as int, plan.goal.y as int) == 0,
{
    estimates_count_the_steps_left(plan, plan.goal.x as int, plan.goal.y as int, 0, 0);
    assert(0int * 0 <= 0 && 0 < (0int + 1) * (0 + 1)) by (nonlinear_arith);
    assert(0 * plan.weight_straight == 0);
    assert(0 * plan.weight_diagonal == 0);
}

/// Law: the directions of a search are different from each other; there are eight of them
/// with diagonals, and the four cardinal ones without.
pub proof fn directions_are_all_there(plan: Plan, h: Heading)
    ensures
        plan.diagonal || h.dx() == 0 || h.dy() == 0 ==> exists|k: int|
            0 <= k < plan.ways() && #[trigger] plan.way(k) == h,
        forall|j: int, k: int|
            0 <= j < k < plan.ways() ==> #[trigger] plan.way(j) != #[trigger] plan.way(k),
        forall|k: int|
            0 <= k < plan.ways() && !plan.diagonal ==> (#[trigger] plan.way(k)).dx() == 0 || plan.way(
                k,
            ).dy() == 0,
{
    let i = h.index_spec();
    if plan.diagonal {
        assert(plan.way(i) == h);
    } else if h.dx() == 0 || h.dy() == 0 {
        assert(plan.way(i / 2) == h);
    }
}

/// Law: a step of a search on foot ends at a footing of the next tile that begins no more
/// than two units over where one stood, or over the top of a slope that one stood on, with
/// sixteen units free above it.
pub proof fn search_steps_end_on_a_footing<T: TileProvider>(
    provider: &T,
    mask: u64,
    x: u16,
    y: u16,
    z: i8,
    h: Heading,
    b: i8,
)
    requires
        flat_step(provider, mask, false, x, y, z, h, Some(b)),
        0 <= x + h.dx() <= 65535,
        0 <= y + h.dy() <= 65535,
        from_bottom_up(provider.flat_stack((x + h.dx()) as u16, (y + h.dy()) as u16)),
        upright(provider.flat_stack((x + h.dx()) as u16, (y + h.dy()) as u16)),
    ensures
        ({
            let here = provider.flat_stack(x, y);
            let there = provider.flat_stack((x + h.dx()) as u16, (y + h.dy()) as u16);
            &&& exists|j: int, high: int|
                {
                    &&& #[trigger] footing_at(there, j, b as int, high, mask, false)
                    &&& high <= z + 2 || exists|i: int|
                        0 <= i < here.len() && (#[trigger] here[i] matches TileShape::Slope {
                            z_stand,
                            z_top,
                            ..
                        } && z_stand == z && high <= z_top + 2)
                }
            &&& exists|low: int| low >= -128 && #[trigger] has_room(there, b as int, low)
        }),
{
    let here = provider.flat_stack(x, y);
    let there = provider.flat_stack((x + h.dx()) as u16, (y + h.dy()) as u16);
    assert(-1 <= h.dx() <= 1 && -1 <= h.dy() <= 1);
    steps_lead_to_the_next_tile(x, h.dx());
    steps_lead_to_the_next_tile(y, h.dy());
    let n = here.len() as int;
    let low = fall_limit(here, z, n);
    let high = climb_from(reach_limit(here, z, n));
    climbs_are_small(here, z);
    nobody_climbs_too_high(there, z, low, high, mask, Some(b));
    walkers_stand_where_there_is_room(there, z, low, high, mask, false, Some(b));
    let j = choose|j: int| #[trigger] footing_at(there, j, b as int, high as int, mask, false);
    assert(footing_at(there, j, b as int, high as int, mask, false));
    assert(has_room(there, b as int, low as int));
}

/// Law: a diagonal step of a search is taken only where both of the cardinal steps that it
/// is made of can be taken; a cardinal step needs no other.
pub proof fn search_diagonals_need_both_sides<T: TileProvider>(
    provider: &T,
    mask: u64,
    fly: bool,
    x: u16,
    y: u16,
    z: i8,
    h: Heading,
    along: Heading,
    across: Heading,
    r: Option<i8>,
)
    requires
        flat_leads(provider, mask, fly, x, y, z, h, r),
        along.dx() == h.dx() && along.dy() == 0 && along.dx() != 0,
        across.dx() == 0 && across.dy() == h.dy() && across.dy() != 0,
    ensures
        r is None <==> flat_step(provider, mask, fly, x, y, z, h, None) || flat_step(
            provider,
            mask,
            fly,
            x,
            y,
            z,
            along,
            None,
        ) || flat_step(provider, mask, fly, x, y, z, across, None),
        r is Some ==> flat_step(provider, mask, fly, x, y, z, h, r),
{
}

/// Law: a cardinal step of a search looks at the one tile that it leads to.
pub proof fn search_cardinals_need_no_other<T: TileProvider>(
    provider: &T,
    mask: u64,
    fly: bool,
    x: u16,
    y: u16,
    z: i8,
    h: Heading,
    r: Option<i8>,
)
    requires
        flat_leads(provider, mask, fly, x, y, z, h, r),
        h.dx() == 0 || h.dy() == 0,
    ensures
        r is None <==> flat_step(provider, mask, fly, x, y, z, h, None),
        r is Some ==> flat_step(provider, mask, fly, x, y, z, h, r),
{
}

/// Law: the place that a step of a search leads to is where the ground under the tiles of
/// the search lets it end.
pub proof fn search_steps_follow_the_ground<'a, T: TileProvider>(
    s: &Surveyor<'a, T>,
    plan: Plan,
    p: Place,
    h: Heading,
    r: Option<i8>,
)
    requires
        0 <= p.x <= 65535,
        0 <= p.y <= 65535,
        flat_leads(s.provider, s.passable_mask, s.fly, p.x as u16, p.y as u16, p.z, h, r),
        s.step(plan, p, h) is Some,
    ensures
        r == Some((s.step(plan, p, h)->0).z),
{
    let q = s.height_after(p, h);
    assert(flat_leads(s.provider, s.passable_mask, s.fly, p.x as u16, p.y as u16, p.z, h, q));
    lemma_one_step(s.provider, s.passable_mask, s.fly, p.x as u16, p.y as u16, p.z, h, q);
}

/// Law: a search is out of time only at a thousandth turn, and never where no limit is set
/// or it is a negative one.
pub proof fn searches_have_time<'a, T: TileProvider>(
    s: &Surveyor<'a, T>,
    plan: Plan,
    options: TraceOptions,
    run: Seq<Scored>,
)
    requires
        s.ran_out(plan, super::surveyor::limit_of(options), run),
        options.time_limit is None || (options.time_limit->0) < 0 || (run.len() + 1) % 1000 != 0,
    ensures
        Surveyor::<'a, T>::found(plan, s.after(plan, run)) || s.after(plan, run).open
            == Multiset::<Scored>::empty(),
{
}

/// Law: one who watches a search is told of places by their coordinates: of a visit with its
/// cost, of a place found with its score, as near as can be said, of a point of the way
/// without more.
pub proof fn watchers_are_told_of_places(e: Scored, p: Point)
    ensures
        visit_event(e) == (AStarEvent::Visited { x: e.at.x, y: e.at.y, z: e.at.z, g: e.g }),
        frontier_event(e) matches AStarEvent::Frontier { x, y, z, f } && (x, y, z) == (
            e.at.x,
            e.at.y,
            e.at.z,
        ) && (isize::MIN <= e.f <= isize::MAX ==> f == e.f) && (e.f > isize::MAX ==> f
            == isize::MAX) && (e.f < isize::MIN ==> f == isize::MIN),
        path_event(p) == (AStarEvent::Path { x: p.x, y: p.y, z: p.z }),
{
}

/// Law: a search that is to return all points returns its visits in their order, each with
/// its cost.
pub proof fn all_points_are_the_visits(visited: Seq<Scored>, best: Option<usize>, i: int)
    requires
        0 <= i < visited.len(),
    ensures
        outcome(visited, best, true).len() == visited.len(),
        outcome(visited, best, true)[i].x == visited[i].at.x,
        outcome(visited, best, true)[i].y == visited[i].at.y,
        outcome(visited, best, true)[i].z == visited[i].at.z,
        outcome(visited, best, true)[i].w == visited[i].g,
{
}

proof fn lemma_lineage(visited: Seq<Scored>, i: int, n: nat)
    requires
        0 <= i < visited.len(),
        forall|k: int| 0 < k < visited.len() ==> 0 <= (#[trigger] visited[k]).from < k,
    ensures
        lineage(visited, i, n).last() == i,
        n >= i ==> lineage(visited, i, n)[0] == 0,
        forall|j: int|
            0 < j < lineage(visited, i, n).len() ==> lineage(visited, i, n)[j - 1]
                == visited[#[trigger] lineage(visited, i, n)[j]].from,
        0 < lineage(visited, i, n).len() <= n + 1,
        forall|j: int|
            0 < j < lineage(visited, i, n).len() ==> 0 < #[trigger] lineage(visited, i, n)[j]
                < visited.len(),
    decreases n,
{
    if i > 0 && n > 0 {
        let from = visited[i].from as int;
        let head = lineage(visited, from, (n - 1) as nat);
        lemma_lineage(visited, from, (n - 1) as nat);
        let all = lineage(visited, i, n);
        assert forall|j: int| 0 < j < all.len() implies all[j - 1]
            == visited[#[trigger] all[j]].from && 0 < all[j] < visited.len() by {
            if j < head.len() {
                assert(all[j] == head[j]);
            }
        }
    }
}

/// Whether a point of a way is where a visit was, and the point before it where the visit was
/// from which that one was reached.
pub open spec fn comes_from(visited: Seq<Scored>, way: Seq<Point>, j: int, k: int) -> bool {
    let here = visited[k];
    let before = visited[here.from as int];
    &&& 0 < k < visited.len()
    &&& (way[j].x, way[j].y, way[j].z) == (here.at.x, here.at.y, here.at.z)
    &&& (way[j - 1].x, way[j - 1].y, way[j - 1].z) == (before.at.x, before.at.y, before.at.z)
}

/// Whether a point of a way is where some visit was, and the point before it where that one
/// was reached from.
pub open spec fn comes_from_some(visited: Seq<Scored>, way: Seq<Point>, j: int) -> bool {
    exists|k: int| #[trigger] comes_from(visited, way, j, k)
}

/// Law: the way to a visit ends where that was, each of its points comes from the visit that
/// it was reached from, and it begins with the first visit of all where this one is among the
/// first hundred thousand. Its points have no weight.
pub proof fn ways_go_back_by_their_origins(visited: Seq<Scored>, i: int)
    requires
        0 <= i < visited.len(),
        forall|k: int| 0 < k < visited.len() ==> 0 <= (#[trigger] visited[k]).from < k,
    ensures
        ({
            let way = way_to(visited, i);
            &&& way.len() > 0
            &&& way.len() <= 100_002
            &&& (way.last().x, way.last().y, way.last().z) == (
                visited[i].at.x,
                visited[i].at.y,
                visited[i].at.z,
            )
            &&& i <= 100_000 ==> (way[0].x, way[0].y, way[0].z) == (
                visited[0].at.x,
                visited[0].at.y,
                visited[0].at.z,
            )
            &&& forall|j: int| 0 < j < way.len() ==> #[trigger] comes_from_some(visited, way, j)
            &&& forall|j: int| 0 <= j < way.len() ==> (#[trigger] way[j]).w == 0
        }),
{
    lemma_lineage(visited, i, 100_001);
    let line = lineage(visited, i, 100_001);
    let way = way_to(visited, i);
    assert forall|j: int| 0 < j < way.len() implies #[trigger] comes_from_some(
        visited,
        way,
        j,
    ) by {
        let k = line[j];
        assert(line[j - 1] == visited[line[j]].from);
        assert(comes_from(visited, way, j, k));
    }
}

/// Law: a search begins where the walker is, facing as the walker does, at no cost: only a
/// first step in another direction is a turn.
pub proof fn searches_begin_with_the_walker<'a, T: TileProvider>(
    s: &Surveyor<'a, T>,
    start: Place,
    facing: Heading,
    goal: Place,
    options: TraceOptions,
    width: isize,
    height: isize,
    run: Seq<Scored>,
)
    requires
        run.len() > 0,
        s.is_run(Plan::made_of(start, facing, goal, options, width, height), run),
    ensures
        ({
            let v = s.after(
                Plan::made_of(start, facing, goal, options, width, height),
                run,
            ).visited;
            v.len() > 0 && v[0].at == start && v[0].facing == facing && v[0].g == 0
        }),
    decreases run.len(),
{
    let plan = Plan::made_of(start, facing, goal, options, width, height);
    let earlier = run.drop_last();
    let before = s.after(plan, earlier);
    if run.len() == 1 {
        assert(before.open == Multiset::empty().insert(s.seed(plan)));
        assert(before.open.count(run.last()) > 0);
        assert(run.last() == s.seed(plan));
        assert(!known(before.visited, run.last().at));
    } else {
        searches_begin_with_the_walker(s, start, facing, goal, options, width, height, earlier);
    }
}

/// Law: a search that its watcher let go on had the watcher agree to each of its visits, in
/// the coordinates of the place, and to each place that was found from one where the way
/// does not end.
pub proof fn watchers_agree_to_every_visit<
    'a,
    T: TileProvider,
    F: FnMut(AStarEvent) -> AStarAction,
>(s: &Surveyor<'a, T>, plan: Plan, observer: F, run: Seq<Scored>, i: int)
    requires
        s.let_on(plan, observer, run),
        0 <= i < s.after(plan, run).visited.len(),
    ensures
        ({
            let v = s.after(plan, run).visited;
            let e = v[i];
            &&& call_ensures(
                observer,
                (AStarEvent::Visited { x: e.at.x, y: e.at.y, z: e.at.z, g: e.g },),
                AStarAction::Continue,
            )
            &&& !plan.arrived(e.at) ==> forall|k: int|
                0 <= k < plan.ways() ==> match #[trigger] s.offer(plan, v.take(i + 1), k) {
                    Some(o) => call_ensures(observer, (frontier_event(o),), AStarAction::Continue),
                    None => true,
                }
        }),
    decreases run.len(),
{
    if run.len() > 0 {
        let earlier = run.drop_last();
        let before = s.after(plan, earlier);
        let e = run.last();
        let v = s.after(plan, run).visited;
        if known(before.visited, e.at) {
            watchers_agree_to_every_visit(s, plan, observer, earlier, i);
        } else {
            assert(v == before.visited.push(e));
            if i < before.visited.len() {
                watchers_agree_to_every_visit(s, plan, observer, earlier, i);
                assert(v.take(i + 1) =~= before.visited.take(i + 1));
            } else {
                assert(v.take(i + 1) =~= v);
                assert(s.fresh(plan, run));
                assert(answers(observer, visit_event(e), AStarAction::Continue));
                if !plan.arrived(e.at) {
                    assert(all_let_on(observer, s.offers(plan, v, plan.ways())));
                    assert forall|k: int| 0 <= k < plan.ways() implies match #[trigger] s.offer(
                        plan,
                        v,
                        k,
                    ) {
                        Some(o) => call_ensures(
                            observer,
                            (frontier_event(o),),
                            AStarAction::Continue,
                        ),
                        None => true,
                    } by {
                        lemma_offers_have(s, plan, v, plan.ways(), k);
                        if let Some(o) = s.offer(plan, v, k) {
                            let all = s.offers(plan, v, plan.ways());
                            let j = choose|j: int| 0 <= j < all.len() && all[j] == o;
                            assert(answers(
                                observer,
                                frontier_event(all[j]),
                                AStarAction::Continue,
                            ));
                        }
                    }
                }
            }
        }
    }
}

proof fn lemma_offers_have<'a, T: TileProvider>(
    s: &Surveyor<'a, T>,
    plan: Plan,
    v: Seq<Scored>,
    n: int,
    k: int,
)
    requires
        0 <= k < n,
    ensures
        s.offer(plan, v, k) matches Some(o) ==> s.offers(plan, v, n).contains(o),
    decreases n,
{
    if let Some(o) = s.offer(plan, v, k) {
        let all = s.offers(plan, v, n);
        if k == n - 1 {
            assert(all.last() == o);
        } else {
            lemma_offers_have(s, plan, v, n - 1, k);
            let head = s.offers(plan, v, n - 1);
            let j = choose|j: int| 0 <= j < head.len() && head[j] == o;
            assert(all[j] == o);
        }
    }
}

/// Law: a search ends where the way is found or nothing is left to visit, at a thousandth
/// turn under a time limit, or where its watcher wants it to end; a visit at which the
/// watcher ended it does not count as one to go to.
pub proof fn searches_end_for_a_reason<
    'a,
    T: TileProvider,
    F: FnMut(AStarEvent) -> AStarAction,
>(
    s: &Surveyor<'a, T>,
    plan: Plan,
    limit: Option<u128>,
    observer: F,
    run: Seq<Scored>,
    visited: Seq<Scored>,
    best: Option<usize>,
)
    requires
        s.went(plan, limit, observer, run, visited, best),
    ensures
        ({
            let n = visited.len() as int;
            let e = visited.last();
            let last = AStarEvent::Visited { x: e.at.x, y: e.at.y, z: e.at.z, g: e.g };
            let cancelled = n > 0 && call_ensures(observer, (last,), AStarAction::Cancel);
            let stopped = n > 0 && exists|k: int|
                0 <= k < plan.ways() && (#[trigger] s.offer(plan, visited, k) matches Some(o)
                    && call_ensures(observer, (frontier_event(o),), AStarAction::Cancel));
            ||| n > 0 && plan.arrived(e.at)
            ||| s.after(plan, run).open.len() == 0
            ||| limit is Some && (run.len() + 1) % 1000 == 0
            ||| cancelled && best == nearest(plan, visited, n - 1)
            ||| stopped
        }),
{
    let n = visited.len() as int;
    if s.stopped_on_visit(plan, observer, run) || s.stopped_on_find(plan, observer, run) {
        let before = s.after(plan, run.drop_last());
        assert(visited == before.visited.push(run.last()));
    }
    if !s.stopped_on_visit(plan, observer, run) && s.stopped_on_find(plan, observer, run) {
        let k = choose|k: int| #[trigger] s.stopped_at(plan, observer, visited, k);
        assert(s.offer(plan, visited, k) is Some);
    }
}

} // verus!

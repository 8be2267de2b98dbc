//! The search itself.
//!
//! Places are visited one by one, always one of those with the least sum of cost so far
//! and estimated cost to come. A run of the search is the sequence of entries that
//! were taken from the frontier; which of several equally promising ones comes first
//! is left open.

use std::collections::HashSet;

use vstd::multiset::Multiset;
use vstd::prelude::*;

use super::cache::{all_step_blocks, flat_leads, lemma_one_step, CachingProvider};
use super::frontier::{Frontier, Place, Scored};
use super::plan::{in_reach, AStarAction, AStarEvent, Plan, Point, TraceOptions, FAR};
use crate::coords::{BlockKey, Heading};
use crate::ecumene::movement::stepped;
use crate::ecumene::tile_provider::TileProvider;
use crate::time::Clock;

verus! {

broadcast use vstd::std_specs::hash::group_hash_axioms;

/// Finds ways over the map of a source of tile stacks.
pub struct Surveyor<'a, T: TileProvider> {
    pub provider: &'a T,
    pub passable_mask: u64,
    pub fly: bool,
}

/// The tile of a coordinate: the nearest one on the map.
pub open spec fn cell(c: int) -> u16 {
    if c < 0 {
        0
    } else if c > u16::MAX {
        u16::MAX
    } else {
        c as u16
    }
}

fn cell_of(c: isize) -> (t: u16)
    ensures
        t == cell(c as int),
{
    if c < 0 {
        0
    } else if c > 0xFFFF {
        u16::MAX
    } else {
        c as u16
    }
}

/// A number of its own for each place of a search.
pub open spec fn place_key(p: Place) -> int {
    ((p.x + 2 * FAR) * 0x1000_0000_0000_0000 + (p.y + 2 * FAR)) * 0x100 + (p.z + 128)
}

fn key_of(p: Place) -> (k: u128)
    requires
        in_reach(p.x as int),
        in_reach(p.y as int),
    ensures
        k == place_key(p),
{
    let x: u128 = (p.x as i128 + 2 * FAR) as u128;
    let y: u128 = (p.y as i128 + 2 * FAR) as u128;
    let z: u128 = (p.z as i128 + 128) as u128;
    (x * 0x1000_0000_0000_0000 + y) * 0x100 + z
}

proof fn lemma_key_tells_place(p: Place, q: Place)
    requires
        in_reach(p.x as int) && in_reach(p.y as int),
        in_reach(q.x as int) && in_reach(q.y as int),
    ensures
        place_key(p) == place_key(q) <==> p == q,
{
}

/// Whether a place was visited.
pub open spec fn known(visited: Seq<Scored>, p: Place) -> bool {
    exists|i: int| 0 <= i < visited.len() && (#[trigger] visited[i]).at == p
}

/// Where a search stands.
#[verifier::ext_equal]
pub struct SearchState {
    /// What may be visited next.
    pub open: Multiset<Scored>,
    /// What was visited, in that order.
    pub visited: Seq<Scored>,
}

/// The number of the place nearest to the destination among the first `n` visited; the
/// earliest of equally near ones.
pub open spec fn nearest(plan: Plan, visited: Seq<Scored>, n: int) -> Option<usize>
    decreases n,
{
    if n <= 0 {
        None
    } else {
        match nearest(plan, visited, n - 1) {
            None => Some((n - 1) as usize),
            Some(b) => if plan.distance_of(visited[n - 1].at) < plan.distance_of(
                visited[b as int].at,
            ) {
                Some((n - 1) as usize)
            } else {
                Some(b)
            },
        }
    }
}

/// What one who watches the search is told of a visit.
pub open spec fn visit_event(e: Scored) -> AStarEvent {
    AStarEvent::Visited { x: e.at.x, y: e.at.y, z: e.at.z, g: e.g }
}

/// A number as near as an `isize` comes to it.
pub open spec fn clamped(f: int) -> isize {
    if f < isize::MIN {
        isize::MIN
    } else if f > isize::MAX {
        isize::MAX
    } else {
        f as isize
    }
}

/// What one who watches the search is told of a place that may be visited later.
pub open spec fn frontier_event(e: Scored) -> AStarEvent {
    AStarEvent::Frontier { x: e.at.x, y: e.at.y, z: e.at.z, f: clamped(e.f as int) }
}

/// Whether the watcher may give this answer.
pub open spec fn answers<F: FnMut(AStarEvent) -> AStarAction>(
    observer: F,
    e: AStarEvent,
    a: AStarAction,
) -> bool {
    call_ensures(observer, (e,), a)
}

/// Whether the watcher let the search go on after each of these was found.
pub open spec fn all_let_on<F: FnMut(AStarEvent) -> AStarAction>(
    observer: F,
    found: Seq<Scored>,
) -> bool {
    forall|i: int|
        0 <= i < found.len() ==> answers(
            observer,
            frontier_event(#[trigger] found[i]),
            AStarAction::Continue,
        )
}

/// What one who watches the search is told of a point of the way.
pub open spec fn path_event(p: Point) -> AStarEvent {
    AStarEvent::Path { x: p.x, y: p.y, z: p.z }
}

/// Whether the watcher was told of something, whatever it answered.
pub open spec fn told<F: FnMut(AStarEvent) -> AStarAction>(observer: F, e: AStarEvent) -> bool {
    exists|a: AStarAction| #[trigger] answers(observer, e, a)
}

/// Whether the watcher was told of each point of a way.
pub open spec fn told_way<F: FnMut(AStarEvent) -> AStarAction>(
    observer: F,
    way: Seq<Point>,
) -> bool {
    forall|i: int| 0 <= i < way.len() ==> told(observer, path_event(#[trigger] way[i]))
}

/// The numbers of the visits on the way to visit `i`, back to the start or for `n` steps.
pub open spec fn lineage(visited: Seq<Scored>, i: int, n: nat) -> Seq<int>
    decreases n,
{
    if i <= 0 || n == 0 {
        seq![i]
    } else {
        lineage(visited, visited[i].from as int, (n - 1) as nat).push(i)
    }
}

/// A way is followed back for this many steps at most.
pub const MAX_STEPS_BACK: usize = 100_001;

/// A point of a way.
pub open spec fn way_point(e: Scored) -> Point {
    Point { x: e.at.x, y: e.at.y, z: e.at.z, w: 0 }
}

/// A place that was visited, with its cost.
pub open spec fn cost_point(e: Scored) -> Point {
    Point { x: e.at.x, y: e.at.y, z: e.at.z, w: e.g }
}

/// The points of the way to visit `i`.
pub open spec fn way_to(visited: Seq<Scored>, i: int) -> Seq<Point> {
    lineage(visited, i, MAX_STEPS_BACK as nat).map_values(|k: int| way_point(visited[k]))
}

/// What a search returns.
pub open spec fn outcome(visited: Seq<Scored>, best: Option<usize>, all_points: bool) -> Seq<Point> {
    if all_points {
        visited.map_values(|e: Scored| cost_point(e))
    } else {
        match best {
            Some(b) => way_to(visited, b as int),
            None => Seq::empty(),
        }
    }
}

/// The time limit in milliseconds, if there is one.
pub open spec fn limit_of(options: TraceOptions) -> Option<u128> {
    match options.time_limit {
        Some(ms) => if ms >= 0 {
            Some(ms as u128)
        } else {
            None
        },
        None => None,
    }
}

impl<'a, T: TileProvider> Surveyor<'a, T> {
    /// Whether the source can be asked about every block of the map.
    pub open spec fn wf(&self) -> bool {
        forall|key: BlockKey| key.on_map() ==> #[trigger] self.provider.covers_block(key)
    }

    /// The height at which a step from a place ends, if it can be taken.
    pub open spec fn height_after(&self, p: Place, h: Heading) -> Option<i8> {
        choose|r: Option<i8>|
            flat_leads(
                self.provider,
                self.passable_mask,
                self.fly,
                cell(p.x as int),
                cell(p.y as int),
                p.z,
                h,
                r,
            )
    }

    /// The place a step leads to: all tiles that it touches are in the area, and the
    /// ground lets it be taken.
    pub open spec fn step(&self, plan: Plan, p: Place, h: Heading) -> Option<Place> {
        let right = Heading::at(h.index_spec() + 1);
        let left = Heading::at(h.index_spec() - 1);
        if !plan.inside(p.x + h.dx(), p.y + h.dy()) {
            None
        } else if h.diagonal() && !(plan.inside(p.x + right.dx(), p.y + right.dy()) && plan.inside(
            p.x + left.dx(),
            p.y + left.dy(),
        )) {
            None
        } else {
            match self.height_after(p, h) {
                Some(z) => Some(
                    Place { x: (p.x + h.dx()) as isize, y: (p.y + h.dy()) as isize, z },
                ),
                None => None,
            }
        }
    }

    /// The cost of a place that is reached by a step from another.
    pub open spec fn cost(&self, plan: Plan, from: Scored, h: Heading, to: Place) -> int {
        from.g + (if h.diagonal() {
            plan.cost_diagonal
        } else {
            plan.cost_straight
        }) + (if h == from.facing {
            0
        } else {
            plan.cost_turn as int
        }) + (if plan.cost_multi > 0 && self.provider.multi_on(
            cell(to.x as int),
            cell(to.y as int),
        ) {
            plan.cost_multi as int
        } else {
            0
        })
    }

    /// What the step in direction number `k` from the last place visited adds to the
    /// frontier.
    pub open spec fn offer(&self, plan: Plan, visited: Seq<Scored>, k: int) -> Option<Scored> {
        let from = visited.last();
        let h = plan.way(k);
        match self.step(plan, from.at, h) {
            None => None,
            Some(to) => {
                let g = self.cost(plan, from, h, to);
                if known(visited, to) || g > plan.cost_limit || g < isize::MIN {
                    None
                } else {
                    Some(
                        Scored {
                            f: (g + plan.estimate(to.x as int, to.y as int)) as i128,
                            g: g as isize,
                            facing: h,
                            at: to,
                            from: (visited.len() - 1) as usize,
                        },
                    )
                }
            },
        }
    }

    /// What the first `k` steps from the last place visited add.
    pub open spec fn offers(&self, plan: Plan, visited: Seq<Scored>, k: int) -> Seq<Scored>
        decreases k,
    {
        if k <= 0 {
            Seq::empty()
        } else {
            match self.offer(plan, visited, k - 1) {
                Some(e) => self.offers(plan, visited, k - 1).push(e),
                None => self.offers(plan, visited, k - 1),
            }
        }
    }

    /// The entry that the search starts from.
    pub open spec fn seed(&self, plan: Plan) -> Scored {
        Scored {
            f: plan.estimate(plan.start.x as int, plan.start.y as int) as i128,
            g: 0,
            facing: plan.facing,
            at: plan.start,
            from: 0,
        }
    }

    /// Where the search stands after a run.
    pub open spec fn after(&self, plan: Plan, run: Seq<Scored>) -> SearchState
        decreases run.len(),
    {
        if run.len() == 0 {
            SearchState { open: Multiset::empty().insert(self.seed(plan)), visited: Seq::empty() }
        } else {
            self.taken(plan, self.after(plan, run.drop_last()), run.last())
        }
    }

    /// Where the search stands after an entry was taken from the frontier: a place that
    /// was visited before is passed over; from another one, unless the way may end
    /// there, all steps are offered.
    pub open spec fn taken(&self, plan: Plan, s: SearchState, e: Scored) -> SearchState {
        let rest = s.open.remove(e);
        if known(s.visited, e.at) {
            SearchState { open: rest, visited: s.visited }
        } else {
            let visited = s.visited.push(e);
            if plan.arrived(e.at) {
                SearchState { open: rest, visited }
            } else {
                SearchState {
                    open: rest.add(self.offers(plan, visited, plan.ways()).to_multiset()),
                    visited,
                }
            }
        }
    }

    /// Whether the last place visited is one where the way may end.
    pub open spec fn found(plan: Plan, s: SearchState) -> bool {
        s.visited.len() > 0 && plan.arrived(s.visited.last().at)
    }

    /// Whether an entry is one of the most promising.
    pub open spec fn leads_field(open: Multiset<Scored>, e: Scored) -> bool {
        &&& open.count(e) > 0
        &&& forall|o: Scored| #[trigger] open.count(o) > 0 ==> e.f <= o.f
    }

    /// Whether a run takes a most promising entry each time, and none after the way was
    /// found.
    pub open spec fn is_run(&self, plan: Plan, run: Seq<Scored>) -> bool
        decreases run.len(),
    {
        run.len() > 0 ==> {
            let s = self.after(plan, run.drop_last());
            &&& self.is_run(plan, run.drop_last())
            &&& !Self::found(plan, s)
            &&& Self::leads_field(s.open, run.last())
        }
    }

    /// Whether the last entry of a run led to a visit.
    pub open spec fn fresh(&self, plan: Plan, run: Seq<Scored>) -> bool {
        &&& run.len() > 0
        &&& !known(self.after(plan, run.drop_last()).visited, run.last().at)
    }

    /// Whether the watcher let the search go on after all that a run brought.
    pub open spec fn let_on<F: FnMut(AStarEvent) -> AStarAction>(
        &self,
        plan: Plan,
        observer: F,
        run: Seq<Scored>,
    ) -> bool
        decreases run.len(),
    {
        run.len() > 0 ==> {
            let s = self.after(plan, run);
            &&& self.let_on(plan, observer, run.drop_last())
            &&& self.fresh(plan, run) ==> {
                &&& answers(observer, visit_event(run.last()), AStarAction::Continue)
                &&& !Self::found(plan, s) ==> all_let_on(
                    observer,
                    self.offers(plan, s.visited, plan.ways()),
                )
            }
        }
    }

    /// Whether the watcher ended the search when offer `k` from the last place visited was
    /// made.
    pub open spec fn stopped_at<F: FnMut(AStarEvent) -> AStarAction>(
        &self,
        plan: Plan,
        observer: F,
        visited: Seq<Scored>,
        k: int,
    ) -> bool {
        &&& 0 <= k < plan.ways()
        &&& all_let_on(observer, self.offers(plan, visited, k))
        &&& self.offer(plan, visited, k) matches Some(e) && answers(
            observer,
            frontier_event(e),
            AStarAction::Cancel,
        )
    }

    /// Whether a run ended of itself: the way was found, nothing is left to visit, or, at
    /// every thousandth turn, the time was up.
    pub open spec fn ran_out(&self, plan: Plan, limit: Option<u128>, run: Seq<Scored>) -> bool {
        let s = self.after(plan, run);
        ||| Self::found(plan, s)
        ||| s.open == Multiset::<Scored>::empty()
        ||| limit is Some && (run.len() + 1) % 1000 == 0
    }

    /// Whether a run ended because the watcher wanted it when a place was visited.
    pub open spec fn stopped_on_visit<F: FnMut(AStarEvent) -> AStarAction>(
        &self,
        plan: Plan,
        observer: F,
        run: Seq<Scored>,
    ) -> bool {
        &&& self.fresh(plan, run)
        &&& self.let_on(plan, observer, run.drop_last())
        &&& answers(observer, visit_event(run.last()), AStarAction::Cancel)
    }

    /// Whether a run ended because the watcher wanted it when a place was found.
    pub open spec fn stopped_on_find<F: FnMut(AStarEvent) -> AStarAction>(
        &self,
        plan: Plan,
        observer: F,
        run: Seq<Scored>,
    ) -> bool {
        let s = self.after(plan, run);
        &&& self.fresh(plan, run)
        &&& self.let_on(plan, observer, run.drop_last())
        &&& answers(observer, visit_event(run.last()), AStarAction::Continue)
        &&& !Self::found(plan, s)
        &&& exists|k: int| #[trigger] self.stopped_at(plan, observer, s.visited, k)
    }

    /// Whether a search may have gone like this run: what was visited, and which visit
    /// came nearest to the destination. A visit at which the watcher ended the search
    /// does not count as near.
    pub open spec fn went<F: FnMut(AStarEvent) -> AStarAction>(
        &self,
        plan: Plan,
        limit: Option<u128>,
        observer: F,
        run: Seq<Scored>,
        visited: Seq<Scored>,
        best: Option<usize>,
    ) -> bool {
        let n = visited.len() as int;
        &&& self.is_run(plan, run)
        &&& visited == self.after(plan, run).visited
        &&& {
            ||| self.ran_out(plan, limit, run) && self.let_on(plan, observer, run) && best
                == nearest(plan, visited, n)
            ||| self.stopped_on_visit(plan, observer, run) && best == nearest(plan, visited, n - 1)
            ||| self.stopped_on_find(plan, observer, run) && best == nearest(plan, visited, n)
        }
    }

    pub fn new(provider: &'a T) -> (s: Self)
        ensures
            s == (Surveyor { provider, passable_mask: 0, fly: false }),
    {
        Surveyor { provider, passable_mask: 0, fly: false }
    }

    pub fn with_options(provider: &'a T, opts: &TraceOptions) -> (s: Self)
        ensures
            s.provider == provider,
            s.passable_mask == super::plan::set_or(opts.passable_mask, 0),
            s.fly == super::plan::set_or(opts.fly, false),
    {
        Surveyor {
            provider,
            passable_mask: opts.passable_mask.unwrap_or(0),
            fly: opts.fly.unwrap_or(false),
        }
    }

    proof fn lemma_height(&self, p: Place, h: Heading, r: Option<i8>)
        requires
            flat_leads(
                self.provider,
                self.passable_mask,
                self.fly,
                cell(p.x as int),
                cell(p.y as int),
                p.z,
                h,
                r,
            ),
        ensures
            self.height_after(p, h) == r,
    {
        let q = self.height_after(p, h);
        assert(flat_leads(
            self.provider,
            self.passable_mask,
            self.fly,
            cell(p.x as int),
            cell(p.y as int),
            p.z,
            h,
            q,
        ));
        if r is Some {
            lemma_one_step(
                self.provider,
                self.passable_mask,
                self.fly,
                cell(p.x as int),
                cell(p.y as int),
                p.z,
                h,
                r,
            );
        }
    }

    proof fn lemma_step_blocks(&self, x: u16, y: u16, h: Heading)
        requires
            self.wf(),
        ensures
            all_step_blocks(self.provider, x, y, h),
    {
        let right = Heading::at(h.index_spec() + 1);
        let left = Heading::at(h.index_spec() - 1);
        assert(BlockKey::of_tile(x, y).on_map());
        assert(BlockKey::of_tile(stepped(x, h.dx()), stepped(y, h.dy())).on_map());
        assert(BlockKey::of_tile(stepped(x, right.dx()), stepped(y, right.dy())).on_map());
        assert(BlockKey::of_tile(stepped(x, left.dx()), stepped(y, left.dy())).on_map());
    }

    /// Tries whether the ground lets a step be taken.
    fn try_height(&self, cache: &mut CachingProvider<'a, T>, p: Place, h: Heading) -> (r: Option<
        i8,
    >)
        requires
            self.wf(),
            old(cache).wf(),
            old(cache).inner == self.provider,
        ensures
            final(cache).wf(),
            final(cache).inner == self.provider,
            r == self.height_after(p, h),
    {
        let cx: u16 = cell_of(p.x);
        let cy: u16 = cell_of(p.y);
        proof {
            self.lemma_step_blocks(cx, cy, h);
        }
        let found = cache.test_step(cx, cy, p.z, h, self.passable_mask, self.fly);
        proof {
            self.lemma_height(p, h, found);
        }
        found
    }

    /// Tries a step.
    fn try_step(
        &self,
        cache: &mut CachingProvider<'a, T>,
        plan: &Plan,
        p: Place,
        h: Heading,
    ) -> (r: Option<Place>)
        requires
            self.wf(),
            plan.wf(),
            in_reach(p.x as int),
            in_reach(p.y as int),
            old(cache).wf(),
            old(cache).inner == self.provider,
        ensures
            final(cache).wf(),
            final(cache).inner == self.provider,
            r == self.step(*plan, p, h),
            r matches Some(q) ==> in_reach(q.x as int) && in_reach(q.y as int),
    {
        let (dx, dy) = h.delta();
        let px: i128 = p.x as i128;
        let py: i128 = p.y as i128;
        let x: i128 = px + dx as i128;
        let y: i128 = py + dy as i128;
        if !plan.is_inside(x, y) {
            return None;
        }
        if h.is_diagonal() {
            let (rx, ry) = h.turn(1).delta();
            let (lx, ly) = h.turn(-1).delta();
            if !plan.is_inside(px + rx as i128, py + ry as i128) || !plan.is_inside(
                px + lx as i128,
                py + ly as i128,
            ) {
                return None;
            }
        }
        match self.try_height(cache, p, h) {
            Some(z) => Some(Place { x: x as isize, y: y as isize, z }),
            None => None,
        }
    }

    /// Makes the offer of a step from the last place visited.
    fn try_offer(
        &self,
        cache: &mut CachingProvider<'a, T>,
        plan: &Plan,
        visited: &Vec<Scored>,
        seen: &HashSet<u128>,
        k: u8,
    ) -> (r: Option<Scored>)
        requires
            self.wf(),
            plan.wf(),
            old(cache).wf(),
            old(cache).inner == self.provider,
            visited@.len() > 0,
            places_in_reach(visited@),
            marks(seen@, visited@),
            k < plan.ways(),
        ensures
            final(cache).wf(),
            final(cache).inner == self.provider,
            r == self.offer(*plan, visited@, k as int),
            r matches Some(e) ==> in_reach(e.at.x as int) && in_reach(e.at.y as int),
    {
        let from = visited[visited.len() - 1];
        let h = plan.get_way(k);
        let to = match self.try_step(cache, plan, from.at, h) {
            Some(to) => to,
            None => {
                return None;
            },
        };
        if seen.contains(&key_of(to)) {
            return None;
        }
        let step: isize = if h.is_diagonal() {
            plan.cost_diagonal
        } else {
            plan.cost_straight
        };
        let turn: isize = if h == from.facing {
            0
        } else {
            plan.cost_turn
        };
        let mut g: i128 = from.g as i128 + step as i128 + turn as i128;
        if plan.cost_multi > 0 {
            let cx: u16 = cell_of(to.x);
            let cy: u16 = cell_of(to.y);
            assert(BlockKey::of_tile(cx, cy).on_map());
            if self.provider.is_multi_on(cx, cy) {
                g = g + plan.cost_multi as i128;
            }
        }
        if g > plan.cost_limit as i128 || g < isize::MIN as i128 {
            return None;
        }
        let rest: i128 = plan.get_estimate(to.x, to.y);
        Some(Scored { f: g + rest, g: g as isize, facing: h, at: to, from: visited.len() - 1 })
    }

    /// Makes the offers of all steps from the last place visited, until the watcher wants
    /// the search to end.
    fn expand<F: FnMut(AStarEvent) -> AStarAction>(
        &self,
        cache: &mut CachingProvider<'a, T>,
        plan: &Plan,
        visited: &Vec<Scored>,
        seen: &HashSet<u128>,
        frontier: &mut Frontier,
        observer: &mut F,
    ) -> (stopped: bool)
        requires
            self.wf(),
            plan.wf(),
            old(cache).wf(),
            old(cache).inner == self.provider,
            visited@.len() > 0,
            places_in_reach(visited@),
            marks(seen@, visited@),
            old(frontier).wf(),
            places_ahead(old(frontier)@),
            forall|e: AStarEvent| #[trigger] call_requires(*old(observer), (e,)),
        ensures
            final(cache).wf(),
            final(cache).inner == self.provider,
            *final(observer) == *old(observer),
            stopped ==> exists|k: int| #[trigger] self.stopped_at(*plan, *old(observer), visited@, k),
            !stopped ==> {
                &&& final(frontier).wf()
                &&& final(frontier)@ == old(frontier)@.add(
                    self.offers(*plan, visited@, plan.ways()).to_multiset(),
                )
                &&& places_ahead(final(frontier)@)
                &&& all_let_on(*old(observer), self.offers(*plan, visited@, plan.ways()))
            },
    {
        let ghost base = frontier@;
        let ways: u8 = if plan.diagonal {
            8
        } else {
            4
        };
        let mut k: u8 = 0;
        assert(frontier@ =~= base.add(self.offers(*plan, visited@, 0).to_multiset())) by {
            broadcast use vstd::seq_lib::group_to_multiset_ensures;

            assert(Seq::<Scored>::empty().to_multiset() =~= Multiset::<Scored>::empty());
        }
        while k < ways
            invariant
                self.wf(),
                plan.wf(),
                cache.wf(),
                cache.inner == self.provider,
                forall|e: AStarEvent| #[trigger] call_requires(*observer, (e,)),
                *observer == *old(observer),
                ways == plan.ways(),
                k <= ways,
                visited@.len() > 0,
                marks(seen@, visited@),
                places_in_reach(visited@),
                frontier.wf(),
                frontier@ == base.add(self.offers(*plan, visited@, k as int).to_multiset()),
                all_let_on(*observer, self.offers(*plan, visited@, k as int)),
                places_ahead(frontier@),
            decreases ways - k,
        {
            let ghost made = self.offers(*plan, visited@, k as int);
            let ghost earlier = frontier@;
            if let Some(o) = self.try_offer(cache, plan, visited, seen, k) {
                frontier.push(o);
                let event = AStarEvent::Frontier {
                    x: o.at.x,
                    y: o.at.y,
                    z: o.at.z,
                    f: clamp_score(o.f),
                };
                match observer(event) {
                    AStarAction::Cancel => {
                        assert(answers(*observer, frontier_event(o), AStarAction::Cancel));
                        assert(self.stopped_at(*plan, *observer, visited@, k as int));
                        return true;
                    },
                    AStarAction::Continue => {
                        assert(answers(*observer, frontier_event(o), AStarAction::Continue));
                    },
                }
                proof {
                    lemma_ahead_push(base, made, earlier, o);
                    assert(self.offers(*plan, visited@, k + 1) == made.push(o));
                }
            }
            k = k + 1;
        }
        false
    }

    /// Visits places until the way is found, nothing is left, the time is up or the
    /// watcher wants it. Returns the visits and the number of the one that came nearest.
    fn search<F: FnMut(AStarEvent) -> AStarAction>(
        &self,
        cache: &mut CachingProvider<'a, T>,
        plan: &Plan,
        limit: Option<u128>,
        observer: &mut F,
    ) -> (r: (Vec<Scored>, Option<usize>, Ghost<Seq<Scored>>))
        requires
            self.wf(),
            plan.wf(),
            old(cache).wf(),
            old(cache).inner == self.provider,
            forall|e: AStarEvent| #[trigger] call_requires(*old(observer), (e,)),
        ensures
            *final(observer) == *old(observer),
            self.went(*plan, limit, *old(observer), r.2@, r.0@, r.1),
    {
        let clock = Clock::start();
        let mut frontier = Frontier::new();
        let mut visited: Vec<Scored> = Vec::new();
        let mut seen: HashSet<u128> = HashSet::new();
        let mut best: Option<usize> = None;
        let mut turn: u32 = 0;
        let rest: i128 = plan.get_estimate(plan.start.x, plan.start.y);
        frontier.push(Scored { f: rest, g: 0, facing: plan.facing, at: plan.start, from: 0 });
        let ghost mut run = Seq::<Scored>::empty();
        proof {
            assert(frontier@ =~= self.after(*plan, run).open);
            assert forall|p: Place|
                in_reach(p.x as int) && in_reach(p.y as int) implies #[trigger] known(visited@, p)
                == seen@.contains(place_key(p) as u128) by {}
        }
        loop
            invariant
                self.wf(),
                plan.wf(),
                cache.wf(),
                cache.inner == self.provider,
                forall|e: AStarEvent| #[trigger] call_requires(*observer, (e,)),
                *observer == *old(observer),
                self.is_run(*plan, run),
                self.let_on(*plan, *observer, run),
                !Self::found(*plan, self.after(*plan, run)),
                frontier.wf(),
                frontier@ == self.after(*plan, run).open,
                visited@ == self.after(*plan, run).visited,
                best == nearest(*plan, visited@, visited@.len() as int),
                marks(seen@, visited@),
                places_in_reach(visited@),
                places_ahead(frontier@),
                turn == run.len() % 1000,
            decreases usize::MAX - visited@.len(), frontier.items@.len(),
        {
            let ghost s = self.after(*plan, run);
            let e = match frontier.pop() {
                Some(e) => e,
                None => {
                    assert(self.went(*plan, limit, *observer, run, visited@, best));
                    return (visited, best, Ghost(run));
                },
            };
            turn = turn + 1;
            if turn == 1000 {
                turn = 0;
                if let Some(ms) = limit {
                    if clock.now().nanos / 1_000_000 >= ms {
                        assert(self.went(*plan, limit, *observer, run, visited@, best));
                        return (visited, best, Ghost(run));
                    }
                }
            }
            let ghost next = run.push(e);
            assert(next.drop_last() =~= run);
            assert(Self::leads_field(s.open, e));
            assert(self.is_run(*plan, next));
            let key: u128 = key_of(e.at);
            if seen.contains(&key) {
                proof {
                    assert(known(visited@, e.at));
                    assert(!self.fresh(*plan, next));
                    assert(self.let_on(*plan, *observer, next));
                    run = next;
                }
            } else {
                let ghost before = visited@;
                let ghost seen_before = seen@;
                visited.push(e);
                seen.insert(key);
                let n: usize = visited.len();
                proof {
                    assert(!known(before, e.at));
                    assert(self.fresh(*plan, next));
                    assert(visited@ == self.after(*plan, next).visited);
                    lemma_marks_push(seen_before, before, e);
                    lemma_nearest(*plan, before, e, before.len() as int);
                }
                let event = AStarEvent::Visited { x: e.at.x, y: e.at.y, z: e.at.z, g: e.g };
                match observer(event) {
                    AStarAction::Cancel => {
                        assert(answers(*observer, visit_event(e), AStarAction::Cancel));
                        assert(self.stopped_on_visit(*plan, *observer, next));
                        assert(self.went(*plan, limit, *observer, next, visited@, best));
                        return (visited, best, Ghost(next));
                    },
                    AStarAction::Continue => {},
                }
                best = match best {
                    None => Some(n - 1),
                    Some(b) => {
                        if plan.get_distance(e.at) < plan.get_distance(visited[b].at) {
                            Some(n - 1)
                        } else {
                            Some(b)
                        }
                    },
                };
                assert(best == nearest(*plan, visited@, visited@.len() as int));
                assert(answers(*observer, visit_event(e), AStarAction::Continue));
                if plan.has_arrived(e.at) {
                    proof {
                        assert(Self::found(*plan, self.after(*plan, next)));
                        assert(self.let_on(*plan, *observer, next));
                        assert(self.went(*plan, limit, *observer, next, visited@, best));
                    }
                    return (visited, best, Ghost(next));
                }
                assert(!Self::found(*plan, self.after(*plan, next)));
                if self.expand(cache, plan, &visited, &seen, &mut frontier, observer) {
                    proof {
                        assert(self.stopped_on_find(*plan, *observer, next));
                        assert(self.went(*plan, limit, *observer, next, visited@, best));
                    }
                    return (visited, best, Ghost(next));
                }
                proof {
                    assert(self.let_on(*plan, *observer, next));
                    run = next;
                }
            }
        }
    }

    /// A store for the blocks of a search. Those of a small area are fetched at once.
    fn prepare(&self, plan: &Plan) -> (cache: CachingProvider<'a, T>)
        requires
            self.wf(),
            plan.wf(),
        ensures
            cache.wf(),
            cache.inner == self.provider,
    {
        let wide: i128 = (plan.right as i128 - plan.left as i128 + 7) / 8;
        let high: i128 = (plan.bottom as i128 - plan.top as i128 + 7) / 8;
        let w: i128 = if wide < 1 {
            1
        } else if wide > 0x2000 {
            0x2000
        } else {
            wide
        };
        let h: i128 = if high < 1 {
            1
        } else if high > 0x2000 {
            0x2000
        } else {
            high
        };
        assert(1 <= w * h <= 0x2000 * 0x2000) by (nonlinear_arith)
            requires
                1 <= w <= 0x2000,
                1 <= h <= 0x2000,
        ;
        let guess: i128 = w * h / 4;
        let room: usize = if guess < 4 {
            4
        } else if guess > 0x10_0000 {
            0x10_0000
        } else {
            guess as usize
        };
        let mut cache = CachingProvider::with_capacity(self.provider, room);
        if w * h <= 256 && plan.left as i128 <= 0xFFFF && plan.top as i128 <= 0xFFFF
            && plan.right as i128 <= 0xFFF8 && plan.bottom as i128 <= 0xFFF8 {
            assert forall|key: BlockKey|
                key.on_map() implies #[trigger] cache.inner.covers_block(key) by {}
            cache.prefetch_rect(plan.left, plan.top, plan.right, plan.bottom);
        }
        cache
    }

    /// Looks for a way from one place to another, and adds its points, from start to end,
    /// to a list. With `all_points` all places visited are added, with their costs, in
    /// the order of the visits.
    ///
    /// `map_width` and `map_height` bound the search where the options do not. Where no
    /// way leads to the destination, the way to the nearest place that was visited is
    /// returned. `observer` is told of each visit, of each place found on the way and of
    /// each point of the result; the search ends at once when it wants so.
    pub fn trace_a_star<F: FnMut(AStarEvent) -> AStarAction>(
        &self,
        s_x: isize,
        s_y: isize,
        s_z: i8,
        sdir: Heading,
        d_x: isize,
        d_y: isize,
        d_z: i8,
        _ddir: Heading,
        points: &mut Vec<Point>,
        options: &TraceOptions,
        map_width: isize,
        map_height: isize,
        mut observer: F,
    )
        requires
            self.wf(),
            Plan::made_of(
                (Place { x: s_x, y: s_y, z: s_z }),
                sdir,
                (Place { x: d_x, y: d_y, z: d_z }),
                *options,
                map_width,
                map_height,
            ).wf(),
            forall|e: AStarEvent| #[trigger] call_requires(observer, (e,)),
        ensures
            exists|run: Seq<Scored>, visited: Seq<Scored>, best: Option<usize>|
                {
                    &&& #[trigger] self.went(
                        Plan::made_of(
                            (Place { x: s_x, y: s_y, z: s_z }),
                            sdir,
                            (Place { x: d_x, y: d_y, z: d_z }),
                            *options,
                            map_width,
                            map_height,
                        ),
                        limit_of(*options),
                        observer,
                        run,
                        visited,
                        best,
                    )
                    &&& final(points)@ == old(points)@ + outcome(
                        visited,
                        best,
                        options.all_points == Some(true),
                    )
                    &&& options.all_points != Some(true) ==> told_way(
                        observer,
                        outcome(visited, best, false),
                    )
                },
    {
        let start = Place { x: s_x, y: s_y, z: s_z };
        let goal = Place { x: d_x, y: d_y, z: d_z };
        let plan = Plan::new(start, sdir, goal, options, map_width, map_height);
        let limit: Option<u128> = match options.time_limit {
            Some(ms) => {
                if ms >= 0 {
                    Some(ms as u128)
                } else {
                    None
                }
            },
            None => None,
        };
        let mut cache = self.prepare(&plan);
        let (visited, best, Ghost(run)) = self.search(&mut cache, &plan, limit, &mut observer);
        let n: usize = visited.len();
        proof {
            assert(visited@.len() == n);
            self.runs_are_sound(plan, run);
            lemma_nearest_in_range(plan, visited@, visited@.len() as int);
            lemma_nearest_in_range(plan, visited@, visited@.len() - 1);
            assert(self.went(plan, limit_of(*options), observer, run, visited@, best));
            assert forall|i: int| 0 < i < visited@.len() implies (#[trigger] visited@[i]).from
                < visited@.len() by {
                assert(self.rooted(plan, visited@, i));
            }
        }
        if options.all_points.unwrap_or(false) {
            push_visits(points, &visited);
        } else if let Some(b) = best {
            push_way(points, &visited, b, &mut observer);
        }
        assert(points@ =~= old(points)@ + outcome(
            visited@,
            best,
            options.all_points == Some(true),
        ));
    }

    /// Whether a way to a place goes on from an earlier visit: by a step in one of the
    /// directions of the search, at the cost that this takes.
    pub open spec fn goes_on(&self, plan: Plan, visited: Seq<Scored>, e: Scored) -> bool {
        let from = visited[e.from as int];
        &&& e.from < visited.len()
        &&& self.step(plan, from.at, e.facing) == Some(e.at)
        &&& e.g == self.cost(plan, from, e.facing, e.at)
        &&& e.g <= plan.cost_limit
        &&& !plan.diagonal ==> !e.facing.diagonal()
    }

    /// Whether visit `i` is the start, or goes on from an earlier one.
    pub open spec fn rooted(&self, plan: Plan, visited: Seq<Scored>, i: int) -> bool {
        if i == 0 {
            visited[0] == self.seed(plan)
        } else {
            visited[i].from < i && self.goes_on(plan, visited, visited[i])
        }
    }

    /// Whether the state of a search is one that it can come to.
    pub open spec fn sound(&self, plan: Plan, s: SearchState) -> bool {
        &&& forall|i: int| 0 <= i < s.visited.len() ==> #[trigger] self.rooted(plan, s.visited, i)
        &&& forall|e: Scored| #[trigger]
            s.open.count(e) > 0 ==> if s.visited.len() == 0 {
                e == self.seed(plan)
            } else {
                self.goes_on(plan, s.visited, e)
            }
        &&& forall|i: int, j: int|
            0 <= i < j < s.visited.len() ==> (#[trigger] s.visited[i]).at != (
            #[trigger] s.visited[j]).at
    }

    /// What the offers add goes on from the last visit.
    proof fn lemma_offers_go_on(&self, plan: Plan, visited: Seq<Scored>, k: int, e: Scored)
        requires
            0 <= k <= plan.ways(),
            0 < visited.len() <= usize::MAX,
            self.offers(plan, visited, k).contains(e),
        ensures
            self.goes_on(plan, visited, e),
        decreases k,
    {
        if k > 0 {
            let before = self.offers(plan, visited, k - 1);
            let all = self.offers(plan, visited, k);
            let i = choose|i: int| 0 <= i < all.len() && all[i] == e;
            if i < before.len() {
                assert(before[i] == e);
                assert(before.contains(e));
                self.lemma_offers_go_on(plan, visited, k - 1, e);
            }
        }
    }

    /// Law: every run starts at the start, and each further visit is a step from an
    /// earlier one that the ground allows, at the cost of the way so far and of the step,
    /// within the limit. No place is visited twice.
    pub proof fn runs_are_sound(&self, plan: Plan, run: Seq<Scored>)
        requires
            self.is_run(plan, run),
            self.after(plan, run).visited.len() <= usize::MAX,
        ensures
            self.sound(plan, self.after(plan, run)),
        decreases run.len(),
    {
        if run.len() > 0 {
            let s = self.after(plan, run.drop_last());
            let t = self.after(plan, run);
            let e = run.last();
            self.runs_are_sound(plan, run.drop_last());
            assert forall|i: int| 0 <= i < t.visited.len() implies #[trigger] self.rooted(
                plan,
                t.visited,
                i,
            ) by {
                if i < s.visited.len() {
                    assert(self.rooted(plan, s.visited, i));
                }
            }
            assert forall|o: Scored| #[trigger] t.open.count(o) > 0 implies if t.visited.len()
                == 0 {
                o == self.seed(plan)
            } else {
                self.goes_on(plan, t.visited, o)
            } by {
                broadcast use vstd::seq_lib::group_to_multiset_ensures;

                let made = self.offers(plan, t.visited, plan.ways());
                if t.visited.len() > s.visited.len() && made.contains(o) {
                    self.lemma_offers_go_on(plan, t.visited, plan.ways(), o);
                } else {
                    assert(s.open.remove(e).count(o) > 0);
                    assert(s.open.count(o) > 0);
                    if s.visited.len() == 0 {
                        self.lemma_first_turn(plan, run.drop_last());
                    }
                }
            }
            assert forall|i: int, j: int| 0 <= i < j < t.visited.len() implies (
            #[trigger] t.visited[i]).at != (#[trigger] t.visited[j]).at by {
                if j == s.visited.len() {
                    assert(s.visited[i].at != e.at);
                }
            }
        } else {
            assert forall|o: Scored| #[trigger]
                self.after(plan, run).open.count(o) > 0 implies o == self.seed(plan) by {}
        }
    }

    /// Nothing was visited only before the first turn.
    proof fn lemma_first_turn(&self, plan: Plan, run: Seq<Scored>)
        requires
            self.is_run(plan, run),
            self.after(plan, run).visited.len() == 0,
        ensures
            run.len() == 0,
    {
        if run.len() > 0 {
            let s = self.after(plan, run.drop_last());
            assert(s.visited.len() == 0);
        }
    }

    /// Law: the way that a search returns ends at the visit that counts as nearest, is made
    /// of steps that the ground allows, and starts at the start unless it is too long to
    /// be followed back so far.
    pub proof fn ways_are_walkable(&self, plan: Plan, visited: Seq<Scored>, b: int)
        requires
            forall|i: int| 0 <= i < visited.len() ==> #[trigger] self.rooted(plan, visited, i),
            0 <= b < visited.len(),
        ensures
            way_to(visited, b).len() > 0,
            way_to(visited, b).last() == way_point(visited[b]),
            way_to(visited, b).len() <= MAX_STEPS_BACK ==> way_to(visited, b)[0] == (Point {
                x: plan.start.x,
                y: plan.start.y,
                z: plan.start.z,
                w: 0,
            }),
            forall|j: int|
                0 < j < way_to(visited, b).len() ==> #[trigger] self.one_step_on(
                    plan,
                    way_to(visited, b),
                    j,
                ),
    {
        let n = MAX_STEPS_BACK as nat;
        let line = lineage(visited, b, n);
        let way = way_to(visited, b);
        self.lemma_lineage(plan, visited, b, n);
        assert forall|j: int| 0 < j < way.len() implies #[trigger] self.one_step_on(
            plan,
            way,
            j,
        ) by {
            let i = line[j];
            assert(linked(visited, line, j));
            assert(0 <= line[j - 1] < visited.len());
            assert(self.rooted(plan, visited, i));
            assert(visited[i].from == line[j - 1]);
            assert(self.step(plan, place_at(way[j - 1]), visited[i].facing) == Some(
                place_at(way[j]),
            ));
            assert(self.steps_by(plan, way, j, visited[i].facing));
        }
        assert(self.rooted(plan, visited, 0));
    }

    /// Whether a step in a direction of the search leads from the point before to point `j`.
    pub open spec fn one_step_on(&self, plan: Plan, way: Seq<Point>, j: int) -> bool {
        exists|h: Heading| #[trigger] self.steps_by(plan, way, j, h)
    }

    pub open spec fn steps_by(&self, plan: Plan, way: Seq<Point>, j: int, h: Heading) -> bool {
        &&& self.step(plan, place_at(way[j - 1]), h) == Some(place_at(way[j]))
        &&& !plan.diagonal ==> !h.diagonal()
    }

    proof fn lemma_lineage(&self, plan: Plan, visited: Seq<Scored>, b: int, n: nat)
        requires
            forall|i: int| 0 <= i < visited.len() ==> #[trigger] self.rooted(plan, visited, i),
            0 <= b < visited.len(),
        ensures
            0 < lineage(visited, b, n).len() <= n + 1,
            lineage(visited, b, n).last() == b,
            lineage(visited, b, n).len() <= n ==> lineage(visited, b, n)[0] == 0,
            forall|j: int|
                0 <= j < lineage(visited, b, n).len() ==> 0 <= #[trigger] lineage(visited, b, n)[j]
                    < visited.len(),
            forall|j: int|
                0 < j < lineage(visited, b, n).len() ==> #[trigger] linked(
                    visited,
                    lineage(visited, b, n),
                    j,
                ),
        decreases n,
    {
        if b > 0 && n > 0 {
            assert(self.rooted(plan, visited, b));
            let from = visited[b].from as int;
            self.lemma_lineage(plan, visited, from, (n - 1) as nat);
            let before = lineage(visited, from, (n - 1) as nat);
            let line = lineage(visited, b, n);
            assert forall|j: int| 0 < j < line.len() implies #[trigger] linked(
                visited,
                line,
                j,
            ) by {
                if j < before.len() {
                    assert(linked(visited, before, j));
                }
            }
        }
    }

    /// Whether the step in direction number `k` from visit `i` leads to a place that can
    /// be afforded.
    pub open spec fn open_step(
        &self,
        plan: Plan,
        visited: Seq<Scored>,
        i: int,
        k: int,
        to: Place,
    ) -> bool {
        &&& self.step(plan, visited[i].at, plan.way(k)) == Some(to)
        &&& isize::MIN <= self.cost(plan, visited[i], plan.way(k), to) <= plan.cost_limit
    }

    /// Whether a place was visited or may still be.
    pub open spec fn noted(s: SearchState, p: Place) -> bool {
        known(s.visited, p) || exists|e: Scored| #[trigger] s.open.count(e) > 0 && e.at == p
    }

    /// What the offers leave out was visited or costs too much.
    proof fn lemma_offers_note(&self, plan: Plan, visited: Seq<Scored>, n: int, k: int, to: Place)
        requires
            0 <= k < n <= plan.ways(),
            visited.len() > 0,
            self.open_step(plan, visited, visited.len() - 1, k, to),
            !known(visited, to),
        ensures
            exists|e: Scored| #[trigger]
                self.offers(plan, visited, n).contains(e) && e.at == to,
        decreases n,
    {
        let all = self.offers(plan, visited, n);
        if n == k + 1 {
            let e = self.offer(plan, visited, k)->0;
            assert(all.last() == e);
            assert(all.contains(e));
        } else {
            self.lemma_offers_note(plan, visited, n - 1, k, to);
            let before = self.offers(plan, visited, n - 1);
            let e = choose|e: Scored| #[trigger] before.contains(e) && e.at == to;
            let i = choose|i: int| 0 <= i < before.len() && before[i] == e;
            assert(all[i] == e);
            assert(all.contains(e));
        }
    }

    /// As long as the way is not found, each step that can be afforded from any visit leads
    /// to a place that was visited or may still be.
    proof fn lemma_all_noted(&self, plan: Plan, run: Seq<Scored>, i: int, k: int, to: Place)
        requires
            self.is_run(plan, run),
            !Self::found(plan, self.after(plan, run)),
            0 <= i < self.after(plan, run).visited.len(),
            0 <= k < plan.ways(),
            self.open_step(plan, self.after(plan, run).visited, i, k, to),
        ensures
            Self::noted(self.after(plan, run), to),
        decreases run.len(),
    {
        broadcast use vstd::seq_lib::group_to_multiset_ensures;

        let s = self.after(plan, run.drop_last());
        let t = self.after(plan, run);
        let e = run.last();
        if i < s.visited.len() {
            assert(self.open_step(plan, s.visited, i, k, to));
            self.lemma_all_noted(plan, run.drop_last(), i, k, to);
            if known(s.visited, to) {
                let j = choose|j: int| 0 <= j < s.visited.len() && (#[trigger] s.visited[j]).at
                    == to;
                assert(t.visited[j].at == to);
            } else {
                let o = choose|o: Scored| #[trigger] s.open.count(o) > 0 && o.at == to;
                if o == e {
                    assert(t.visited[s.visited.len() as int].at == to);
                } else {
                    assert(t.open.count(o) > 0);
                }
            }
        } else if !known(t.visited, to) {
            self.lemma_offers_note(plan, t.visited, plan.ways(), k, to);
            let made = self.offers(plan, t.visited, plan.ways());
            let o = choose|o: Scored| #[trigger] made.contains(o) && o.at == to;
            assert(made.to_multiset().count(o) > 0);
            assert(t.open.count(o) > 0);
        }
    }

    /// Law: where a search ends with nothing left to visit, no place was overlooked: every
    /// step that can be afforded from a visit leads to another visit.
    pub proof fn nothing_is_overlooked(&self, plan: Plan, run: Seq<Scored>, i: int, k: int, to: Place)
        requires
            self.is_run(plan, run),
            !Self::found(plan, self.after(plan, run)),
            self.after(plan, run).open == Multiset::<Scored>::empty(),
            0 <= i < self.after(plan, run).visited.len(),
            0 <= k < plan.ways(),
            self.open_step(plan, self.after(plan, run).visited, i, k, to),
        ensures
            known(self.after(plan, run).visited, to),
    {
        self.lemma_all_noted(plan, run, i, k, to);
    }

    /// Whether one can walk along a list of places, from the start, by steps of the search.
    pub open spec fn is_walk(&self, plan: Plan, places: Seq<Place>) -> bool {
        &&& places.len() > 0
        &&& places[0] == plan.start
        &&& forall|j: int| 0 < j < places.len() ==> #[trigger] self.is_next(plan, places, j)
    }

    /// Whether a step of the search leads to place `j` of a list from the one before it.
    pub open spec fn is_next(&self, plan: Plan, places: Seq<Place>, j: int) -> bool {
        exists|k: int|
            0 <= k < plan.ways() && self.step(plan, places[j - 1], #[trigger] plan.way(k)) == Some(
                places[j],
            )
    }

    /// A walk without its last step is a walk.
    proof fn lemma_walk_before(&self, plan: Plan, places: Seq<Place>)
        requires
            self.is_walk(plan, places),
            places.len() > 1,
        ensures
            self.is_walk(plan, places.drop_last()),
    {
        let before = places.drop_last();
        assert forall|j: int| 0 < j < before.len() implies #[trigger] self.is_next(
            plan,
            before,
            j,
        ) by {
            assert(self.is_next(plan, places, j));
            let k = choose|k: int|
                0 <= k < plan.ways() && self.step(plan, places[j - 1], #[trigger] plan.way(k))
                    == Some(places[j]);
            assert(self.step(plan, before[j - 1], plan.way(k)) == Some(before[j]));
        }
    }

    /// Law: where a search ends with nothing left to visit, and no step from a visit was
    /// too dear, every place that can be walked to from the start was visited.
    pub proof fn reachable_places_are_visited(
        &self,
        plan: Plan,
        run: Seq<Scored>,
        places: Seq<Place>,
    )
        requires
            self.is_run(plan, run),
            !Self::found(plan, self.after(plan, run)),
            self.after(plan, run).open == Multiset::<Scored>::empty(),
            self.after(plan, run).visited.len() <= usize::MAX,
            forall|i: int, k: int, to: Place|
                #![trigger self.open_step(plan, self.after(plan, run).visited, i, k, to)]
                0 <= i < self.after(plan, run).visited.len() && 0 <= k < plan.ways() && self.step(
                    plan,
                    self.after(plan, run).visited[i].at,
                    plan.way(k),
                ) == Some(to) ==> self.open_step(plan, self.after(plan, run).visited, i, k, to),
            self.is_walk(plan, places),
        ensures
            known(self.after(plan, run).visited, places.last()),
        decreases places.len(),
    {
        let s = self.after(plan, run);
        self.runs_are_sound(plan, run);
        if places.len() == 1 {
            if run.len() == 0 {
                assert(s.open.count(self.seed(plan)) > 0);
            }
            if s.visited.len() == 0 {
                self.lemma_first_turn(plan, run);
            }
            assert(self.rooted(plan, s.visited, 0));
        } else {
            let before = places.drop_last();
            self.lemma_walk_before(plan, places);
            self.reachable_places_are_visited(plan, run, before);
            let last = places.len() - 1;
            assert(self.is_next(plan, places, last));
            let k = choose|k: int|
                0 <= k < plan.ways() && self.step(plan, places[last - 1], #[trigger] plan.way(k))
                    == Some(places[last]);
            let i = choose|i: int|
                0 <= i < s.visited.len() && (#[trigger] s.visited[i]).at == before.last();
            assert(self.open_step(plan, s.visited, i, k, places[last]));
            self.nothing_is_overlooked(plan, run, i, k, places[last]);
        }
    }
}

/// Whether the visit at position `j` of a way goes on from the one before it.
pub open spec fn linked(visited: Seq<Scored>, line: Seq<int>, j: int) -> bool {
    line[j] > 0 && visited[line[j]].from == line[j - 1]
}

pub open spec fn place_at(p: Point) -> Place {
    Place { x: p.x, y: p.y, z: p.z }
}

/// Whether all places that may be visited have coordinates of a search.
pub open spec fn places_ahead(open: Multiset<Scored>) -> bool {
    forall|e: Scored| #[trigger]
        open.count(e) > 0 ==> in_reach(e.at.x as int) && in_reach(e.at.y as int)
}

proof fn lemma_ahead_push(
    base: Multiset<Scored>,
    made: Seq<Scored>,
    open: Multiset<Scored>,
    o: Scored,
)
    requires
        open == base.add(made.to_multiset()),
        places_ahead(open),
        in_reach(o.at.x as int),
        in_reach(o.at.y as int),
    ensures
        open.insert(o) == base.add(made.push(o).to_multiset()),
        places_ahead(open.insert(o)),
{
    broadcast use vstd::seq_lib::group_to_multiset_ensures;

    assert(open.insert(o) =~= base.add(made.push(o).to_multiset()));
    assert forall|e: Scored| #[trigger] open.insert(o).count(e) > 0 implies in_reach(
        e.at.x as int,
    ) && in_reach(e.at.y as int) by {
        if e != o {
            assert(open.count(e) > 0);
        }
    }
}

fn clamp_score(f: i128) -> (r: isize)
    ensures
        r == clamped(f as int),
{
    if f < isize::MIN as i128 {
        isize::MIN
    } else if f > isize::MAX as i128 {
        isize::MAX
    } else {
        f as isize
    }
}

/// Whether all places visited have coordinates of a search.
pub open spec fn places_in_reach(visited: Seq<Scored>) -> bool {
    forall|i: int|
        0 <= i < visited.len() ==> in_reach((#[trigger] visited[i]).at.x as int) && in_reach(
            visited[i].at.y as int,
        )
}

/// Whether a set holds the numbers of exactly the places that were visited.
pub open spec fn marks(seen: Set<u128>, visited: Seq<Scored>) -> bool {
    forall|p: Place|
        in_reach(p.x as int) && in_reach(p.y as int) ==> #[trigger] known(visited, p)
            == seen.contains(place_key(p) as u128)
}

proof fn lemma_marks_push(seen: Set<u128>, visited: Seq<Scored>, e: Scored)
    requires
        marks(seen, visited),
        in_reach(e.at.x as int),
        in_reach(e.at.y as int),
    ensures
        marks(seen.insert(place_key(e.at) as u128), visited.push(e)),
{
    let after = visited.push(e);
    assert forall|p: Place|
        in_reach(p.x as int) && in_reach(p.y as int) implies #[trigger] known(after, p)
        == seen.insert(place_key(e.at) as u128).contains(place_key(p) as u128) by {
        lemma_key_tells_place(p, e.at);
        assert(known(visited, p) == seen.contains(place_key(p) as u128));
        if known(visited, p) {
            let i = choose|i: int| 0 <= i < visited.len() && (#[trigger] visited[i]).at == p;
            assert(after[i].at == p);
        }
        if p == e.at {
            assert(after[visited.len() as int].at == p);
        }
        if known(after, p) {
            let i = choose|i: int| 0 <= i < after.len() && (#[trigger] after[i]).at == p;
            if i < visited.len() {
                assert(visited[i].at == p);
            }
        }
    }
}

proof fn lemma_nearest_in_range(plan: Plan, visited: Seq<Scored>, n: int)
    requires
        n <= visited.len(),
        visited.len() <= usize::MAX,
    ensures
        nearest(plan, visited, n) matches Some(b) ==> b < n,
    decreases n,
{
    if n > 0 {
        lemma_nearest_in_range(plan, visited, n - 1);
    }
}

/// Law: the visit that counts as nearest to the destination is the first of those that
/// are nearest to it.
pub proof fn nearest_is_nearest(plan: Plan, visited: Seq<Scored>, n: int)
    requires
        0 < n <= visited.len(),
        visited.len() <= usize::MAX,
    ensures
        nearest(plan, visited, n) is Some,
        nearest(plan, visited, n)->0 < n,
        forall|i: int|
            0 <= i < n ==> plan.distance_of(visited[(nearest(plan, visited, n)->0) as int].at)
                <= plan.distance_of((#[trigger] visited[i]).at),
        forall|i: int|
            0 <= i < nearest(plan, visited, n)->0 ==> plan.distance_of(
                visited[(nearest(plan, visited, n)->0) as int].at,
            ) < plan.distance_of((#[trigger] visited[i]).at),
    decreases n,
{
    if n > 1 {
        nearest_is_nearest(plan, visited, n - 1);
    } else {
        assert(nearest(plan, visited, 0) is None);
    }
}

fn point_of(e: &Scored) -> (p: Point)
    ensures
        p == way_point(*e),
{
    Point { x: e.at.x, y: e.at.y, z: e.at.z, w: 0 }
}

/// Adds all visits to a list.
fn push_visits(points: &mut Vec<Point>, visited: &Vec<Scored>)
    ensures
        final(points)@ == old(points)@ + visited@.map_values(|e: Scored| cost_point(e)),
{
    let ghost all = visited@.map_values(|e: Scored| cost_point(e));
    let mut i: usize = 0;
    assert(points@ =~= old(points)@ + all.take(0));
    while i < visited.len()
        invariant
            i <= visited@.len(),
            all == visited@.map_values(|e: Scored| cost_point(e)),
            points@ == old(points)@ + all.take(i as int),
        decreases visited@.len() - i,
    {
        let e = visited[i];
        points.push(Point { x: e.at.x, y: e.at.y, z: e.at.z, w: e.g });
        assert(points@ =~= old(points)@ + all.take(i + 1));
        i = i + 1;
    }
    assert(all.take(i as int) =~= all);
}

/// Adds the points of the way to a visit to a list, and tells the watcher of them.
fn push_way<F: FnMut(AStarEvent) -> AStarAction>(
    points: &mut Vec<Point>,
    visited: &Vec<Scored>,
    best: usize,
    observer: &mut F,
)
    requires
        best < visited@.len(),
        forall|i: int|
            0 < i < visited@.len() ==> (#[trigger] visited@[i]).from < visited@.len(),
        forall|e: AStarEvent| #[trigger] call_requires(*old(observer), (e,)),
    ensures
        *final(observer) == *old(observer),
        final(points)@ == old(points)@ + way_to(visited@, best as int),
        told_way(*old(observer), way_to(visited@, best as int)),
{
    let ghost whole = lineage(visited@, best as int, MAX_STEPS_BACK as nat);
    let mut back: Vec<Point> = Vec::new();
    let mut at: usize = best;
    let mut left: usize = MAX_STEPS_BACK;
    let ghost pts = |k: int| way_point(visited@[k]);
    assert(whole.map_values(pts) =~= whole.map_values(pts) + back@.reverse());
    back.push(point_of(&visited[best]));
    proof {
        lemma_lineage_last(visited@, best as int, MAX_STEPS_BACK as nat);
        assert(whole.map_values(pts) =~= whole.drop_last().map_values(pts) + back@.reverse());
    }
    while at > 0 && left > 0
        invariant
            at < visited@.len(),
            forall|i: int|
                0 < i < visited@.len() ==> (#[trigger] visited@[i]).from < visited@.len(),
            forall|e: AStarEvent| #[trigger] call_requires(*observer, (e,)),
            *observer == *old(observer),
            pts == (|k: int| way_point(visited@[k])),
            whole.map_values(pts) == lineage(visited@, at as int, left as nat).drop_last().map_values(
                pts,
            ) + back@.reverse(),
            back@.len() > 0,
            back@[0] == way_point(visited@[best as int]),
            best < visited@.len(),
            forall|j: int|
                1 <= j < back@.len() ==> told(*observer, path_event(#[trigger] back@[j])),
        decreases left,
    {
        let prev: usize = visited[at].from;
        let e = visited[prev];
        let ghost here = lineage(visited@, at as int, left as nat);
        let ghost before = lineage(visited@, prev as int, (left - 1) as nat);
        let ghost old_back = back@;
        back.push(point_of(&e));
        let answer = observer(AStarEvent::Path { x: e.at.x, y: e.at.y, z: e.at.z });
        proof {
            assert(answers(*observer, path_event(way_point(e)), answer));
            lemma_lineage_last(visited@, prev as int, (left - 1) as nat);
            assert(here.drop_last() =~= before);
            assert(back@.reverse() =~= seq![way_point(e)] + old_back.reverse());
            assert(before.map_values(pts) =~= before.drop_last().map_values(pts) + seq![
                way_point(e),
            ]);
            assert(whole.map_values(pts) =~= before.drop_last().map_values(pts) + back@.reverse());
        }
        at = prev;
        left = left - 1;
    }
    let last = visited[best];
    let answer = observer(AStarEvent::Path { x: last.at.x, y: last.at.y, z: last.at.z });
    proof {
        assert(answers(*observer, path_event(way_point(last)), answer));
        assert(lineage(visited@, at as int, left as nat) =~= seq![at as int]);
        assert(whole.map_values(pts) =~= back@.reverse());
        assert(way_to(visited@, best as int) =~= back@.reverse());
        assert forall|i: int| 0 <= i < back@.reverse().len() implies told(
            *observer,
            path_event(#[trigger] back@.reverse()[i]),
        ) by {
            let j = back@.len() - 1 - i;
            assert(back@.reverse()[i] == back@[j]);
        }
    }
    let ghost start = points@;
    let ghost way = back@.reverse();
    let mut n: usize = back.len();
    assert(points@ =~= start + way.take(0));
    while n > 0
        invariant
            n <= back@.len(),
            way == back@.reverse(),
            points@ == start + way.take(back@.len() - n),
        decreases n,
    {
        n = n - 1;
        points.push(back[n]);
        assert(points@ =~= start + way.take(back@.len() - n));
    }
    assert(way.take(back@.len() as int) =~= way);
}

proof fn lemma_lineage_last(visited: Seq<Scored>, i: int, n: nat)
    ensures
        lineage(visited, i, n).len() > 0,
        lineage(visited, i, n).last() == i,
{
}

/// Which visit is nearest is not changed by later ones.
proof fn lemma_nearest(plan: Plan, visited: Seq<Scored>, e: Scored, n: int)
    requires
        0 <= n <= visited.len(),
        visited.len() <= usize::MAX,
    ensures
        nearest(plan, visited.push(e), n) == nearest(plan, visited, n),
        nearest(plan, visited, n) matches Some(b) ==> b < n,
        n > 0 ==> nearest(plan, visited, n) is Some,
    decreases n,
{
    if n > 0 {
        lemma_nearest(plan, visited, e, n - 1);
    }
}

} // verus!

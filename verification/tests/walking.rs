//! Steps, and the search for a way.

use std::collections::HashMap;

use framework::coords::{BlockKey, Facing, Heading};
use framework::ecumene::movement::{
    compute_dest_position, compute_source_range, is_shape_passable, MovementValidator,
};
use framework::ecumene::pathfinding::plan::root;
use framework::ecumene::pathfinding::{
    AStarAction, AStarEvent, CacheStats, CachingProvider, DistanceFunc, Point, Surveyor,
    TraceOptions,
};
use framework::ecumene::tile_block::TileBlock;
use framework::ecumene::tile_provider::{query_block_tilewise, TileProvider};
use framework::packets::{CharacterLocaleAndBody, DrawGamePlayer, DrawMobile, UpdateMobile};
use framework::rythmos::pending_queue::{AckOutcome, PendingQueue};
use framework::rythmos::position_tracker::PositionTracker;
use framework::vessel::tile_shape::{TileFlags, TileShape};

/// Level ground everywhere but where something else was put.
struct Ground {
    tiles: HashMap<(u16, u16), Vec<TileShape>>,
    houses: Vec<(u16, u16)>,
}

fn floor(z: i8) -> TileShape {
    TileShape::Surface { z_base: z, z_stand: z, flags: TileFlags::SURFACE }
}

fn wall() -> TileShape {
    TileShape::Surface { z_base: 0, z_stand: 20, flags: TileFlags::IMPASSABLE }
}

impl Ground {
    fn level() -> Ground {
        Ground { tiles: HashMap::new(), houses: vec![] }
    }

    fn put(&mut self, x: u16, y: u16, shapes: Vec<TileShape>) {
        self.tiles.insert((x, y), shapes);
    }
}

impl TileProvider for Ground {
    fn stack(&self, _x: u16, _y: u16, _direction: Heading) -> vstd::seq::Seq<TileShape> {
        unreachable!()
    }

    fn flat_stack(&self, _x: u16, _y: u16) -> vstd::seq::Seq<TileShape> {
        unreachable!()
    }

    fn covers(&self, _x: u16, _y: u16) -> bool {
        true
    }

    fn covers_block(&self, _block: BlockKey) -> bool {
        true
    }

    fn query_tile_stack(&self, x: u16, y: u16, _direction: Heading) -> Vec<TileShape> {
        match self.tiles.get(&(x, y)) {
            Some(shapes) => shapes.clone(),
            None => vec![floor(0)],
        }
    }

    fn multi_on(&self, _x: u16, _y: u16) -> bool {
        unreachable!()
    }

    fn is_multi_on(&self, x: u16, y: u16) -> bool {
        self.houses.contains(&(x, y))
    }

    fn query_block(&self, block: BlockKey) -> TileBlock {
        query_block_tilewise(self, block)
    }
}

#[test]
fn who_may_stand_on_what() {
    let hover = TileShape::Surface { z_base: 0, z_stand: 5, flags: TileFlags::HOVER_OVER };
    assert!(is_shape_passable(&floor(0), 0, false));
    assert!(!is_shape_passable(&wall(), 0, false));
    assert!(is_shape_passable(&wall(), TileFlags::IMPASSABLE, false));
    assert!(!is_shape_passable(&hover, 0, false));
    assert!(is_shape_passable(&hover, 0, true));
    assert!(!is_shape_passable(&TileShape::Background { z_base: 0, z_top: 9 }, 0, true));
}

#[test]
fn reachable_heights() {
    assert_eq!(compute_source_range(&[floor(0), floor(9)], 5), (0, 7));
    let slope = TileShape::Slope { z_base: 1, z_stand: 5, z_top: 12, flags: 0 };
    assert_eq!(compute_source_range(&[slope], 5), (1, 14));
    assert_eq!(compute_source_range(&[], 127), (-128, 127));
}

#[test]
fn landing_nearest_to_the_walker() {
    let stack = [floor(0), floor(20), TileShape::cap()];
    assert_eq!(compute_dest_position(&stack, 1, 0, 3, 0, false), Some(0));
    assert_eq!(compute_dest_position(&stack, 19, 19, 21, 0, false), Some(20));
    // Too little room between the two floors.
    let low = [floor(0), floor(10), TileShape::cap()];
    assert_eq!(compute_dest_position(&low, 0, 0, 2, 0, false), None);
    let hover = TileShape::Surface { z_base: 8, z_stand: 9, flags: TileFlags::HOVER_OVER };
    assert_eq!(compute_dest_position(&[floor(0), hover, TileShape::cap()], 0, 0, 2, 0, true), Some(8));
}

#[test]
fn steps_over_level_ground_and_into_walls() {
    let mut g = Ground::level();
    g.put(11, 10, vec![floor(0), wall()]);
    g.put(10, 11, vec![floor(3)]);
    let v = MovementValidator::new(&g);
    assert_eq!(v.test_step(10, 10, 0, Heading::West), Some(0));
    assert_eq!(v.test_step(10, 10, 0, Heading::East), None);
    // Three units are more than one can climb.
    assert_eq!(v.test_step(10, 10, 0, Heading::South), None);
    // A diagonal step needs both sides of the corner.
    assert_eq!(v.test_step(10, 10, 0, Heading::NorthEast), None);
    assert_eq!(v.test_step(10, 10, 0, Heading::NorthWest), Some(0));
    // A low rock stops those only who may not enter it.
    let rock = TileShape::Surface { z_base: 0, z_stand: 2, flags: TileFlags::IMPASSABLE };
    g.put(31, 30, vec![rock]);
    let v = MovementValidator::new(&g);
    assert_eq!(v.test_step(30, 30, 0, Heading::East), None);
    let v = MovementValidator::new(&g).with_passable_mask(TileFlags::IMPASSABLE);
    assert_eq!(v.test_step(30, 30, 0, Heading::East), Some(2));
    assert_eq!(v.resolve_standing_z(10, 11, 2, Heading::North), Some(3));
}

#[test]
fn blocks_are_fetched_once() {
    let mut g = Ground::level();
    g.put(2, 2, vec![floor(4)]);
    let mut c = CachingProvider::new(&g);
    assert_eq!(c.tile_stack(2, 2), vec![floor(4)]);
    assert_eq!(c.tile_stack(3, 2), vec![floor(0)]);
    assert_eq!(c.tile_stack(8, 2), vec![floor(0)]);
    assert_eq!(c.stats(), CacheStats { hits: 1, misses: 2, blocks_loaded: 2 });
    let mut more = vec![floor(1)];
    c.append_tile_stack(2, 2, &mut more);
    assert_eq!(more, vec![floor(1), floor(4)]);
    c.prefetch_rect(0, 0, 15, 7);
    assert_eq!(c.cached_blocks(), 6);
    let fetched = c.stats();
    c.prefetch_rect(0, 0, 15, 7);
    assert_eq!(c.stats(), fetched);
    assert_eq!(c.tile_stack_ref(2, 2), &[floor(4)]);
    assert_eq!(c.test_step(1, 2, 0, Heading::East, 0, false), None);
    assert_eq!(c.test_step(1, 2, 2, Heading::East, 0, false), Some(4));
    // One question about a tile and two steps of two questions each.
    assert_eq!(c.stats(), CacheStats { hits: fetched.hits + 5, ..fetched });
    assert_eq!(CacheStats::default(), CacheStats { hits: 0, misses: 0, blocks_loaded: 0 });
}

fn trace(g: &Ground, to: (isize, isize), options: &TraceOptions) -> Vec<Point> {
    let mut points = Vec::new();
    Surveyor::with_options(g, options).trace_a_star(
        10,
        10,
        0,
        Heading::East,
        to.0,
        to.1,
        0,
        Heading::East,
        &mut points,
        options,
        100,
        100,
        |_| AStarAction::Continue,
    );
    points
}

fn xy(points: &[Point]) -> Vec<(isize, isize)> {
    points.iter().map(|p| (p.x, p.y)).collect()
}

#[test]
fn way_straight_ahead() {
    let g = Ground::level();
    let way = trace(&g, (14, 10), &TraceOptions::default());
    assert_eq!(xy(&way), vec![(10, 10), (11, 10), (12, 10), (13, 10), (14, 10)]);
    assert!(way.iter().all(|p| p.w == 0 && p.z == 0));
}

#[test]
fn way_to_where_one_is() {
    let g = Ground::level();
    assert_eq!(xy(&trace(&g, (10, 10), &TraceOptions::default())), vec![(10, 10)]);
}

#[test]
fn way_is_added_to_a_list_from_start_to_end() {
    let g = Ground::level();
    let mut points = vec![Point { x: 1, y: 2, z: 3, w: 4 }, Point { x: 5, y: 6, z: 7, w: 8 }];
    Surveyor::new(&g).trace_a_star(
        10,
        10,
        0,
        Heading::North,
        10,
        8,
        0,
        Heading::North,
        &mut points,
        &TraceOptions::default(),
        100,
        100,
        |_| AStarAction::Continue,
    );
    assert_eq!(xy(&points), vec![(1, 2), (5, 6), (10, 10), (10, 9), (10, 8)]);
}

#[test]
fn way_around_a_wall() {
    let mut g = Ground::level();
    for y in 8..13 {
        g.put(12, y, vec![floor(0), wall()]);
    }
    let way = trace(&g, (14, 10), &TraceOptions::default());
    assert_eq!(xy(&way)[0], (10, 10));
    assert_eq!(*xy(&way).last().unwrap(), (14, 10));
    // No diagonal steps unless they are asked for.
    for pair in way.windows(2) {
        assert_eq!((pair[0].x - pair[1].x).abs() + (pair[0].y - pair[1].y).abs(), 1);
    }
    assert!(way.iter().all(|p| p.x != 12 || p.y < 8 || p.y > 12));
}

#[test]
fn diagonal_way() {
    let g = Ground::level();
    let options = TraceOptions {
        allow_diagonal_move: Some(true),
        heuristic_distance: Some(DistanceFunc::Euclidean),
        ..TraceOptions::default()
    };
    let way = trace(&g, (13, 13), &options);
    assert_eq!(xy(&way), vec![(10, 10), (11, 11), (12, 12), (13, 13)]);
}

#[test]
fn way_ends_as_near_as_can_be() {
    let mut g = Ground::level();
    for (x, y) in [(13, 10), (14, 9), (14, 11), (15, 10)] {
        g.put(x, y, vec![floor(0), wall()]);
    }
    let options = TraceOptions {
        left: Some(5),
        top: Some(5),
        right: Some(20),
        bottom: Some(20),
        ..TraceOptions::default()
    };
    let way = trace(&g, (14, 10), &options);
    let end = *xy(&way).last().unwrap();
    assert_eq!((end.0 - 14).abs().max((end.1 - 10).abs()), 1);
    // Near enough is enough.
    let near = TraceOptions { accuracy_x: Some(2), ..options };
    assert_eq!(*xy(&trace(&g, (14, 10), &near)).last().unwrap(), (12, 10));
}

#[test]
fn all_places_within_the_cost_limit() {
    let g = Ground::level();
    let options = TraceOptions {
        all_points: Some(true),
        cost_limit: Some(1),
        cost_turn: Some(0),
        ..TraceOptions::default()
    };
    let mut seen = trace(&g, (50, 50), &options);
    seen.sort_by_key(|p| (p.x, p.y));
    assert_eq!(xy(&seen), vec![(9, 10), (10, 9), (10, 10), (10, 11), (11, 10)]);
    assert_eq!(seen.iter().map(|p| p.w).collect::<Vec<_>>(), vec![1, 1, 0, 1, 1]);
    // A turn costs one by default, and a house on the tile costs extra.
    let turning = TraceOptions { cost_turn: None, ..options };
    assert_eq!(trace(&g, (50, 50), &turning).len(), 2);
    let crowded = TraceOptions { cost_move_multi: Some(1), ..options };
    assert_eq!(trace(&g, (50, 50), &crowded).len(), 5);
    let mut built = Ground::level();
    built.houses = vec![(11, 10), (10, 11)];
    let mut left = trace(&built, (50, 50), &crowded);
    left.sort_by_key(|p| (p.x, p.y));
    assert_eq!(xy(&left), vec![(9, 10), (10, 9), (10, 10)]);
    assert_eq!(trace(&built, (50, 50), &options).len(), 5);
}

#[test]
fn watcher_hears_of_visits_and_can_end_the_search() {
    let g = Ground::level();
    let mut visits = 0;
    let mut path = vec![];
    let mut points = Vec::new();
    let survey = Surveyor::new(&g);
    let options = TraceOptions::default();
    survey.trace_a_star(
        10,
        10,
        0,
        Heading::East,
        14,
        10,
        0,
        Heading::East,
        &mut points,
        &options,
        100,
        100,
        |e| {
            match e {
                AStarEvent::Visited { .. } => {
                    visits += 1;
                    if visits == 3 {
                        return AStarAction::Cancel;
                    }
                }
                AStarEvent::Path { x, y, .. } => path.push((x, y)),
                AStarEvent::Frontier { .. } => {}
            }
            AStarAction::Continue
        },
    );
    assert_eq!(visits, 3);
    // The visit that ended the search does not count.
    assert_eq!(xy(&points), vec![(10, 10), (11, 10)]);
    path.sort();
    assert_eq!(path, xy(&points));

    let mut nothing = Vec::new();
    survey.trace_a_star(
        10,
        10,
        0,
        Heading::East,
        14,
        10,
        0,
        Heading::East,
        &mut nothing,
        &options,
        100,
        100,
        |e| match e {
            AStarEvent::Frontier { .. } => AStarAction::Cancel,
            _ => AStarAction::Continue,
        },
    );
    assert_eq!(xy(&nothing), vec![(10, 10)]);
}

#[test]
fn whole_roots() {
    assert_eq!(root(0), 0);
    assert_eq!(root(99), 9);
    assert_eq!(root(100), 10);
    assert_eq!(root(1 << 100), 1 << 50);
}

#[test]
fn answers_match_steps_in_order() {
    let mut q: PendingQueue<u16> = PendingQueue::new();
    q.push(1, 10);
    q.push(2, 20);
    assert!(matches!(q.on_ack(1), AckOutcome::Matched(10)));
    assert_eq!(q.len(), 1);
    match q.on_ack(7) {
        AckOutcome::Desync(rest) => assert_eq!(rest, vec![20]),
        AckOutcome::Matched(_) => panic!("no such step"),
    }
    assert!(q.is_empty());
}

#[test]
fn position_follows_packets_and_steps() {
    let mut p = PositionTracker::default();
    assert!(!p.is_ready());
    p.apply_character_locale(&CharacterLocaleAndBody {
        serial: 7,
        body_type: 400,
        x: 100,
        y: 200,
        z: 5,
        facing: 2,
        map_width_minus8: 0,
        map_height: 0,
    });
    assert!(p.is_ready());
    assert_eq!((p.serial, p.x, p.y, p.z), (7, 100, 200, 5));
    // Another direction turns, the same one moves.
    assert!(!p.step(Facing::new(0)));
    assert!(p.step(Facing::new(0)));
    assert_eq!((p.x, p.y), (100, 199));
    let sent = p.to_draw_game_player();
    let mut other = PositionTracker::default();
    other.apply_draw_game_player(&sent);
    assert_eq!(other, p);
    p.apply_draw_game_player(&DrawGamePlayer {
        serial: 7,
        body_type: 401,
        hue: 1,
        flags: 2,
        x: 1,
        y: 2,
        z: 3,
        direction: 4,
    });
    assert_eq!((p.body_type, p.x, p.y, p.z), (401, 1, 2, 3));
    p.apply_update_mobile(&UpdateMobile {
        serial: 7,
        model: 402,
        x: 9,
        y: 8,
        z: 7,
        direction: 0,
        hue: 0,
        status_flags: 0,
        notoriety: 0,
    });
    assert_eq!((p.x, p.y, p.z), (9, 8, 7));
    p.apply_draw_mobile(&DrawMobile {
        serial: 7,
        graphic: 403,
        x: 11,
        y: 12,
        z: 13,
        direction: 0,
        color: 0,
        status: 0,
        notoriety: 0,
        items: vec![],
    });
    assert_eq!((p.x, p.y, p.z), (11, 12, 13));
}

//! Rays and what stops them.

use framework::coords::{BlockKey, Heading};
use framework::ecumene::line_of_sight::{LosRay, LosValidator};
use framework::ecumene::tile_block::TileBlock;
use framework::ecumene::tile_provider::{query_block_tilewise, TileProvider};
use framework::vessel::tile_shape::{TileFlags, TileShape};

/// Trivial in-memory tile provider for unit tests.
struct TestProvider {
    /// (x, y) → tile stack.
    tiles: std::collections::HashMap<(u16, u16), Vec<TileShape>>,
}

impl TestProvider {
    fn new() -> Self {
        Self { tiles: std::collections::HashMap::new() }
    }

    fn set(&mut self, x: u16, y: u16, shapes: Vec<TileShape>) {
        self.tiles.insert((x, y), shapes);
    }
}

impl TileProvider for TestProvider {
    fn stack(&self, _x: u16, _y: u16, _direction: Heading) -> vstd::seq::Seq<TileShape> {
        unreachable!()
    }

    fn flat_stack(&self, _x: u16, _y: u16) -> vstd::seq::Seq<TileShape> {
        unreachable!()
    }

    fn covers(&self, _x: u16, _y: u16) -> bool {
        true
    }

    fn covers_block(&self, _block: BlockKey) -> bool {
        true
    }

    fn query_tile_stack(&self, x: u16, y: u16, _direction: Heading) -> Vec<TileShape> {
        self.tiles.get(&(x, y)).cloned().unwrap_or_default()
    }

    fn multi_on(&self, _x: u16, _y: u16) -> bool {
        unreachable!()
    }

    fn is_multi_on(&self, _x: u16, _y: u16) -> bool {
        false
    }

    fn query_block(&self, block: BlockKey) -> TileBlock {
        query_block_tilewise(self, block)
    }
}

// ── LosRay tests ─────────────────────────────────────────────────

#[test]
fn ray_same_tile_yields_nothing() {
    let tiles: Vec<_> = LosRay::new(5, 5, 10, 5, 5, 10).collect();
    assert!(tiles.is_empty());
}

#[test]
fn ray_same_tile_with_endpoints() {
    let tiles: Vec<_> = LosRay::new(5, 5, 10, 5, 5, 10)
        .with_endpoints(true)
        .collect();
    // Same tile: steps == 0, only the start/end point (they're the same).
    assert_eq!(tiles, vec![(5, 5, 10)]);
}

#[test]
fn ray_adjacent_tiles_no_intermediate() {
    // Adjacent tiles: only 1 step, no intermediate tiles.
    let tiles: Vec<_> = LosRay::new(3, 3, 0, 4, 3, 0).collect();
    assert!(tiles.is_empty());
}

#[test]
fn ray_adjacent_tiles_with_endpoints() {
    let tiles: Vec<_> = LosRay::new(3, 3, 0, 4, 3, 0)
        .with_endpoints(true)
        .collect();
    assert_eq!(tiles, vec![(3, 3, 0), (4, 3, 0)]);
}

#[test]
fn ray_horizontal_skips_endpoints() {
    // Horizontal ray from (0,0) to (5,0) — 5 steps.
    // Without endpoints: tiles (1,0), (2,0), (3,0), (4,0).
    let tiles: Vec<_> = LosRay::new(0, 0, 10, 5, 0, 10).collect();
    let xs: Vec<u16> = tiles.iter().map(|t| t.0).collect();
    assert_eq!(xs, vec![1, 2, 3, 4]);
    // All at y=0, z=10.
    assert!(tiles.iter().all(|t| t.1 == 0 && t.2 == 10));
}

#[test]
fn ray_horizontal_with_endpoints() {
    let tiles: Vec<_> = LosRay::new(0, 0, 10, 5, 0, 10)
        .with_endpoints(true)
        .collect();
    let xs: Vec<u16> = tiles.iter().map(|t| t.0).collect();
    assert_eq!(xs, vec![0, 1, 2, 3, 4, 5]);
}

#[test]
fn ray_vertical_path() {
    let tiles: Vec<_> = LosRay::new(3, 0, 0, 3, 4, 0).collect();
    let ys: Vec<u16> = tiles.iter().map(|t| t.1).collect();
    assert_eq!(ys, vec![1, 2, 3]);
    assert!(tiles.iter().all(|t| t.0 == 3));
}

#[test]
fn ray_diagonal_path() {
    let tiles: Vec<_> = LosRay::new(0, 0, 0, 4, 4, 0).collect();
    // Perfect diagonal: steps == 4, intermediate = (1,1), (2,2), (3,3).
    assert_eq!(tiles, vec![(1, 1, 0), (2, 2, 0), (3, 3, 0)]);
}

#[test]
fn ray_diagonal_with_endpoints() {
    let tiles: Vec<_> = LosRay::new(0, 0, 0, 4, 4, 0)
        .with_endpoints(true)
        .collect();
    assert_eq!(
        tiles,
        vec![(0, 0, 0), (1, 1, 0), (2, 2, 0), (3, 3, 0), (4, 4, 0)]
    );
}

#[test]
fn ray_z_interpolation() {
    // Ray from z=0 to z=100 across 10 tiles.
    let tiles: Vec<_> = LosRay::new(0, 0, 0, 10, 0, 100).collect();
    // Intermediate tiles: x=1..9, z = 0 + 100*step/10.
    assert_eq!(tiles.len(), 9);
    for (i, &(x, y, z)) in tiles.iter().enumerate() {
        let step = i as i32 + 1;
        assert_eq!(x, step as u16);
        assert_eq!(y, 0);
        assert_eq!(z, (100 * step / 10) as i16);
    }
}

#[test]
fn ray_negative_direction() {
    // Ray going backwards: (5,5) → (0,5).
    let tiles: Vec<_> = LosRay::new(5, 5, 0, 0, 5, 0).collect();
    let xs: Vec<u16> = tiles.iter().map(|t| t.0).collect();
    assert_eq!(xs, vec![4, 3, 2, 1]);
}

#[test]
fn ray_count_matches_distance() {
    // Horizontal 10 tiles: 9 intermediate tiles.
    assert_eq!(LosRay::new(0, 0, 0, 10, 0, 0).count(), 9);
    // With endpoints: 11 tiles.
    assert_eq!(
        LosRay::new(0, 0, 0, 10, 0, 0).with_endpoints(true).count(),
        11,
    );
    // Same tile: 0 intermediate, 1 with endpoints.
    assert_eq!(LosRay::new(5, 5, 0, 5, 5, 0).count(), 0);
    assert_eq!(
        LosRay::new(5, 5, 0, 5, 5, 0).with_endpoints(true).count(),
        1,
    );
}

#[test]
fn ray_non_axis_aligned() {
    // Shallow angle: dx=6, dy=2 → X-dominant, 6 steps.
    let tiles: Vec<_> = LosRay::new(0, 0, 0, 6, 2, 0)
        .with_endpoints(true)
        .collect();
    // Should hit 7 tiles (steps 0..6).
    assert_eq!(tiles.len(), 7);
    // First and last tiles.
    assert_eq!(tiles[0], (0, 0, 0));
    assert_eq!(tiles[6], (6, 2, 0));
    // All x values monotonically increase.
    for i in 1..tiles.len() {
        assert!(tiles[i].0 > tiles[i - 1].0);
    }
}

// ── LosValidator tests (existing, via LosRay now) ────────────────

#[test]
fn same_tile_always_visible() {
    let provider = TestProvider::new();
    let los = LosValidator::new(&provider);
    assert!(los.has_los(10, 10, 0, 10, 10, 0));
}

#[test]
fn clear_path_no_obstacles() {
    let provider = TestProvider::new();
    let los = LosValidator::new(&provider);
    // Horizontal line, no tiles in the way.
    assert!(los.has_los(0, 0, 0, 10, 0, 0));
    // Diagonal.
    assert!(los.has_los(0, 0, 0, 5, 5, 0));
}

#[test]
fn wall_blocks_los() {
    let mut provider = TestProvider::new();

    // Place a NO_SHOOT wall at (5, 0) spanning z 0..20.
    provider.set(5, 0, vec![
        TileShape::Surface {
            z_base: 0,
            z_stand: 20,
            flags: TileFlags::NO_SHOOT | TileFlags::IMPASSABLE,
        },
    ]);

    let los = LosValidator::new(&provider);
    // Ray at z=10 through (5,0) — blocked.
    assert!(!los.has_los(0, 0, 10, 10, 0, 10));
}

#[test]
fn ray_over_wall_not_blocked() {
    let mut provider = TestProvider::new();

    // Wall at (5, 0) from z=0 to z=10.
    provider.set(5, 0, vec![
        TileShape::Surface {
            z_base: 0,
            z_stand: 10,
            flags: TileFlags::NO_SHOOT | TileFlags::IMPASSABLE,
        },
    ]);

    let los = LosValidator::new(&provider);
    // Ray at z=20 — above the wall, not blocked.
    assert!(los.has_los(0, 0, 20, 10, 0, 20));
}

#[test]
fn wall_with_window_does_not_block() {
    let mut provider = TestProvider::new();

    // WALL + IMPASSABLE + WINDOW — should not block LOS.
    provider.set(5, 0, vec![
        TileShape::Surface {
            z_base: 0,
            z_stand: 20,
            flags: TileFlags::WALL | TileFlags::IMPASSABLE | TileFlags::WINDOW,
        },
    ]);

    let los = LosValidator::new(&provider);
    assert!(los.has_los(0, 0, 10, 10, 0, 10));
}

#[test]
fn foliage_blocks_unless_transparent() {
    let mut provider = TestProvider::new();

    // Tree with NO_SHOOT + FOLIAGE.
    provider.set(3, 0, vec![
        TileShape::Surface {
            z_base: 0,
            z_stand: 15,
            flags: TileFlags::NO_SHOOT | TileFlags::FOLIAGE,
        },
    ]);

    // Without transparency — blocked.
    let los = LosValidator::new(&provider);
    assert!(!los.has_los(0, 0, 10, 6, 0, 10));

    // With FOLIAGE transparency — not blocked.
    let los = LosValidator::new(&provider)
        .with_transparent_mask(TileFlags::FOLIAGE);
    assert!(los.has_los(0, 0, 10, 6, 0, 10));
}

#[test]
fn start_and_end_tiles_not_checked() {
    let mut provider = TestProvider::new();

    // Place blockers at both start and end tiles.
    let wall = vec![TileShape::Surface {
        z_base: 0,
        z_stand: 20,
        flags: TileFlags::NO_SHOOT | TileFlags::IMPASSABLE,
    }];
    provider.set(0, 0, wall.clone());
    provider.set(3, 0, wall);

    let los = LosValidator::new(&provider);
    // Only intermediate tiles (1,0) and (2,0) are checked — they're
    // empty, so LOS passes.
    assert!(los.has_los(0, 0, 10, 3, 0, 10));
}

#[test]
fn background_does_not_block() {
    let mut provider = TestProvider::new();

    // Background shapes never block LOS regardless of Z.
    provider.set(5, 0, vec![
        TileShape::Background { z_base: 0, z_top: 100 },
    ]);

    let los = LosValidator::new(&provider);
    assert!(los.has_los(0, 0, 10, 10, 0, 10));
}

#[test]
fn diagonal_ray_checks_intermediate() {
    let mut provider = TestProvider::new();

    // Block (3, 3) — on the diagonal from (0,0) to (6,6).
    provider.set(3, 3, vec![
        TileShape::Surface {
            z_base: 0,
            z_stand: 20,
            flags: TileFlags::NO_SHOOT,
        },
    ]);

    let los = LosValidator::new(&provider);
    assert!(!los.has_los(0, 0, 10, 6, 6, 10));
}

#[test]
fn z_interpolation_misses_low_wall() {
    let mut provider = TestProvider::new();

    // Low wall at (5, 0) from z=0 to z=5.
    provider.set(5, 0, vec![
        TileShape::Surface {
            z_base: 0,
            z_stand: 5,
            flags: TileFlags::NO_SHOOT,
        },
    ]);

    let los = LosValidator::new(&provider);
    // Ray from z=0 at start to z=20 at end — at tile (5,0) the
    // interpolated Z is approximately 10, which is above the wall.
    assert!(los.has_los(0, 0, 0, 10, 0, 20));
}

#[test]
fn slope_blocks_within_z_range() {
    let mut provider = TestProvider::new();

    // Slope from z=5 to z=15 with NO_SHOOT.
    provider.set(5, 0, vec![
        TileShape::Slope {
            z_base: 5,
            z_stand: 10,
            z_top: 15,
            flags: TileFlags::NO_SHOOT,
        },
    ]);

    let los = LosValidator::new(&provider);
    // Ray at z=12 — inside [5, 15] → blocked.
    assert!(!los.has_los(0, 0, 12, 10, 0, 12));
    // Ray at z=20 — above → not blocked.
    assert!(los.has_los(0, 0, 20, 10, 0, 20));
    // Ray at z=2 — below → not blocked.
    assert!(los.has_los(0, 0, 2, 10, 0, 2));
}

// ── LosValidator::trace tests ────────────────────────────────────

#[test]
fn trace_clear_path() {
    let provider = TestProvider::new();
    let los = LosValidator::new(&provider);
    let trace = los.trace(0, 0, 10, 5, 0, 10);

    assert!(trace.has_los);
    assert!(trace.blockers.is_empty());
    // 5-step horizontal ray: 4 intermediate tiles.
    assert_eq!(trace.tiles.len(), 4);
    let xs: Vec<u16> = trace.tiles.iter().map(|t| t.0).collect();
    assert_eq!(xs, vec![1, 2, 3, 4]);
}

#[test]
fn trace_blocked_records_index() {
    let mut provider = TestProvider::new();

    // Wall at (3, 0)
    provider.set(3, 0, vec![
        TileShape::Surface {
            z_base: 0,
            z_stand: 20,
            flags: TileFlags::NO_SHOOT | TileFlags::IMPASSABLE,
        },
    ]);

    let los = LosValidator::new(&provider);
    let trace = los.trace(0, 0, 10, 6, 0, 10);

    assert!(!trace.has_los);
    // Intermediate tiles: 1,2,3,4,5 → first blocker at index 2 (tile x=3)
    assert_eq!(trace.first_blocker(), Some(2));
    assert_eq!(trace.tiles[2], (3, 0, 10));
    // All 5 intermediate tiles are collected (ray continues past blocker).
    assert_eq!(trace.tiles.len(), 5);
}

#[test]
fn trace_same_tile() {
    let provider = TestProvider::new();
    let los = LosValidator::new(&provider);
    let trace = los.trace(5, 5, 0, 5, 5, 0);

    assert!(trace.has_los);
    assert!(trace.tiles.is_empty());
    assert!(trace.blockers.is_empty());
}

#[test]
fn trace_consistent_with_has_los() {
    let mut provider = TestProvider::new();

    // Place a wall at (5, 0)
    provider.set(5, 0, vec![
        TileShape::Surface {
            z_base: 0,
            z_stand: 20,
            flags: TileFlags::NO_SHOOT,
        },
    ]);

    let los = LosValidator::new(&provider);

    // Blocked ray
    assert_eq!(
        los.trace(0, 0, 10, 10, 0, 10).has_los,
        los.has_los(0, 0, 10, 10, 0, 10),
    );

    // Clear ray (above the wall)
    assert_eq!(
        los.trace(0, 0, 30, 10, 0, 30).has_los,
        los.has_los(0, 0, 30, 10, 0, 30),
    );
}

#[test]
fn trace_tiles_beyond_blocker() {
    let mut provider = TestProvider::new();

    // Wall at (2, 0)
    provider.set(2, 0, vec![
        TileShape::Surface {
            z_base: 0,
            z_stand: 20,
            flags: TileFlags::NO_SHOOT,
        },
    ]);

    let los = LosValidator::new(&provider);
    let trace = los.trace(0, 0, 10, 8, 0, 10);

    // first blocker: tile (2, 0) is at index 1
    assert_eq!(trace.first_blocker(), Some(1));
    // Tiles beyond the blocker are still present.
    assert_eq!(trace.tiles.len(), 7); // tiles x=1..7
    // Tiles after index 1 are "beyond" tiles.
    assert!(trace.tiles.len() > trace.first_blocker().unwrap() + 1);
}

#[test]
fn trace_multiple_blockers() {
    let mut provider = TestProvider::new();

    // Two walls: at (2, 0) and (5, 0)
    let wall = vec![TileShape::Surface {
        z_base: 0,
        z_stand: 20,
        flags: TileFlags::NO_SHOOT,
    }];
    provider.set(2, 0, wall.clone());
    provider.set(5, 0, wall);

    let los = LosValidator::new(&provider);
    let trace = los.trace(0, 0, 10, 8, 0, 10);

    assert!(!trace.has_los);
    // Both walls recorded as blockers.
    assert_eq!(trace.blockers.len(), 2);
    // First blocker at index 1 (tile x=2), second at index 4 (tile x=5).
    assert_eq!(trace.tiles[trace.blockers[0]], (2, 0, 10));
    assert_eq!(trace.tiles[trace.blockers[1]], (5, 0, 10));
}

#[test]
fn masks_say_what_stops_sight() {
    let mut provider = TestProvider::new();
    provider.set(5, 0, vec![
        TileShape::Surface { z_base: 0, z_stand: 20, flags: TileFlags::WET },
    ]);
    assert!(LosValidator::new(&provider).has_los(0, 0, 10, 10, 0, 10));
    let wet = LosValidator::new(&provider).with_blocking_mask(TileFlags::WET);
    assert!(!wet.has_los(0, 0, 10, 10, 0, 10));
    let exempt = LosValidator::new(&provider)
        .with_blocking_mask(TileFlags::WET)
        .with_exempt_mask(TileFlags::WET);
    assert!(exempt.has_los(0, 0, 10, 10, 0, 10));
}

#[test]
fn rays_hint_at_their_length() {
    let mut ray = LosRay::new(0, 0, 0, 4, 0, 0);
    assert!(ray.size_hint().1.unwrap() >= 3);
    assert_eq!(ray.next(), Some((1, 0, 0)));
    assert_eq!(ray.next(), Some((2, 0, 0)));
    assert_eq!(ray.next(), Some((3, 0, 0)));
    assert_eq!(ray.next(), None);
}

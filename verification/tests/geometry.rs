//! Places, areas, heights and shapes.

use std::collections::HashMap;

use framework::coords::{BlockKey, Facing, Heading, MobilePos, Pos3D};
use framework::ecumene::diff_overlay::{DiffOverlay, MapDiffData, StaticDiffData};
use framework::ecumene::diff_provider::DiffAwareDataProvider;
use framework::ecumene::land_z::{compute_land_z_range, compute_land_z_stand};
use framework::ecumene::multi_def::{MultiDef, MultiExtent, PartEntry};
use framework::ecumene::multi_spatial::{BBoxSpatialIndex, BlockSpatialIndex, SpatialIndex};
use framework::ecumene::snapshot::CollisionSnapshot;
use framework::ecumene::static_provider::StaticTileProvider;
use framework::ecumene::static_world_data::{MapData, StaticData, StaticWorldData, WorldFiles};
use framework::ecumene::tile_block::TileBlock;
use framework::ecumene::tile_provider::{sort_stack, TileProvider};
use framework::ecumene::tile_rect::TileRect;
use framework::vessel::static_data::{
    MapBlock, MapTile, MultiPart, StaticDataProvider, StaticTile, TileShaper,
};
use framework::vessel::tile_shape::{TileFlags, TileShape};

/// Land is a slope, objects are surfaces as high as their graphic says.
struct Shaper;

impl TileShaper for Shaper {
    fn land_form(&self, _a: i8, _b: i8, _c: i8, _id: u16) -> TileShape {
        unreachable!()
    }

    fn static_form(&self, _z: i8, _id: u16) -> Option<TileShape> {
        unreachable!()
    }

    fn land_shape(&self, z_base: i8, z_stand: i8, z_top: i8, _tile_id: u16) -> TileShape {
        TileShape::Slope { z_base, z_stand, z_top, flags: 0 }
    }

    fn static_shape(&self, z: i8, tile_id: u16) -> Option<TileShape> {
        if tile_id == 0 {
            None
        } else {
            Some(TileShape::Surface { z_base: z, z_stand: z + tile_id as i8, flags: 0 })
        }
    }
}

fn flat_block(z: i8) -> MapBlock {
    MapBlock { cells: vec![MapTile { tile_id: 3, z }; 64] }
}

/// A map of two by one blocks: the western one at height 0, the eastern one at 10.
fn world_data() -> StaticWorldData<Shaper> {
    let files = WorldFiles {
        map: MapData { x_blocks: 2, y_blocks: 1, blocks: vec![flat_block(0), flat_block(10)] },
        statics: StaticData {
            blocks: vec![vec![StaticTile { tile_id: 5, x: 2, y: 3, z: 1, hue: 0 }], vec![]],
        },
    };
    let mut multis = HashMap::new();
    multis.insert(7, vec![MultiPart { tile_id: 1, x: 0, y: 1, z: 2, flags: 1 }]);
    StaticWorldData::from_files(
        Shaper,
        multis,
        vec![Some(files), None, None, None, None, None],
        vec![Some((7168, 4096)), Some((7168, 4096)), None, None, None, None],
    )
}

#[test]
fn headings_turn_and_point() {
    assert_eq!(Heading::North.delta(), (0, -1));
    assert_eq!(Heading::SouthWest.delta(), (-1, 1));
    assert_eq!(Heading::North.turn(-1), Heading::NorthWest);
    assert_eq!(Heading::from_index(9), Heading::NorthEast);
    assert!(Heading::NorthEast.is_diagonal());
    assert!(!Heading::East.is_diagonal());
    assert_eq!(Facing::new(0x83).heading(), Heading::SouthEast);
    assert!(Facing::new(0x83).is_running());
    assert!(!Facing::from_heading(Heading::SouthEast).is_running());
}

#[test]
fn block_keys_pack_and_unpack() {
    let key = BlockKey::from_tile(1234, 777);
    assert_eq!(key, BlockKey::new(154, 97));
    assert_eq!(key.origin(), (1232, 776));
    assert_eq!(BlockKey::unpack(key.pack()), key);
    assert_ne!(BlockKey::new(1, 0).pack(), BlockKey::new(0, 1).pack());
}

#[test]
fn view_rectangles_stop_at_the_edges_of_the_map() {
    let r = TileRect::from_view(5, 65530, 18);
    assert_eq!((r.x_min, r.x_max, r.y_min, r.y_max), (0, 23, 65512, 65535));
    assert!(r.contains_xy(0, 65535));
    assert!(!r.contains_xy(24, 65535));
    assert!(r.contains_pos(&Pos3D::new(23, 65512, -5)));
    assert!(TileRect::point(3, 4).contains_xy(3, 4));
}

#[test]
fn rectangles_overlap_in_a_shared_tile() {
    let a = TileRect { x_min: 0, y_min: 0, x_max: 5, y_max: 5 };
    let b = TileRect { x_min: 5, y_min: 5, x_max: 9, y_max: 9 };
    let c = TileRect { x_min: 6, y_min: 0, x_max: 9, y_max: 9 };
    assert!(a.overlaps(&b));
    assert_eq!(a.intersection(&b), Some(TileRect::point(5, 5)));
    assert!(!a.overlaps(&c));
    assert_eq!(a.intersection(&c), None);
}

#[test]
fn difference_covers_what_is_left_once() {
    let a = TileRect { x_min: 0, y_min: 0, x_max: 9, y_max: 9 };
    let b = TileRect { x_min: 3, y_min: 3, x_max: 5, y_max: 5 };
    let strips = a.difference(&b);
    for x in 0..12 {
        for y in 0..12 {
            let n = strips.iter().filter(|s| s.contains_xy(x, y)).count();
            let wanted = a.contains_xy(x, y) && !b.contains_xy(x, y);
            assert_eq!(n, wanted as usize);
        }
    }
    let apart = TileRect { x_min: 50, y_min: 50, x_max: 51, y_max: 51 };
    assert_eq!(a.difference(&apart), vec![a]);
    assert!(b.difference(&a).is_empty());
}

#[test]
fn land_heights_from_corners() {
    // The pair left and right differs less, so its mean is stood on.
    assert_eq!(compute_land_z_stand(0, 10, 2, 4, Heading::NorthEast), (0, 1, 10));
    // Towards the south-west the corner is at 4.
    assert_eq!(compute_land_z_stand(0, 10, 2, 4, Heading::SouthWest), (0, 1, 4));
    // Below zero the mean of a pair is rounded down.
    assert_eq!(compute_land_z_stand(-1, -1, -2, -2, Heading::North).1, -2);
    // The mean of all four corners is rounded towards zero.
    assert_eq!(compute_land_z_range(-1, -1, -1, 0), (-1, -1, 0));
    assert_eq!(compute_land_z_range(7, 7, 7, 7), (7, 7, 7));
}

#[test]
fn tile_blocks_hold_stacks_row_by_row() {
    let mut b = TileBlock::empty(BlockKey::new(1, 2));
    assert_eq!(b.total_shapes(), 0);
    b.tile_stack_mut(3, 1).push(TileShape::cap());
    b.tile_stack_mut(7, 7).push(TileShape::cap());
    assert_eq!(b.tile_stack(3, 1), &[TileShape::cap()]);
    assert_eq!(b.total_shapes(), 2);
    let cells = b.iter();
    assert_eq!(cells.len(), 64);
    assert_eq!((cells[11].0, cells[11].1, cells[11].2.len()), (3, 1, 1));
    assert_eq!((cells[63].0, cells[63].1, cells[63].2.len()), (7, 7, 1));
}

#[test]
fn stacks_are_sorted_by_base_and_keep_the_order_of_equals() {
    let low = TileShape::Surface { z_base: 0, z_stand: 5, flags: 1 };
    let equal = TileShape::Surface { z_base: 0, z_stand: 5, flags: 2 };
    let high = TileShape::Surface { z_base: 3, z_stand: 4, flags: 3 };
    let mut s = vec![high, low, equal];
    sort_stack(&mut s);
    assert_eq!(s, vec![low, equal, high]);
}

#[test]
fn removing_shapes_undoes_adding_them() {
    let mut c = CollisionSnapshot::new();
    assert!(c.get_dynamic_shapes(9, 9).is_none());
    let own = TileShape::Surface { z_base: 0, z_stand: 1, flags: 0 };
    let other = TileShape::Surface { z_base: 5, z_stand: 6, flags: 0 };
    c.add_shape(9, 9, 1, own);
    c.add_shape(9, 9, 2, other);
    assert_eq!(c.get_dynamic_shapes(9, 9).unwrap().len(), 2);
    assert!(c.get_path_block(BlockKey::new(1, 1)).is_some());
    c.remove_entity_shapes(9, 9, 1);
    assert_eq!(c.get_dynamic_shapes(9, 9), Some(vec![other]));
    c.remove_entity_shapes(9, 9, 2);
    assert!(c.get_dynamic_shapes(9, 9).is_none());
    assert!(c.get_path_block(BlockKey::new(1, 1)).is_none());
}

#[test]
fn multi_definitions_know_their_parts_and_extent() {
    let part = |tile_id, x, y, z| MultiPart { tile_id, x, y, z, flags: 1 };
    let d = MultiDef::from_parts(&[part(1, -2, 0, 0), part(2, 3, 4, 7), part(3, 3, 4, 9)]);
    assert_eq!(d.extent, MultiExtent { x_min: -2, x_max: 3, y_min: 0, y_max: 4 });
    assert_eq!(
        d.parts_at(3, 4),
        &[PartEntry { tile_id: 2, z: 7 }, PartEntry { tile_id: 3, z: 9 }]
    );
    assert!(d.parts_at(0, 0).is_empty());
    assert!(d.extent.contains(0, 0));
    assert!(!d.contains(9, 9));
    assert_eq!((d.tile_count(), d.part_count()), (2, 3));
    let hidden = MultiPart { flags: 0, ..part(4, 5, 5, 0) };
    let twice = MultiDef::from_parts(&[part(1, 0, 0, 0), hidden, part(1, 0, 0, 0), part(2, 1, 0, 0)]);
    assert_eq!((twice.tile_count(), twice.part_count()), (2, 3));
    let unseen = MultiDef::from_parts(&[hidden]);
    assert_eq!((unseen.tile_count(), unseen.part_count()), (0, 0));
    let nothing = MultiDef::from_parts(&[]);
    assert_eq!(nothing.extent, MultiExtent::default());
}

fn index_round_trip<S: SpatialIndex>(mut s: S) {
    let near = TileRect { x_min: 0, y_min: 0, x_max: 3, y_max: 3 };
    let far = TileRect { x_min: 100, y_min: 100, x_max: 120, y_max: 101 };
    assert!(s.is_empty());
    s.insert(5, near);
    s.insert(6, far);
    assert!(s.has(5));
    assert_eq!(s.query_point(2, 2), vec![5]);
    assert_eq!(s.query_rect(&TileRect { x_min: 110, y_min: 90, x_max: 111, y_max: 110 }), vec![6]);
    s.remove(5);
    s.insert(5, far);
    assert!(s.query_point(2, 2).is_empty());
    s.remove(6);
    assert!(!s.has(6));
    assert_eq!(s.query_point(100, 100), vec![5]);
    s.clear();
    assert!(s.is_empty());
}

#[test]
fn spatial_indices_find_what_was_inserted() {
    index_round_trip(BlockSpatialIndex::new());
    index_round_trip(BBoxSpatialIndex::new());
}

#[test]
fn world_files_wrap_around() {
    let d = world_data();
    assert_eq!(d.land_vertex_z(0, 0, 0), Some(0));
    assert_eq!(d.land_vertex_z(0, 8, 0), Some(10));
    // The map is sixteen tiles wide and eight high.
    assert_eq!(d.land_vertex_z(0, 16, 8), Some(0));
    assert_eq!(d.land_vertex_z(1, 0, 0), None);
    assert_eq!(d.statics_at(0, 2, 3).unwrap().len(), 1);
    assert_eq!(d.statics_at(0, 18, 11).unwrap().len(), 1);
    assert!(d.statics_at(0, 3, 3).unwrap().is_empty());
    assert_eq!(d.multi_parts(7).len(), 1);
    assert!(d.multi_parts(8).is_empty());
    assert!(d.land_block_at(0, BlockKey::new(1, 0)).is_some());
    assert!(d.land_block_at(0, BlockKey::new(2, 0)).is_none());
    assert_eq!(d.map_tile_dimensions(0), Some((16, 8)));
}

#[test]
fn map_slopes_where_blocks_meet() {
    let d = world_data();
    // Between the blocks the eastern corners are at 10.
    let (base, _, top) = d.land_tile_z_stand(0, 7, 2, Heading::East).unwrap();
    assert_eq!((base, top), (0, 10));
    assert_eq!(d.land_tile_z_range(0, 3, 3), Some((0, 0, 0)));
}

#[test]
fn tile_stacks_hold_land_and_objects() {
    let d = world_data();
    let p = StaticTileProvider::new(Some(&d), 0);
    assert_eq!(
        p.query_tile_stack(2, 3, Heading::North),
        vec![
            TileShape::Slope { z_base: 0, z_stand: 0, z_top: 0, flags: 0 },
            TileShape::Surface { z_base: 1, z_stand: 6, flags: 0 },
        ]
    );
    let block = p.query_block(BlockKey::new(0, 0));
    assert_eq!(block.tile_stack(2, 3), p.query_tile_stack(2, 3, Heading::North));
    let nothing: StaticTileProvider<StaticWorldData<Shaper>> = StaticTileProvider::new(None, 0);
    assert!(nothing.query_tile_stack(2, 3, Heading::North).is_empty());
}

#[test]
fn patches_replace_blocks() {
    let d = world_data();
    let mut overlay = DiffOverlay::new();
    assert!(overlay.is_empty());
    let plain = DiffAwareDataProvider::new(&d, &overlay, 0);
    assert!(!plain.has_diffs());
    assert_eq!(plain.land_tile_at(1, 1), d.land_tile_at(0, 1, 1));

    let mut land = HashMap::new();
    land.insert(0, flat_block(42));
    let mut objects = HashMap::new();
    objects.insert(0, vec![StaticTile { tile_id: 9, x: 1, y: 1, z: 0, hue: 0 }]);
    overlay.apply(0, MapDiffData { blocks: land }, StaticDiffData { blocks: objects });
    assert!(!overlay.is_empty());
    let p = DiffAwareDataProvider::new(&d, &overlay, 0);
    assert!(p.has_diffs());
    assert_eq!(p.land_tile_at(1, 1).unwrap().z, 42);
    assert_eq!(p.land_tile_at(9, 1).unwrap().z, 10);
    assert_eq!(p.statics_at(1, 1).unwrap()[0].tile_id, 9);
    assert!(p.statics_at(2, 3).unwrap().is_empty());
    let tiles = StaticTileProvider::with_diff(Some(&d), 0, Some(&overlay));
    assert_eq!(tiles.query_tile_stack(1, 1, Heading::North).len(), 2);

    overlay.clear_world(0);
    assert!(overlay.is_empty());
}

#[test]
fn patches_are_loaded_for_worlds_that_have_some() {
    let mut overlay = DiffOverlay::default();
    let mut land = HashMap::new();
    land.insert(3, flat_block(1));
    let loaded = vec![
        None,
        Some((MapDiffData { blocks: land }, StaticDiffData { blocks: HashMap::new() })),
    ];
    overlay.load_and_apply(&vec![(0, 0), (1, 0)], loaded);
    assert!(overlay.map_diff(0).is_none());
    assert!(overlay.map_diff(1).unwrap().get(3).is_some());
    overlay.clear();
    assert!(overlay.map_diff(1).is_none());
}

#[test]
fn sight_masks_are_asked_in_order() {
    let wall = TileShape::Surface {
        z_base: 0,
        z_stand: 20,
        flags: TileFlags::WALL | TileFlags::FOLIAGE,
    };
    assert!(wall.blocks_los_with(0));
    assert!(!wall.blocks_los_with(TileFlags::FOLIAGE));
    assert!(!wall.blocks_los_masked(TileFlags::WALL, TileFlags::FOLIAGE, 0));
    assert!(!wall.blocks_los_masked(TileFlags::WET, 0, 0));
    assert!(wall.is_passable_with(0));
    let rock = TileShape::Surface { z_base: 0, z_stand: 1, flags: TileFlags::IMPASSABLE };
    assert!(!rock.is_passable_with(0));
    assert!(rock.is_passable_with(TileFlags::IMPASSABLE));
}

#[test]
fn rectangles_contain_mobiles() {
    let r = TileRect { x_min: 1, y_min: 1, x_max: 3, y_max: 3 };
    let at = |x, y| MobilePos { x, y, z: 0, facing: Facing::new(0) };
    assert!(r.contains_mpos(&at(3, 1)));
    assert!(!r.contains_mpos(&at(4, 1)));
}

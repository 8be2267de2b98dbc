//! What a client is shown, and what is remembered of it.

use std::sync::Arc;

use framework::coords::{BlockKey, Heading};
use framework::diorama::bootstrap::{generate_bootstrap, BootstrapPacket};
use framework::diorama::composite_tiles::CompositeTileProvider;
use framework::diorama::container_packets::{
    container_item_from_add, container_items_from_content,
};
use framework::diorama::observer_event::{event_of, ObserverEvent};
use framework::diorama::pipeline::{DrainReason, ObserverPipeline};
use framework::diorama::session_view::{SessionRequest, SessionView};
use framework::diorama::staleness::StalenessTracker;
use framework::diorama::visible_world::{VisibleKind, VisibleWorld};
use framework::ecumene::entity_registry::{CacheMode, StalenessConfig};
use framework::ecumene::shape_provider::ShapeProvider;
use framework::ecumene::static_world_data::{MapData, StaticData, StaticWorldData, WorldFiles};
use framework::ecumene::tile_provider::TileProvider;
use framework::ecumene::tile_rect::TileRect;
use framework::packets::{
    read_be16, read_be32, read_drawn_container, AddItemToContainer, CharacterLocaleAndBody,
    ClientPacket, ContainerContent, DrawGamePlayer, DrawMobile, EquipItem, EquippedItem,
    GeneralInfo, HouseTile, LegacyContentItem, MapDiffEntry, ModernContentItem, MoveAck, MoveReject,
    MoveRequest, ObjectDataType, ObjectInfo, ObjectInfoSA, SendCustomHouse, ServerPacket,
    UpdateMobile,
};
use framework::time::{Duration, Moment};
use framework::vessel::static_data::{MapBlock, MapTile, MultiPart, TileShaper};
use framework::vessel::tile_shape::TileShape;

struct Shaper;

impl TileShaper for Shaper {
    fn land_form(&self, _a: i8, _b: i8, _c: i8, _id: u16) -> TileShape {
        unreachable!()
    }

    fn static_form(&self, _z: i8, _id: u16) -> Option<TileShape> {
        unreachable!()
    }

    fn land_shape(&self, z_base: i8, z_stand: i8, z_top: i8, _tile_id: u16) -> TileShape {
        TileShape::Slope { z_base, z_stand, z_top, flags: 0 }
    }

    fn static_shape(&self, z: i8, tile_id: u16) -> Option<TileShape> {
        if tile_id == 0 {
            None
        } else {
            Some(TileShape::Surface { z_base: z, z_stand: z, flags: tile_id as u64 })
        }
    }
}

type Data = StaticWorldData<Shaper>;

/// A level map of thirty-two by thirty-two tiles, with a multi-object 7 of two tiles.
fn world_data() -> Arc<Data> {
    let block = || MapBlock { cells: vec![MapTile { tile_id: 3, z: 0 }; 64] };
    let files = WorldFiles {
        map: MapData { x_blocks: 4, y_blocks: 4, blocks: (0..16).map(|_| block()).collect() },
        statics: StaticData { blocks: vec![vec![]; 16] },
    };
    let mut multis = std::collections::HashMap::new();
    multis.insert(
        7,
        vec![
            MultiPart { tile_id: 100, x: 0, y: 0, z: 0, flags: 1 },
            MultiPart { tile_id: 101, x: 1, y: 0, z: 3, flags: 1 },
        ],
    );
    Arc::new(StaticWorldData::from_files(
        Shaper,
        multis,
        vec![Some(files), None, None, None, None, None],
        vec![None; 6],
    ))
}

fn item(serial: u32, x: u16, y: u16) -> ObjectInfo {
    ObjectInfo {
        object_id: serial,
        graphic: 50,
        multi: None,
        amount: Some(3),
        x,
        y,
        z: 0,
        direction: None,
        dye: None,
        flags: None,
    }
}

fn multi(serial: u32, x: u16, y: u16) -> ObjectInfo {
    ObjectInfo { graphic: 0x4007, multi: Some(7), ..item(serial, x, y) }
}

fn mobile(serial: u32, x: u16, y: u16, items: Vec<EquippedItem>) -> DrawMobile {
    DrawMobile {
        serial,
        graphic: 400,
        x,
        y,
        z: 0,
        direction: 0,
        color: 1,
        status: 0,
        notoriety: 1,
        items,
    }
}

fn worn(serial: u32, layer: u8) -> EquippedItem {
    EquippedItem { serial, graphic: 60, layer, color: None }
}

#[test]
fn visible_objects_come_and_go() {
    let mut w = VisibleWorld::new(10, 10, 5);
    assert!(w.is_empty());
    w.upsert_object_info(&item(0x4000_0001, 12, 12));
    w.upsert_object_info(&multi(0x4000_0002, 9, 9));
    w.upsert_draw_mobile(&mobile(5, 10, 11, vec![worn(0x4000_0003, 1)]));
    assert_eq!(w.len(), 3);
    assert_eq!(w.get(0x4000_0001).unwrap().kind(), VisibleKind::Item);
    assert_eq!(w.get(0x4000_0002).unwrap().graphic(), 7);
    assert!(w.get(5).unwrap().is_mobile());
    // What is worn is found through its wearer.
    assert_eq!(w.lookup_serial(0x4000_0003), Some(5));
    assert_eq!(w.lookup_serial(0x4000_0001), Some(0x4000_0001));
    assert_eq!(w.lookup_serial(77), None);
    assert_eq!(w.items_at(12, 12).len(), 1);
    assert_eq!(w.items_in_block(BlockKey::new(1, 1)).len(), 3);
    w.remove(5);
    assert!(w.get(5).is_none());
    assert_eq!(w.lookup_serial(0x4000_0003), None);
}

#[test]
fn equipment_replaces_what_was_worn_on_its_layer() {
    let mut w = VisibleWorld::new(10, 10, 5);
    w.upsert_draw_mobile(&mobile(5, 10, 11, vec![worn(0x4000_0003, 1)]));
    assert!(!w.is_mounted(5));
    w.apply_equip_item(&EquipItem {
        item_serial: 0x4000_0009,
        graphic: 61,
        layer: 1,
        player_serial: 5,
        color: 2,
    });
    assert_eq!(w.lookup_serial(0x4000_0009), Some(5));
    assert_eq!(w.lookup_serial(0x4000_0003), None);
    w.apply_equip_item(&EquipItem {
        item_serial: 0x4000_000A,
        graphic: 62,
        layer: 0x19,
        player_serial: 5,
        color: 0,
    });
    assert!(w.is_mounted(5));
    w.remove(0x4000_000A);
    assert!(!w.is_mounted(5));
}

#[test]
fn moving_the_view_drops_what_is_left_behind() {
    let mut w = VisibleWorld::new(10, 10, 5);
    w.upsert_object_info(&item(1, 6, 10));
    w.upsert_object_info(&item(2, 14, 10));
    let strips = w.update_view(14, 10);
    assert!(w.get(1).is_none());
    assert!(w.get(2).is_some());
    assert_eq!(strips.len(), 1);
    assert_eq!((strips[0].x_min, strips[0].x_max), (16, 19));
    assert_eq!(w.view_rect().x_min, 9);
    w.set_view_range(2);
    assert_eq!(w.view_range(), 2);
}

#[test]
fn mobiles_are_updated_in_place() {
    let mut w = VisibleWorld::new(10, 10, 5);
    w.upsert_draw_mobile(&mobile(5, 10, 11, vec![worn(0x4000_0003, 1)]));
    w.apply_update_mobile(&UpdateMobile {
        serial: 5,
        model: 401,
        x: 11,
        y: 12,
        z: 1,
        direction: 4,
        hue: 9,
        status_flags: 0,
        notoriety: 2,
    });
    let e = w.get(5).unwrap();
    assert_eq!((e.x(), e.y(), e.z(), e.graphic()), (11, 12, 1, 401));
    assert_eq!(w.lookup_serial(0x4000_0003), Some(5));
}

fn content(serial: u32) -> LegacyContentItem {
    LegacyContentItem {
        serial,
        graphic: 70,
        amount: 1,
        x: 2,
        y: 3,
        color: 4,
        container_serial: 0x4000_0020,
    }
}

#[test]
fn containers_are_opened_filled_and_emptied() {
    let mut s: SessionView<Data> = SessionView::new(10, 10, 5);
    // A container is drawn: its serial and its gump.
    let drawn = [0x24, 0x40, 0, 0, 0x20, 0, 0x3C, 0, 0];
    s.ingest_packet(&drawn, &ServerPacket::Opaque);
    assert_eq!(s.visible.containers().get(0x4000_0020).unwrap().gump_model(), 0x3C);
    s.ingest_packet(
        &[0x3C],
        &ServerPacket::ContainerContent(ContainerContent::Legacy(vec![content(8), content(9)])),
    );
    let c = s.visible.containers().get(0x4000_0020).unwrap();
    assert_eq!(c.item_serials(), vec![8, 9]);
    let add = AddItemToContainer {
        serial: 8,
        graphic: 71,
        amount: 2,
        x: 0,
        y: 0,
        color: 0,
        container_serial: 0x4000_0021,
        grid_index: Some(1),
    };
    s.ingest_packet(&[0x25], &ServerPacket::AddItemToContainer(add));
    assert_eq!(s.visible.containers().get(0x4000_0020).unwrap().item_serials(), vec![9]);
    assert_eq!(s.visible.containers().get(0x4000_0021).unwrap().item_serials(), vec![8]);
    s.ingest_packet(&[0x1D], &ServerPacket::DeleteObject { serial: 9 });
    assert_eq!(s.visible.containers().get(0x4000_0020).unwrap().item_count(), 0);
}

#[test]
fn container_packets_become_items() {
    let legacy = ContainerContent::Legacy(vec![content(8)]);
    assert_eq!(legacy.container_serial(), Some(0x4000_0020));
    assert_eq!(container_items_from_content(&legacy)[0].grid_index, None);
    let modern = ContainerContent::Modern(vec![ModernContentItem {
        serial: 8,
        graphic: 70,
        amount: 1,
        x: 2,
        y: 3,
        grid_index: 6,
        color: 4,
        container_serial: 1,
    }]);
    let items = container_items_from_content(&modern);
    assert_eq!((items[0].serial, items[0].grid_index, items[0].color), (8, Some(6), 4));
    assert_eq!(ContainerContent::Modern(vec![]).container_serial(), None);
    let add = AddItemToContainer {
        serial: 1,
        graphic: 2,
        amount: 3,
        x: 4,
        y: 5,
        color: 6,
        container_serial: 7,
        grid_index: None,
    };
    let one = container_item_from_add(&add);
    assert_eq!((one.serial, one.graphic, one.amount, one.x, one.y, one.color), (1, 2, 3, 4, 5, 6));
}

#[test]
fn numbers_of_packets_are_big_endian() {
    let data = [1, 2, 3, 4, 5];
    assert_eq!(read_be16(&data, 1), 0x0203);
    assert_eq!(read_be32(&data, 1), 0x0203_0405);
    assert_eq!(read_drawn_container(&[0x24, 0, 0, 0, 9, 0x12, 0x34]), Some((9, 0x1234)));
    // Without a whole gump it is zero.
    assert_eq!(read_drawn_container(&[0x24, 0, 0, 0, 9, 0x12]), Some((9, 0)));
    assert_eq!(read_drawn_container(&[0x24, 0, 0, 0]), None);
}

#[test]
fn what_is_seen_is_remembered_until_it_is_deleted() {
    let mut s = SessionView::with_static_data(10, 10, 18, world_data());
    s.registry.set_cache_mode(CacheMode::All);
    s.ingest_packet(&[0x1A], &ServerPacket::ObjectInfo(multi(0x4000_0002, 9, 9)));
    assert!(s.registry.get(0x4000_0002).is_some());
    // Its two parts are in the way.
    assert_eq!(
        s.registry.get_shapes_at(9, 9),
        vec![TileShape::Surface { z_base: 0, z_stand: 0, flags: 100 }]
    );
    assert_eq!(
        s.registry.get_shapes_at(10, 9),
        vec![TileShape::Surface { z_base: 3, z_stand: 3, flags: 101 }]
    );
    // Out of sight it is still remembered.
    s.update_view(60, 60);
    assert!(s.visible.get(0x4000_0002).is_none());
    assert!(s.registry.get(0x4000_0002).is_some());
    assert_eq!(s.registry.get_shapes_at(9, 9).len(), 1);
    assert_eq!(s.registry.get_shapes_at(10, 9).len(), 1);
    assert!(s.registry.has_multi_at(10, 9));
    assert!(!s.registry.has_multi_at(10, 10));
    s.ingest_packet(&[0x1D], &ServerPacket::DeleteObject { serial: 0x4000_0002 });
    assert!(s.registry.get(0x4000_0002).is_none());
    assert!(s.registry.get_shapes_at(9, 9).is_empty());
}

#[test]
fn packet_lists_bring_all_their_objects() {
    let sa = |serial, data_type| ObjectInfoSA {
        data_type,
        serial,
        graphic: 50,
        direction: 0,
        amount: 1,
        x: 10,
        y: 10,
        z: 0,
        layer: 0,
        hue: 0,
        flags: 0,
    };
    let mut s: SessionView<Data> = SessionView::new(10, 10, 18);
    s.ingest_packet(
        &[0xF7],
        &ServerPacket::PacketList(vec![
            sa(0x4000_0001, ObjectDataType::Item),
            sa(0x4000_0002, ObjectDataType::Multi),
        ]),
    );
    assert_eq!(s.visible.len(), 2);
    assert!(s.visible.get(0x4000_0002).unwrap().is_multi());
}

#[test]
fn changing_maps_and_loading_patches() {
    let mut s = SessionView::with_data_dir(10, 10, 18, world_data(), "maps".to_string());
    assert_eq!(s.data_dir().unwrap(), "maps");
    let request = s.ingest_packet(
        &[0xBF, 1, 2],
        &ServerPacket::GeneralInfo(GeneralInfo::EnableMapDiff {
            maps: vec![MapDiffEntry { map_patches: 4, static_patches: 2 }],
        }),
    );
    match request {
        SessionRequest::LoadDiffs { entries } => {
            assert_eq!(entries.len(), 1);
            assert!(entries[0] == (4, 2) || entries[0] == (2, 4));
        }
        _ => panic!("patches are to be loaded"),
    }
    // The packet is kept as it came.
    assert_eq!(&s.last_enable_map_diff.as_ref().unwrap()[..], &[0xBF, 1, 2]);
    s.ingest_packet(&[0x1A], &ServerPacket::ObjectInfo(item(0x4000_0001, 10, 10)));
    s.ingest_packet(&[0xBF], &ServerPacket::GeneralInfo(GeneralInfo::SetMap { world: 1 }));
    assert_eq!(s.current_world, 1);
    assert!(s.visible.is_empty());
}

#[test]
fn houses_of_players_are_unpacked_on_their_foundation() {
    let mut s = SessionView::with_static_data(10, 10, 18, world_data());
    s.ingest_packet(&[0x1A], &ServerPacket::ObjectInfo(multi(0x4000_0002, 9, 9)));
    let house = SendCustomHouse { house_serial: 0x4000_0002, revision: 1 };
    match s.ingest_packet(&[0xD8], &ServerPacket::SendCustomHouse(house)) {
        SessionRequest::DecodeHouse { serial, world, x_min, y_min, x_max, y_max } => {
            assert_eq!((serial, world), (0x4000_0002, 0));
            assert_eq!((x_min, y_min, x_max, y_max), (0, 0, 1, 0));
        }
        _ => panic!("the house is to be unpacked"),
    }
    s.provide_house(
        0x4000_0002,
        0,
        Some(&vec![HouseTile { tile_id: 9, x: 2, y: 2, z: 5 }]),
    );
    // The foundation stays.
    assert_eq!(s.registry.get_shapes_at(9, 9).len(), 1);
    assert_eq!(
        s.registry.get_shapes_at(11, 11),
        vec![TileShape::Surface { z_base: 5, z_stand: 5, flags: 9 }]
    );
}

#[test]
fn stale_objects_are_swept() {
    let mut t = StalenessTracker::new(Duration::from_millis(100));
    assert!(!t.is_armed());
    t.arm_at(Moment { nanos: 0 });
    t.confirm_at(1, Moment { nanos: 50_000_000 });
    assert!(!t.should_sweep_at(Moment { nanos: 149_999_999 }));
    assert!(t.should_sweep_at(Moment { nanos: 150_000_000 }));
    assert_eq!(t.sweep(&vec![1, 2, 3]), vec![2, 3]);
    assert!(!t.is_armed());
    t.arm();
    t.confirm(4);
    assert!(t.is_armed());
    t.disarm();
    assert!(!t.should_sweep());

    let mut s = SessionView::with_static_data(10, 10, 18, world_data());
    s.registry.set_cache_mode(CacheMode::All);
    s.registry.set_staleness_config(StalenessConfig {
        items: true,
        multis: true,
        mobiles: true,
        threshold: Duration::from_millis(0),
    });
    s.ingest_packet(&[0x1A], &ServerPacket::ObjectInfo(item(0x4000_0001, 10, 10)));
    s.ingest_packet(&[0x1A], &ServerPacket::ObjectInfo(item(0x4000_0002, 11, 10)));
    s.registry.arm_staleness();
    s.registry.confirm(0x4000_0001);
    assert_eq!(s.registry.sweep_stale(s.visible.view_rect()), 1);
    assert!(s.registry.get(0x4000_0001).is_some());
    assert!(s.registry.get(0x4000_0002).is_none());
}

#[test]
fn sweeps_spare_the_designs_of_what_stays() {
    let mut s = SessionView::with_static_data(10, 10, 18, world_data());
    s.registry.set_staleness_config(StalenessConfig {
        threshold: Duration::from_millis(0),
        ..StalenessConfig::default()
    });
    let (stays, goes) = (0x4000_0002, 0x4000_0003);
    s.ingest_packet(&[0x1A], &ServerPacket::ObjectInfo(multi(stays, 9, 9)));
    s.ingest_packet(&[0x1A], &ServerPacket::ObjectInfo(multi(goes, 20, 9)));
    s.registry.add_custom(goes, &[MultiPart { tile_id: 8, x: 2, y: 2, z: 0, flags: 1 }], 0);
    s.registry.arm_staleness();
    assert!(s.registry.should_sweep());
    s.registry.confirm(stays);
    // What is provided ends in a sweep.
    s.provide_house(stays, 0, Some(&vec![HouseTile { tile_id: 9, x: 2, y: 2, z: 5 }]));
    assert!(s.registry.get(goes).is_none());
    assert!(s.registry.get_shapes_at(20, 9).is_empty());
    assert!(s.registry.get_shapes_at(22, 11).is_empty());
    assert_eq!(s.registry.get_shapes_at(9, 9).len(), 1);
    assert_eq!(
        s.registry.get_shapes_at(11, 11),
        vec![TileShape::Surface { z_base: 5, z_stand: 5, flags: 9 }]
    );
    assert!(s.registry.has_multi_at(11, 11));
    assert!(!s.registry.should_sweep());
    let rect = TileRect { x_min: 11, y_min: 11, x_max: 11, y_max: 11 };
    assert_eq!(s.registry.serials_in_rect(&rect), vec![stays]);
}

#[test]
fn new_map_data_brings_the_houses_in_view_back() {
    let mut s: SessionView<Data> = SessionView::new(10, 10, 18);
    s.ingest_packet(&[0x1A], &ServerPacket::ObjectInfo(multi(0x4000_0002, 9, 9)));
    assert!(s.registry.get_shapes_at(9, 9).is_empty());
    assert_eq!(s.registry.foundation_extent(0x4000_0002), None);
    s.set_static_data(Some(world_data()));
    assert_eq!(s.registry.get_shapes_at(9, 9).len(), 1);
    assert_eq!(s.registry.foundation_extent(0x4000_0002), Some((0, 0, 1, 0)));
    s.set_static_data(None);
    assert!(s.registry.get_shapes_at(9, 9).is_empty());
    assert_eq!(s.registry.cached_defs(), 0);
}

#[test]
fn stacks_hold_what_is_visible_too() {
    let data = world_data();
    let mut s = SessionView::with_static_data(10, 10, 18, data.clone());
    s.ingest_packet(&[0x1A], &ServerPacket::ObjectInfo(item(0x4000_0001, 12, 12)));
    let p = CompositeTileProvider::new(&*data, 0, &s.visible, &s.registry);
    let stack = p.query_tile_stack(12, 12, Heading::North);
    assert_eq!(stack.len(), 2);
    assert_eq!(stack[1], TileShape::Surface { z_base: 0, z_stand: 0, flags: 50 });
    assert_eq!(p.query_block(BlockKey::new(1, 1)).tile_stack(4, 4), &stack[..]);
    assert_eq!(p.query_tile_stack(13, 12, Heading::North).len(), 1);
}

fn locale() -> CharacterLocaleAndBody {
    CharacterLocaleAndBody {
        serial: 5,
        body_type: 400,
        x: 10,
        y: 10,
        z: 0,
        facing: 0,
        map_width_minus8: 0,
        map_height: 0,
    }
}

#[test]
fn steps_are_taken_when_they_are_accepted() {
    let mut p = ObserverPipeline::new(Some(world_data()));
    p.ingest_s2c(&[0x1B], &ServerPacket::CharacterLocaleAndBody(locale()));
    assert!(p.pos.is_ready());
    // Northwards, the way the player faces.
    p.ingest_c2s(&ClientPacket::MoveRequest(MoveRequest { direction: 0, sequence: 1 }));
    p.ingest_c2s(&ClientPacket::MoveRequest(MoveRequest { direction: 0, sequence: 2 }));
    assert_eq!(p.pending_moves().len(), 2);
    p.ingest_s2c(&[0x22], &ServerPacket::MoveAck(MoveAck { sequence: 1, notoriety: 0 }));
    assert_eq!((p.pos.x, p.pos.y), (10, 9));
    assert!(p.last_move_accepted);
    assert_eq!(p.pending_moves().len(), 1);
    // An answer out of order drops all steps.
    p.ingest_s2c(&[0x22], &ServerPacket::MoveAck(MoveAck { sequence: 9, notoriety: 0 }));
    assert_eq!(p.last_drain_reason, DrainReason::MoveAckDesync);
    assert_eq!(p.last_drain_count, 1);
    assert!(p.pending_moves().is_empty());
    p.ingest_c2s(&ClientPacket::MoveRequest(MoveRequest { direction: 0, sequence: 3 }));
    p.ingest_s2c(
        &[0x21],
        &ServerPacket::MoveReject(MoveReject { sequence: 3, x: 20, y: 21, direction: 2, z: 0 }),
    );
    assert_eq!((p.pos.x, p.pos.y), (20, 21));
    assert_eq!(p.last_drain_reason, DrainReason::MoveReject);
    assert!(!p.last_move_accepted);
    p.reset();
    assert!(!p.pos.is_ready());
}

#[test]
fn observers_hear_of_what_happens() {
    let mut p: ObserverPipeline<Data> = ObserverPipeline::new(None);
    p.ingest_s2c(&[0x1A], &ServerPacket::ObjectInfo(item(0x4000_0001, 10, 10)));
    p.ingest_s2c(&[0x1D], &ServerPacket::DeleteObject { serial: 0x4000_0001 });
    p.ingest_s2c(&[0x1D], &ServerPacket::DeleteObject { serial: 5 });
    let heard = p.drain_events();
    assert_eq!(heard.len(), 3);
    assert!(matches!(
        heard[0],
        ObserverEvent::ItemAppeared { serial: 0x4000_0001, x: 10, y: 10, count: 3, .. }
    ));
    assert!(matches!(heard[1], ObserverEvent::ItemRemoved { serial: 0x4000_0001 }));
    assert!(matches!(heard[2], ObserverEvent::MobileRemoved { serial: 5 }));
    assert!(p.drain_events().is_empty());
    assert!(matches!(
        event_of(&ServerPacket::SeasonalInformation { season: 2, play_sound: 1 }),
        Some(ObserverEvent::Season { season: 2, play_sound: true })
    ));
    assert!(event_of(&ServerPacket::Opaque).is_none());
}

#[test]
fn bootstrap_tells_all_that_is_visible() {
    let data = world_data();
    let mut p = ObserverPipeline::new(Some(data.clone()));
    p.ingest_s2c(&[0x1B], &ServerPacket::CharacterLocaleAndBody(locale()));
    p.ingest_s2c(&[0xB9, 7, 8], &ServerPacket::Opaque);
    p.ingest_s2c(&[0x1A], &ServerPacket::ObjectInfo(item(0x4000_0001, 10, 10)));
    p.ingest_s2c(&[0x78], &ServerPacket::DrawMobile(mobile(6, 11, 11, vec![])));
    let out = generate_bootstrap(&p, Some(&*data));
    assert!(matches!(out[0], BootstrapPacket::CharacterLocaleAndBody(c) if c.serial == 5));
    assert!(out.iter().any(|b| matches!(b, BootstrapPacket::Raw(r) if r[..] == [0xB9, 7, 8])));
    assert!(out
        .iter()
        .any(|b| matches!(b, BootstrapPacket::ObjectInfo(o) if o.object_id == 0x4000_0001)));
    assert!(out.iter().any(|b| matches!(b, BootstrapPacket::DrawMobile(m) if m.serial == 6)));
    assert!(matches!(out.last(), Some(BootstrapPacket::LoginComplete)));

    // One who is told so sees the same.
    let mut other: ObserverPipeline<Data> = ObserverPipeline::new(None);
    for b in &out {
        let packet = match b {
            BootstrapPacket::CharacterLocaleAndBody(c) => ServerPacket::CharacterLocaleAndBody(*c),
            BootstrapPacket::DrawGamePlayer(d) => ServerPacket::DrawGamePlayer(*d),
            BootstrapPacket::ObjectInfo(o) => ServerPacket::ObjectInfo(*o),
            BootstrapPacket::DrawMobile(m) => ServerPacket::DrawMobile(m.clone()),
            _ => continue,
        };
        other.ingest_s2c(&[0], &packet);
    }
    assert_eq!(other.session.visible.len(), p.session.visible.len());
    assert_eq!((other.pos.x, other.pos.y), (p.pos.x, p.pos.y));
}

#[test]
fn redrawn_players_are_where_the_server_says() {
    let mut p: ObserverPipeline<Data> = ObserverPipeline::new(None);
    p.ingest_s2c(&[0x1B], &ServerPacket::CharacterLocaleAndBody(locale()));
    p.ingest_c2s(&ClientPacket::MoveRequest(MoveRequest { direction: 0, sequence: 1 }));
    p.ingest_s2c(
        &[0x20],
        &ServerPacket::DrawGamePlayer(DrawGamePlayer {
            serial: 5,
            body_type: 400,
            hue: 0,
            flags: 0,
            x: 30,
            y: 31,
            z: 2,
            direction: 0,
        }),
    );
    assert_eq!((p.pos.x, p.pos.y, p.pos.z), (30, 31, 2));
    assert_eq!(p.last_drain_reason, DrainReason::DrawGamePlayer);
    assert_eq!(p.last_drain_count, 1);
}

#[test]
fn registry_keeps_worlds_apart() {
    let mut s = SessionView::with_static_data(10, 10, 18, world_data());
    s.registry.set_cache_mode(CacheMode::All);
    s.ingest_packet(&[0x1A], &ServerPacket::ObjectInfo(multi(0x4000_0002, 9, 9)));
    s.ingest_packet(&[0x1A], &ServerPacket::ObjectInfo(item(0x4000_0001, 12, 12)));
    assert!(s.visible.get(0x4000_0001).unwrap().is_item());
    assert_eq!((s.registry.len(), s.registry.cached_defs()), (2, 1));
    assert_eq!(s.registry.foundation_extent(0x4000_0002), Some((0, 0, 1, 0)));
    let near = TileRect { x_min: 10, y_min: 9, x_max: 10, y_max: 9 };
    assert_eq!(s.registry.serials_in_rect(&near), vec![0x4000_0002]);
    s.ingest_packet(&[0xBF], &ServerPacket::GeneralInfo(GeneralInfo::SetMap { world: 1 }));
    s.ingest_packet(&[0x1A], &ServerPacket::ObjectInfo(item(0x4000_0005, 12, 12)));
    assert_eq!((s.registry.len(), s.registry.total_len(), s.registry.world_count()), (1, 3, 2));
    assert!(s.registry.get(0x4000_0002).is_none());
    assert_eq!(s.registry.get_any(0x4000_0002).unwrap().0, 0);
    s.registry.clear_world(0);
    assert_eq!(s.registry.total_len(), 1);
    s.registry.clear_all_with_defs();
    assert_eq!((s.registry.total_len(), s.registry.cached_defs()), (0, 0));
}

#[test]
fn a_registry_is_without_shapes_until_it_remembers_some() {
    let mut s = SessionView::with_static_data(10, 10, 18, world_data());
    s.registry.set_cache_mode(CacheMode::All);
    assert!(s.registry.shapes_empty());
    s.ingest_packet(&[0x78], &ServerPacket::DrawMobile(mobile(6, 11, 11, vec![])));
    assert!(s.registry.shapes_empty());
    s.ingest_packet(&[0x1A], &ServerPacket::ObjectInfo(item(0x4000_0001, 12, 12)));
    assert!(!s.registry.shapes_empty());
    s.ingest_packet(&[0x1D], &ServerPacket::DeleteObject { serial: 0x4000_0001 });
    assert!(s.registry.shapes_empty());
}

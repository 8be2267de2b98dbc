//! Zones, what is in them, who watches them and who acts in them.

use std::cell::Cell;
use std::collections::HashMap;
use std::rc::Rc;
use std::sync::Arc;

use framework::anima::context::{ControlContext, Scene};
use framework::anima::error::ControllerError;
use framework::anima::host::ControllerHost;
use framework::anima::scheduler::{Scheduler, TaskAction};
use framework::anima::traits::{
    AccessLevel, ControllerDef, ControllerProfile, EntityController, Occasion,
};
use framework::anima::zone_access::Outlet;
use framework::continuum::cargo::collect_and_remove_containers;
use framework::continuum::container::{
    ContainerInfo, ContainerItem, ContainerStore, HashContainerStore, NoContainers, ZoneContainers,
};
use framework::continuum::item_props::{HashItemProps, NoItemProps, ZoneItemProps};
use framework::continuum::observer::{ObserverRegistry, CONTROLLER_BUFFER_CAP};
use framework::continuum::traits::CommandHandler;
use framework::continuum::worker::{CrossZoneOp, TransferError, Worker, WorkerCommand};
use framework::continuum::world_event::WorldEvent;
use framework::continuum::zone::Zone;
use framework::coords::{BlockKey, Facing, Heading, Pos3D};
use framework::ecumene::static_world_data::{MapData, StaticData, StaticWorldData, WorldFiles};
use framework::ecumene::tile_rect::TileRect;
use framework::time::{Clock, Duration, Moment};
use framework::vessel::entity::{Entity, EntitySnapshot, EntityState, Outcome};
use framework::vessel::static_data::{
    MapBlock, MapTile, MultiPart, StaticDataProvider, TileShaper,
};
use framework::vessel::tile_shape::{TileFlags, TileShape};
use tokio::sync::mpsc;

struct Shaper;

impl TileShaper for Shaper {
    fn land_form(&self, _a: i8, _b: i8, _c: i8, _id: u16) -> TileShape {
        unreachable!()
    }

    fn static_form(&self, _z: i8, _id: u16) -> Option<TileShape> {
        unreachable!()
    }

    fn land_shape(&self, z_base: i8, z_stand: i8, z_top: i8, _tile_id: u16) -> TileShape {
        TileShape::Slope { z_base, z_stand, z_top, flags: 0 }
    }

    fn static_shape(&self, z: i8, _tile_id: u16) -> Option<TileShape> {
        Some(TileShape::Surface {
            z_base: z,
            z_stand: z + 20,
            flags: TileFlags::IMPASSABLE | TileFlags::NO_SHOOT,
        })
    }
}

type Data = StaticWorldData<Shaper>;

/// A level map of thirty-two by thirty-two tiles.
fn world_data() -> Arc<Data> {
    let block = || MapBlock { cells: vec![MapTile { tile_id: 3, z: 0 }; 64] };
    let files = WorldFiles {
        map: MapData { x_blocks: 4, y_blocks: 4, blocks: (0..16).map(|_| block()).collect() },
        statics: StaticData { blocks: vec![vec![]; 16] },
    };
    Arc::new(StaticWorldData::from_files(
        Shaper,
        HashMap::new(),
        vec![Some(files), None, None, None, None, None],
        vec![None; 6],
    ))
}

/// A creature with hit points and mana, or a crate that is in the way.
#[derive(Clone, Debug)]
struct Being {
    serial: u32,
    pos: Pos3D,
    alive: bool,
    hits: u16,
    mana: u16,
    direction: u8,
    backpack: Option<u32>,
}

fn creature(serial: u32, x: u16, y: u16) -> Being {
    Being {
        serial,
        pos: Pos3D::new(x, y, 0),
        alive: true,
        hits: 50,
        mana: 20,
        direction: 0,
        backpack: None,
    }
}

fn crate_at(serial: u32, x: u16, y: u16) -> Being {
    Being { alive: false, ..creature(serial, x, y) }
}

impl Entity for Being {
    fn state(&self) -> EntityState {
        unreachable!()
    }

    fn forms(
        &self,
        _shape: vstd::prelude::FnSpec<(i8, u16), Option<TileShape>>,
        _parts: vstd::prelude::FnSpec<(u16,), vstd::seq::Seq<MultiPart>>,
    ) -> vstd::seq::Seq<(u16, u16, TileShape)> {
        unreachable!()
    }

    fn moved(&self, _pos: Pos3D) -> EntityState {
        unreachable!()
    }

    fn turned(&self, _direction: u8) -> EntityState {
        unreachable!()
    }

    fn damaged(&self, _amount: u16) -> Outcome {
        unreachable!()
    }

    fn healed(&self, _amount: u16) -> Outcome {
        unreachable!()
    }

    fn mana_shifted(&self, _delta: i32) -> Outcome {
        unreachable!()
    }

    fn stamina_shifted(&self, _delta: i32) -> Outcome {
        unreachable!()
    }

    fn serial(&self) -> u32 {
        self.serial
    }

    fn pos(&self) -> Pos3D {
        self.pos
    }

    fn graphic(&self) -> u16 {
        400
    }

    fn is_mobile(&self) -> bool {
        self.alive
    }

    fn is_multi(&self) -> bool {
        false
    }

    fn is_container(&self) -> bool {
        false
    }

    fn is_player(&self) -> bool {
        false
    }

    fn is_mounted(&self) -> bool {
        false
    }

    fn direction(&self) -> Option<u8> {
        if self.alive {
            Some(self.direction)
        } else {
            None
        }
    }

    fn hits(&self) -> Option<(u16, u16)> {
        if self.alive {
            Some((self.hits, 50))
        } else {
            None
        }
    }

    fn mana(&self) -> Option<(u16, u16)> {
        if self.alive {
            Some((self.mana, 20))
        } else {
            None
        }
    }

    fn stamina(&self) -> Option<(u16, u16)> {
        None
    }

    fn notoriety(&self) -> Option<u8> {
        None
    }

    fn name(&self) -> Option<String> {
        None
    }

    fn equipment_serials(&self) -> Vec<u32> {
        vec![]
    }

    fn backpack_serial(&self) -> Option<u32> {
        self.backpack
    }

    fn snapshot(&self) -> Option<EntitySnapshot> {
        None
    }

    fn set_pos(&mut self, pos: Pos3D) {
        self.pos = pos;
    }

    fn set_direction(&mut self, direction: u8) {
        self.direction = direction;
    }

    fn apply_damage(&mut self, amount: u16) -> u16 {
        self.hits = self.hits.saturating_sub(amount);
        self.hits
    }

    fn apply_heal(&mut self, amount: u16) -> u16 {
        self.hits = (self.hits + amount).min(50);
        self.hits
    }

    fn modify_mana(&mut self, delta: i32) -> u16 {
        self.mana = (self.mana as i32 + delta).clamp(0, 20) as u16;
        self.mana
    }

    fn modify_stamina(&mut self, _delta: i32) -> u16 {
        0
    }

    fn extract_shapes<D: StaticDataProvider>(&self, sd: &D) -> Vec<(u16, u16, TileShape)> {
        match sd.static_shape(self.pos.z, 1) {
            Some(s) if !self.alive => vec![(self.pos.x, self.pos.y, s)],
            _ => vec![],
        }
    }

    fn duplicate(&self) -> Being {
        self.clone()
    }
}

type Store = HashMap<u32, Being>;
type World = Zone<Being, Store, Data, HashContainerStore, HashItemProps<u32>>;

fn zone(map_id: u8) -> World {
    Zone::new(
        map_id,
        Some(world_data()),
        HashMap::new(),
        HashContainerStore::new(),
        HashItemProps::default(),
    )
}

fn thing(serial: u32, amount: u16) -> ContainerItem {
    ContainerItem { serial, graphic: 70, amount, x: 0, y: 0, color: 0, grid_index: None }
}

fn everything() -> TileRect {
    TileRect { x_min: 0, y_min: 0, x_max: 31, y_max: 31 }
}

#[test]
fn containers_hold_their_items() {
    let mut c = ContainerInfo::new(9, 0x3C);
    c.set_items(vec![thing(1, 1), thing(2, 1)]);
    c.upsert_item(thing(2, 5));
    c.upsert_item(thing(3, 1));
    assert_eq!(c.item_serials(), vec![1, 2, 3]);
    assert_eq!(c.find_item(2).unwrap().amount, 5);
    assert!(c.remove_item(1));
    assert!(!c.remove_item(1));
    assert_eq!((c.serial(), c.gump_model(), c.item_count()), (9, 0x3C, 2));
    c.find_item_mut(3).unwrap().amount = 7;
    assert_eq!(c.find_item(3).unwrap().amount, 7);
}

#[test]
fn an_item_is_in_one_container_at_a_time() {
    let mut s = ContainerStore::new();
    s.ingest_open(9, 0x3C);
    s.ingest_content(9, vec![thing(1, 1), thing(2, 1)]);
    s.ingest_item_upsert(10, thing(1, 1));
    assert_eq!(s.get(9).unwrap().item_serials(), vec![2]);
    assert_eq!(s.get(10).unwrap().item_serials(), vec![1]);
    assert_eq!(s.len(), 2);
    assert!(s.remove(2));
    assert_eq!(s.get(9).unwrap().item_count(), 0);
    let mut h = HashContainerStore::from_store(ContainerStore::from(s.containers));
    assert_eq!(h.find_container_of_item(1), Some(10));
    h.ingest_item_upsert(9, thing(1, 1));
    assert_eq!(h.find_container_of_item(1), Some(9));
    assert!(h.remove_item(1));
    assert_eq!(h.find_container_of_item(1), None);
    h.ingest_content(9, vec![thing(4, 1)]);
    assert!(h.remove_item_from(9, 4));
    h.rebuild_index();
    assert!(!h.remove_item_from(9, 4));
    let mut none = NoContainers;
    none.insert(1, ContainerInfo::new(1, 0));
    assert!(none.is_empty());
}

#[test]
fn nested_containers_are_taken_along() {
    let mut s = HashContainerStore::new();
    let mut pack = ContainerInfo::new(100, 0x3C);
    pack.set_items(vec![thing(101, 1), thing(5, 1)]);
    let mut pouch = ContainerInfo::new(101, 0x3C);
    pouch.set_items(vec![thing(6, 1)]);
    s.insert(100, pack);
    s.insert(101, pouch);
    s.insert(200, ContainerInfo::new(200, 0x3C));
    let mut taken: Vec<u32> =
        collect_and_remove_containers(&mut s, Some(100)).iter().map(|c| c.0).collect();
    taken.sort();
    assert_eq!(taken, vec![100, 101]);
    assert_eq!(s.len(), 1);
    assert!(collect_and_remove_containers(&mut s, None).is_empty());
}

#[test]
fn an_item_stays_placed_where_it_was_not_removed() {
    let mut h = HashContainerStore::new();
    h.ingest_content(1, vec![thing(10, 1)]);
    h.ingest_open(2, 0x3C);
    assert!(!h.remove_item_from(2, 10));
    assert!(!h.remove_item_from(3, 10));
    assert_eq!(h.get(1).unwrap().item_serials(), vec![10]);
    assert_eq!(h.find_container_of_item(10), Some(1));
    assert!(h.remove_item_from(1, 10));
    assert_eq!(h.find_container_of_item(10), None);
    assert_eq!(h.get(1).unwrap().item_count(), 0);
}

#[test]
fn items_of_a_replaced_container_lose_their_places() {
    let mut s = HashContainerStore::new();
    let mut full = ContainerInfo::new(1, 0x3C);
    full.set_items(vec![thing(10, 1), thing(11, 1)]);
    s.insert(1, full);
    let mut next = ContainerInfo::new(1, 0x3C);
    next.set_items(vec![thing(11, 1)]);
    s.insert(1, next);
    assert_eq!(s.find_container_of_item(10), None);
    assert_eq!(s.find_container_of_item(11), Some(1));
    s.insert(1, ContainerInfo::new(1, 0x3C));
    assert_eq!(s.len(), 1);
    assert_eq!(s.get(1).unwrap().item_count(), 0);
    assert_eq!(s.find_container_of_item(11), None);
}

#[test]
fn containers_side_by_side_are_all_taken() {
    let mut s = HashContainerStore::new();
    let mut pack = ContainerInfo::new(100, 0x3C);
    pack.set_items((101..=170).map(|n| thing(n, 1)).collect());
    let held = pack.item_serials();
    s.insert(100, pack);
    for n in 101..=170 {
        let mut bag = ContainerInfo::new(n, 0x3D);
        bag.set_items(vec![thing(n + 1000, 2)]);
        s.insert(n, bag);
    }
    s.insert(200, ContainerInfo::new(200, 0x3C));
    assert!(collect_and_remove_containers(&mut s, Some(999)).is_empty());
    assert_eq!(s.len(), 72);
    let taken = collect_and_remove_containers(&mut s, Some(100));
    assert_eq!(taken.len(), 71);
    assert_eq!(taken[0].0, 100);
    assert_eq!(taken[0].1.item_serials(), held);
    let mut serials: Vec<u32> = taken.iter().map(|c| c.0).collect();
    serials.sort();
    assert_eq!(serials, (100..=170).collect::<Vec<u32>>());
    for (n, bag) in &taken[1..] {
        assert_eq!(bag.item_serials(), vec![n + 1000]);
    }
    assert_eq!(s.len(), 1);
    assert!(s.get(200).is_some());
    assert_eq!(s.find_container_of_item(1101), None);
}

#[test]
fn containers_in_a_row_are_taken_to_the_greatest_depth() {
    let row = |n: u32| {
        let mut s = HashContainerStore::new();
        for k in 1..=n {
            let mut c = ContainerInfo::new(k, 0x3C);
            c.set_items(vec![thing(k + 1, 1)]);
            s.insert(k, c);
        }
        s
    };
    let mut fits = row(64);
    let taken: Vec<u32> =
        collect_and_remove_containers(&mut fits, Some(1)).iter().map(|c| c.0).collect();
    assert_eq!(taken, (1..=64).collect::<Vec<u32>>());
    assert!(fits.is_empty());
    let mut deeper = row(65);
    assert_eq!(collect_and_remove_containers(&mut deeper, Some(1)).len(), 64);
    assert!(deeper.get(65).is_some());
    // A container within itself is taken once.
    let mut round = HashContainerStore::new();
    for (k, inner) in [(1, 2), (2, 3), (3, 1)] {
        let mut c = ContainerInfo::new(k, 0x3C);
        c.set_items(vec![thing(inner, 1)]);
        round.insert(k, c);
    }
    assert_eq!(collect_and_remove_containers(&mut round, Some(1)).len(), 3);
}

#[test]
fn props_of_items() {
    let mut p: HashItemProps<u32> = HashItemProps::default();
    p.insert(1, 10);
    *p.get_mut(1).unwrap() += 1;
    assert_eq!(p.get(1), Some(&11));
    assert_eq!(p.iter(), vec![(1, &11)]);
    assert_eq!(p.to_map().get(&1), Some(&11));
    assert_eq!(p.remove(1), Some(11));
    assert!(p.is_empty());
    let mut n = NoItemProps;
    n.insert(1, ());
    assert_eq!(n.len(), 0);
}

#[test]
fn entities_are_in_the_way_until_they_leave() {
    let mut z = zone(0);
    z.spawn(1, creature(1, 10, 10));
    z.spawn(2, crate_at(2, 11, 10));
    assert_eq!(z.test_step(10, 10, 0, Heading::East), None);
    assert_eq!(z.test_step(10, 10, 0, Heading::West), Some(0));
    assert!(!z.has_los(9, 10, 10, 13, 10, 10));
    assert_eq!(z.query_area(&everything()).len(), 2);
    assert_eq!(z.query_collision_block(BlockKey::new(1, 1)).tile_stack(3, 2).len(), 2);
    z.update(2, crate_at(2, 20, 20));
    assert_eq!(z.test_step(19, 20, 0, Heading::East), None);
    assert_eq!(z.test_step(10, 10, 0, Heading::East), Some(0));
    assert!(z.has_los(9, 10, 10, 13, 10, 10));
    assert_eq!(z.remove(2).unwrap().serial, 2);
    assert_eq!(z.test_step(19, 20, 0, Heading::East), Some(0));
    assert!(z.remove(2).is_none());
    assert!(!z.move_entity(2, 1, 1, 0, None));
    assert!(z.move_entity(1, 12, 13, 1, Some(4)));
    assert_eq!(z.get(1).unwrap().pos, Pos3D::new(12, 13, 1));
    assert_eq!(z.get(1).unwrap().direction, 4);
    assert_eq!(z.query_area(&TileRect::point(12, 13)).len(), 1);
    let mut hurt = creature(1, 10, 10);
    hurt.hits = 3;
    z.update(1, hurt);
    assert_eq!(z.get(1).unwrap().hits, 3);
    assert_eq!(z.resolve_standing_z(10, 10, 5, Heading::North), Some(0));
    z.clear_all();
    assert!(z.collect_entities().is_empty());
}

fn sound(x: u16, y: u16) -> Arc<WorldEvent> {
    Arc::new(WorldEvent::SoundPlayed { map_id: 0, sound_id: 1, x, y, z: 0 })
}

#[test]
fn events_reach_those_who_watch_their_place() {
    let mut r = ObserverRegistry::new();
    let (tx, mut rx) = mpsc::channel(8);
    r.register(1, 0, TileRect::from_view(10, 10, 5), tx);
    r.subscribe_controller(2, 0, TileRect::from_view(100, 100, 5));
    r.route_event(sound(12, 12));
    r.route_event(sound(100, 101));
    r.route_event(sound(50, 50));
    assert!(matches!(*rx.try_recv().unwrap(), WorldEvent::SoundPlayed { x: 12, y: 12, .. }));
    assert!(rx.try_recv().is_err());
    assert_eq!(r.controllers_with_pending_events(), vec![2]);
    assert_eq!(r.drain_controller_events(2).len(), 1);
    assert!(r.drain_controller_events(2).is_empty());
    // Light is for the whole map.
    r.route_event(Arc::new(WorldEvent::GlobalLight { map_id: 0, level: 3 }));
    assert!(matches!(*rx.try_recv().unwrap(), WorldEvent::GlobalLight { level: 3, .. }));
    // A message is for one player.
    r.route_event(Arc::new(WorldEvent::TargetedMessage {
        map_id: 0,
        target_player: 1,
        message: "hello".to_string(),
        color: 0,
        pos_x: 0,
        pos_y: 0,
    }));
    assert!(matches!(&*rx.try_recv().unwrap(), WorldEvent::TargetedMessage { message, .. } if message == "hello"));
    assert_eq!(r.get_controller_subscription_radius(2), Some(5));
    let (added, removed) = r.update_view(1, TileRect::from_view(11, 10, 5)).unwrap();
    assert_eq!((added.len(), removed.len()), (1, 1));
    // Those whose channel is closed are forgotten.
    drop(rx);
    r.route_event(sound(12, 12));
    assert!(r.get_view_rect(1).is_none());
}

#[test]
fn full_channels_drop_events_and_buffers_the_oldest() {
    let mut r = ObserverRegistry::new();
    let (tx, _rx) = mpsc::channel(1);
    r.register(1, 0, TileRect::from_view(10, 10, 5), tx);
    r.route_event(sound(10, 10));
    r.route_event(sound(10, 10));
    assert_eq!(r.events_dropped, 1);
    assert!(r.get_view_rect(1).is_some());
    r.subscribe_controller(2, 0, TileRect::from_view(200, 200, 5));
    for n in 0..CONTROLLER_BUFFER_CAP as u16 + 3 {
        r.route_event(Arc::new(WorldEvent::SoundPlayed {
            map_id: 0,
            sound_id: n,
            x: 200,
            y: 200,
            z: 0,
        }));
    }
    let heard = r.drain_controller_events(2);
    assert_eq!(heard.len(), CONTROLLER_BUFFER_CAP);
    assert!(matches!(*heard[0], WorldEvent::SoundPlayed { sound_id: 3, .. }));
    r.unregister(1);
    r.unsubscribe_controller(2);
    assert!(!r.has_controller_subscription(2));
}

#[test]
fn tasks_fire_in_time_on_their_map() {
    let mut s: Scheduler<fn()> = Scheduler::new();
    let at = |n| Moment { nanos: n };
    let timer = |timer_id| TaskAction::FireTimer { entity_serial: 1, timer_id };
    let d = Duration::from_nanos;
    s.schedule_from(at(0), d(30), None, timer(3), Some(0));
    s.schedule_from(at(0), d(10), Some(d(10)), timer(1), Some(0));
    s.schedule_from(at(0), d(10), None, timer(9), Some(1));
    let gone = s.schedule_from(at(0), d(5), None, timer(8), None);
    s.cancel(gone);
    assert_eq!(s.next_fire_at(), Some(at(10)));
    let ids = |fired: Vec<TaskAction<fn()>>| -> Vec<u64> {
        fired
            .iter()
            .map(|a| match a {
                TaskAction::FireTimer { timer_id, .. } => *timer_id,
                TaskAction::Callback(_) => 0,
            })
            .collect()
    };
    assert_eq!(ids(s.tick(at(9), 0)), Vec::<u64>::new());
    assert_eq!(ids(s.tick(at(10), 0)), vec![1]);
    let mut later = ids(s.tick(at(30), 0));
    later.sort();
    assert_eq!(later, vec![1, 1, 3]);
    assert_eq!(ids(s.tick(at(30), 1)), vec![9]);
    s.reassign_entity_map(1, 2);
    assert_eq!(ids(s.tick(at(40), 2)), vec![1]);
    s.schedule(Duration::from_millis(5), TaskAction::Callback(None), None);
    let n = s.len();
    s.schedule_repeating(Duration::from_millis(5), Duration::from_millis(5), timer(2), None);
    assert_eq!(s.len(), n + 1);
    assert!(!s.is_empty());
}

#[test]
fn clocks_go_forward() {
    let c = Clock::start();
    let a = c.now();
    let b = c.now();
    assert!(a.nanos <= b.nanos);
    assert_eq!(Moment { nanos: 7 }.since(Moment { nanos: 9 }).nanos, 0);
    assert_eq!(Moment { nanos: 7 }.after(Duration::from_millis(1)).nanos, 1_000_007);
}

/// Counts what it is called for.
#[derive(Default)]
struct Counter {
    commands: Vec<(u8, u32)>,
    ticks: usize,
    settled: usize,
    left: Vec<u32>,
    came: Vec<(u32, Option<u16>, u8)>,
}

impl CommandHandler<Being, Store, Data, HashContainerStore, HashItemProps<u32>, u16> for Counter {
    type Command = u32;

    fn handles(
        _before: Self,
        _after: Self,
        _zone: World,
        _zone_after: World,
        _cmd: u32,
        _events: vstd::seq::Seq<WorldEvent>,
    ) -> bool {
        true
    }

    fn ticks(
        _before: Self,
        _after: Self,
        _zone: World,
        _zone_after: World,
        _events: vstd::seq::Seq<WorldEvent>,
    ) -> bool {
        true
    }

    fn settles(_before: Self, _after: Self) -> bool {
        true
    }

    fn lets_go(_before: Self, _after: Self, _serial: u32, _state: Option<u16>) -> bool {
        true
    }

    fn takes_in(
        _before: Self,
        _after: Self,
        _serial: u32,
        _state: Option<u16>,
        _to_map: u8,
    ) -> bool {
        true
    }

    fn handle(&mut self, zone: &mut World, cmd: u32, events: &mut Vec<WorldEvent>) {
        self.commands.push((zone.map_id, cmd));
        zone.spawn(cmd, creature(cmd, 10, 10));
        events.push(WorldEvent::GlobalLight { map_id: zone.map_id, level: 1 });
    }

    fn tick(&mut self, _zone: &mut World, _events: &mut Vec<WorldEvent>) {
        self.ticks += 1;
    }

    fn next_tick_at(&mut self) -> Option<Moment> {
        None
    }

    fn post_command(&mut self) {
        self.settled += 1;
    }

    fn on_entity_leaving_zone(&mut self, serial: u32) -> Option<u16> {
        self.left.push(serial);
        Some(77)
    }

    fn on_entity_entering_zone(&mut self, serial: u32, state: Option<u16>, to_map: u8) {
        self.came.push((serial, state, to_map));
    }
}

#[test]
fn workers_hand_commands_to_zones_and_move_entities() {
    let mut w = Worker::with_factory(Counter::default(), zone);
    assert!(w.dispatch_command(WorkerCommand::MapCommand(0, 5)).is_none());
    assert_eq!(w.handler.commands, vec![(0, 5)]);
    assert_eq!(w.take_events().len(), 1);
    // What the entity carries goes along.
    let z = w.zones.get_mut(&0).unwrap();
    let mut carrier = creature(5, 10, 10);
    carrier.backpack = Some(100);
    z.update(5, carrier);
    let mut pack = ContainerInfo::new(100, 0x3C);
    pack.set_items(vec![thing(7, 2)]);
    z.containers.insert(100, pack);
    z.item_props.insert(7, 70);
    let moved = w.handle_cross_zone(CrossZoneOp::TransferEntity {
        from_map: 0,
        to_map: 1,
        serial: 5,
        new_x: 20,
        new_y: 21,
        new_z: 2,
        new_direction: Some(4),
    });
    let moved = match moved {
        Ok(t) => t,
        Err(_) => panic!("the entity is there"),
    };
    assert_eq!((moved.from_map, moved.to_map, moved.entity.serial), (0, 1, 5));
    assert!(w.zones[&0].get(5).is_none());
    assert_eq!(moved.entity.pos, Pos3D::new(20, 21, 2));
    assert!(w.zones[&0].containers.get(100).is_none());
    assert_eq!(w.zones[&0].containers.find_container_of_item(7), None);
    let there = &w.zones[&1];
    assert_eq!(there.get(5).unwrap().pos, Pos3D::new(20, 21, 2));
    assert_eq!(there.get(5).unwrap().direction, 4);
    assert_eq!(there.containers.get(100).unwrap().item_serials(), vec![7]);
    assert_eq!(there.containers.find_container_of_item(7), Some(100));
    assert_eq!(there.item_props.get(7), Some(&70));
    assert_eq!(w.handler.left, vec![5]);
    assert_eq!(w.handler.came, vec![(5, Some(77), 1)]);
    w.end_batch();
    assert_eq!(w.handler.settled, 1);
    w.tick_zones();
    assert_eq!(w.handler.ticks, 2);
}

#[test]
fn transfers_that_cannot_be() {
    let mut w = Worker::with_factory(Counter::default(), zone);
    assert!(w.ensure_zone(0));
    let absent = w.transfer_entity(0, 1, 5, 1, 1, 0, None);
    assert!(matches!(absent, Err(TransferError::EntityNotFound)));
    let mut bare: Worker<_, _, _, _, _, _, _, fn(u8) -> World> = Worker::new(Counter::default());
    assert!(!bare.ensure_zone(0));
    assert!(matches!(
        bare.transfer_entity(0, 1, 5, 1, 1, 0, None),
        Err(TransferError::SourceZoneMissing)
    ));
    bare.zones.insert(0, zone(0));
    bare.zones.get_mut(&0).unwrap().spawn(5, creature(5, 1, 1));
    assert!(matches!(
        bare.transfer_entity(0, 1, 5, 1, 1, 0, None),
        Err(TransferError::DestinationZoneMissing)
    ));
    assert!(bare.zones[&0].get(5).is_some());
}

fn act<R>(
    z: &mut World,
    level: AccessLevel,
    deed: impl FnOnce(
        &mut ControlContext<'_, Being, Store, Data, HashContainerStore, HashItemProps<u32>, fn()>,
    ) -> R,
) -> (R, Vec<WorldEvent>) {
    let mut outlet = Outlet::none();
    outlet.publishing = true;
    let mut timers: Scheduler<fn()> = Scheduler::new();
    let r = {
        let mut ctx = ControlContext::new(1, level, z, &mut outlet, &mut timers);
        deed(&mut ctx)
    };
    (r, outlet.events)
}

#[test]
fn controllers_act_within_their_access() {
    let mut z = zone(0);
    z.spawn(1, creature(1, 10, 10));
    z.spawn(2, creature(2, 14, 10));
    let (seen, _) = act(&mut z, AccessLevel::ReadOnly, |c| c.me());
    assert_eq!(seen.unwrap().hits, Some(50));
    let (denied, told) = act(&mut z, AccessLevel::ReadOnly, |c| c.teleport(3, 3, 0));
    let denied = denied.err().unwrap();
    assert!(matches!(
        denied,
        ControllerError::AccessDenied { action: "teleport", level: AccessLevel::ReadOnly }
    ));
    assert_eq!(denied.message(), "access denied: 'teleport' requires higher than ReadOnly");
    assert!(told.is_empty());
    let (stepped, told) = act(&mut z, AccessLevel::Safe, |c| c.step(Facing::new(2)));
    assert_eq!(stepped.unwrap(), Pos3D::new(11, 10, 0));
    assert!(matches!(told[0], WorldEvent::EntityMoved { serial: 1, .. }));
    let (hit, told) = act(&mut z, AccessLevel::Full, |c| c.deal_damage(2, 15));
    assert_eq!(hit.unwrap(), (35, false));
    assert!(matches!(told[0], WorldEvent::DamageDealt { serial: 2, amount: 15, new_hits: 35, .. }));
    let (healed, _) = act(&mut z, AccessLevel::Full, |c| c.heal_entity(2, 100));
    assert_eq!(healed.unwrap(), 50);
    let (mana, _) = act(&mut z, AccessLevel::Full, |c| c.consume_mana(2, 5));
    assert_eq!(mana.unwrap(), Some(15));
    let (mana, _) = act(&mut z, AccessLevel::Full, |c| c.consume_mana(2, 50));
    assert_eq!(mana.unwrap(), None);
    let (own, _) = act(&mut z, AccessLevel::Full, |c| c.remove_entity(1));
    assert!(own.is_err());
    let (other, told) = act(&mut z, AccessLevel::Full, |c| c.remove_entity(2));
    assert!(other.is_ok());
    assert!(matches!(told[0], WorldEvent::EntityRemoved { serial: 2, .. }));
    assert!(z.get(2).is_none());
    let (lost, _) = act(&mut z, AccessLevel::Full, |c| c.deal_damage(99, 1));
    assert_eq!(lost.err().unwrap().message(), "entity 0x00000063 not found");
}

#[test]
fn barred_steps_say_where() {
    let mut z = zone(0);
    z.spawn(1, creature(1, 10, 10));
    z.spawn(2, crate_at(2, 11, 10));
    let (barred, _) = act(&mut z, AccessLevel::Safe, |c| c.step(Facing::new(2)));
    assert_eq!(barred.err().unwrap().message(), "movement blocked for 0x00000001 at (11, 10)");
    assert_eq!(z.get(1).unwrap().pos, Pos3D::new(10, 10, 0));
}

#[test]
fn items_are_used_up() {
    let mut z = zone(0);
    z.spawn(1, creature(1, 10, 10));
    let mut pack = ContainerInfo::new(100, 0x3C);
    pack.set_items(vec![thing(7, 5)]);
    z.containers.insert(100, pack);
    let (used, _) = act(&mut z, AccessLevel::Full, |c| c.consume_item(7, 2, Some(70)));
    assert_eq!(used.unwrap(), Some((3, 70)));
    assert_eq!(z.containers.find_container_of_item(7), Some(100));
    let (other, _) = act(&mut z, AccessLevel::Full, |c| c.consume_item(7, 2, Some(71)));
    assert_eq!(other.unwrap(), None);
    let (found, _) = act(&mut z, AccessLevel::ReadOnly, |c| c.find_item_in_container(100, 70));
    assert_eq!(found, Some((7, 3)));
    let (last, _) = act(&mut z, AccessLevel::Full, |c| c.consume_item(7, 3, None));
    assert_eq!(last.unwrap(), Some((0, 70)));
    assert_eq!(z.containers.get(100).unwrap().item_count(), 0);
    assert_eq!(z.containers.find_container_of_item(7), None);
}

struct Rules;

impl ControllerDef for Rules {
    type Event = u64;
    type GlobalEvent = u8;
    type Command = u16;

    fn timer_news(_entity_serial: u32, _timer_id: u64) -> u64 {
        unreachable!()
    }

    fn copy_of(_event: u8, _copy: u8) -> bool {
        true
    }

    fn timer_event(_entity_serial: u32, timer_id: u64) -> u64 {
        timer_id
    }

    fn duplicate(event: &u8) -> u8 {
        *event
    }
}

/// Walks west on each tick and remembers what it was told.
#[derive(Default)]
struct Walker {
    heard: Vec<String>,
    spans: Vec<u128>,
}

impl ControllerProfile for Walker {
    fn level(&self) -> AccessLevel {
        AccessLevel::Safe
    }

    fn next_tick(&self) -> Option<Moment> {
        None
    }

    fn access_level(&self) -> AccessLevel {
        AccessLevel::Safe
    }

    fn name(&self) -> &str {
        "walker"
    }

    fn next_tick_at(&self) -> Option<Moment> {
        Some(Moment { nanos: 1_000 })
    }
}

type Ctx<'a, F> =
    ControlContext<'a, Being, Store, Data, HashContainerStore, HashItemProps<u32>, F>;
type Snap<F> = Scene<Being, Store, Data, HashContainerStore, HashItemProps<u32>, F>;

impl<F> EntityController<Rules, Being, Store, Data, HashContainerStore, HashItemProps<u32>, F>
    for Walker
{
    fn acts(
        _before: Self,
        _after: Self,
        _entity_serial: u32,
        _level: AccessLevel,
        _from: Snap<F>,
        _to: Snap<F>,
        _occasion: Occasion<Rules>,
    ) -> bool {
        true
    }

    fn tick(&mut self, ctx: &mut Ctx<'_, F>, dt: Duration) {
        self.spans.push(dt.nanos);
        let _ = ctx.step(Facing::new(6));
    }

    fn on_event(&mut self, _ctx: &mut Ctx<'_, F>, event: u64) {
        self.heard.push(format!("event {event}"));
    }

    fn on_global_event(&mut self, _ctx: &mut Ctx<'_, F>, event: u8) {
        self.heard.push(format!("global {event}"));
    }

    fn on_command(&mut self, _ctx: &mut Ctx<'_, F>, cmd: u16) {
        self.heard.push(format!("command {cmd}"));
    }

    fn on_world_event(&mut self, _ctx: &mut Ctx<'_, F>, event: &Arc<WorldEvent>) {
        if let WorldEvent::SoundPlayed { sound_id, .. } = &**event {
            self.heard.push(format!("sound {sound_id}"));
        }
    }
}

#[test]
fn hosts_let_controllers_act() {
    let mut z = zone(0);
    z.spawn(1, creature(1, 10, 10));
    // The creature faces west already.
    z.move_entity(1, 10, 10, 0, Some(6));
    let mut host: ControllerHost<Rules, Walker, fn()> = ControllerHost::new();
    host.attach(1, Walker::default(), 0);
    host.attach(3, Walker::default(), 1);
    assert!(host.has_controller(1));
    assert_eq!(host.controller_count(), 2);
    assert_eq!(host.next_tick_at(), Some(Moment { nanos: 1_000 }));
    host.scheduler_mut().schedule_from(
        Moment { nanos: 0 },
        Duration::from_nanos(500),
        None,
        TaskAction::FireTimer { entity_serial: 1, timer_id: 42 },
        Some(0),
    );
    let mut events = Vec::new();
    host.tick_with_events(&mut z, Moment { nanos: 1_000 }, &mut events);
    host.tick_with_events(&mut z, Moment { nanos: 3_000 }, &mut events);
    assert_eq!(z.get(1).unwrap().pos.x, 8);
    assert_eq!(events.len(), 2);
    assert!(host.send_event(&mut z, 1, 5));
    assert!(!host.send_event(&mut z, 2, 5));
    assert!(host.send_command(&mut z, 1, 6));
    host.broadcast_event(&mut z, 7);
    let walker = host.detach(1).unwrap();
    assert_eq!(walker.heard, vec!["event 42", "event 5", "command 6", "global 7"]);
    assert_eq!(walker.spans[1], 2_000);
    // The one on the other map was left alone by the ticks.
    let other = host.detach(3).unwrap();
    assert!(other.spans.is_empty());
}

#[test]
fn callbacks_are_called_when_they_are_due() {
    let calls = Rc::new(Cell::new(0));
    let mut z = zone(0);
    let mut host: ControllerHost<Rules, Walker, Box<dyn FnOnce()>> = ControllerHost::new();
    for delay in [100, 200, 900] {
        let calls = calls.clone();
        host.scheduler_mut().schedule_from(
            Moment { nanos: 0 },
            Duration::from_nanos(delay),
            None,
            TaskAction::Callback(Some(Box::new(move || calls.set(calls.get() + 1)))),
            None,
        );
    }
    host.tick(&mut z, Moment { nanos: 50 });
    assert_eq!(calls.get(), 0);
    host.tick(&mut z, Moment { nanos: 500 });
    assert_eq!(calls.get(), 2);
    let mut events = Vec::new();
    host.tick_with_events(&mut z, Moment { nanos: 600 }, &mut events);
    assert_eq!(calls.get(), 2);
    // To ask for the next moment drops no timer.
    assert_eq!(host.next_tick_at(), Some(Moment { nanos: 900 }));
    host.tick_with_events(&mut z, Moment { nanos: 900 }, &mut events);
    assert_eq!(calls.get(), 3);
}

#[test]
fn every_observer_of_a_place_hears_of_it() {
    let mut r = ObserverRegistry::new();
    let (tx, mut rx) = mpsc::channel(8);
    r.register(u32::MAX, 0, TileRect::from_view(10, 10, 5), tx);
    r.route_event(sound(11, 11));
    assert!(matches!(*rx.try_recv().unwrap(), WorldEvent::SoundPlayed { x: 11, .. }));
}

#[test]
fn zones_take_over_the_entities_of_a_store() {
    let mut store: Store = HashMap::new();
    store.insert(4, creature(4, 3, 3));
    let z: World = Zone::new(
        0,
        Some(world_data()),
        store,
        HashContainerStore::new(),
        HashItemProps::default(),
    );
    assert_eq!(z.get(4).unwrap().pos, Pos3D::new(3, 3, 0));
}

#[test]
fn watching_controllers_hear_of_the_world() {
    let mut z = zone(0);
    z.spawn(1, creature(1, 10, 10));
    let mut host: ControllerHost<Rules, Walker, fn()> = ControllerHost::new();
    host.attach(1, Walker::default(), 0);
    let mut observers = ObserverRegistry::new();
    observers.subscribe_controller(1, 0, TileRect::from_view(10, 10, 5));
    observers.route_event(sound(11, 11));
    let mut events = Vec::new();
    host.tick_with_observer(&mut z, Moment { nanos: 1 }, &mut events, &mut observers);
    assert_eq!(host.detach(1).unwrap().heard, vec!["sound 1"]);
}

#[test]
fn players_are_told_directly() {
    let mut r = ObserverRegistry::new();
    let (tx, mut rx) = mpsc::channel(8);
    r.register(1, 0, TileRect::from_view(10, 10, 5), tx);
    r.send_to_session(1, sound(900, 900));
    assert!(matches!(*rx.try_recv().unwrap(), WorldEvent::SoundPlayed { x: 900, .. }));

    let mut z = zone(0);
    z.spawn(1, creature(1, 10, 10));
    z.spawn(2, creature(2, 14, 10));
    let (_, told) = act(&mut z, AccessLevel::Full, |c| c.send_message(2, "hello", 5));
    assert!(matches!(
        &told[0],
        WorldEvent::TargetedMessage { target_player: 2, message, color: 5, .. } if message == "hello"
    ));
    let (_, told) = act(&mut z, AccessLevel::Full, |c| c.close_gump(2, 9));
    assert!(matches!(told[0], WorldEvent::TargetedCloseGump { target_player: 2, gump_id: 9, .. }));
    let (moved, told) = act(&mut z, AccessLevel::Full, |c| c.teleport_other(2, 20, 20, 0));
    assert!(moved.is_ok());
    assert!(matches!(told[0], WorldEvent::EntityMoved { serial: 2, is_teleport: true, .. }));
    let (denied, _) = act(&mut z, AccessLevel::Safe, |c| c.teleport_other(2, 1, 1, 0));
    assert!(denied.is_err());
    assert_eq!(z.query_collision_blocks(0, 0, 15, 15).len(), 4);
}

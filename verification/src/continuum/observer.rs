//! Who hears of which event.
//!
//! Sessions are told through a channel; controllers of entities find their
//! events in a buffer. Both are found by the place of the event through map
//! blocks, and hear of it if their watch rectangle covers that place.

use std::collections::{HashMap, HashSet, VecDeque};
use std::sync::Arc;

use tokio::sync::mpsc;
use vstd::prelude::*;

use super::world_event::WorldEvent;
use crate::collections::{map_get_mut, map_keys, share};
use crate::coords::BlockKey;
use crate::ecumene::multi_spatial::{
    in_blocks, lemma_rect_keys, list_at, rect_keys, BlockSpatialIndex, SpatialIndex,
};
use crate::ecumene::tile_rect::TileRect;

verus! {

broadcast use vstd::std_specs::hash::group_hash_axioms;

/// The serial of a player for a session, of an entity for its controller.
pub type ObserverId = u32;

/// Events that a controller's buffer holds at most.
pub const CONTROLLER_BUFFER_CAP: usize = 256;

/// `tokio::sync::mpsc::Sender`, the sending half of a bounded channel.
#[verifier::external_type_specification]
#[verifier::external_body]
#[verifier::reject_recursive_types(T)]
pub struct ExSender<T>(tokio::sync::mpsc::Sender<T>);

/// How an attempt to send went.
#[derive(Debug, Clone, Copy, PartialEq, Eq, Structural)]
pub enum SendOutcome {
    Sent,
    /// The channel had no room.
    Full,
    /// Nobody receives any more.
    Closed,
}

/// Calls `tokio::sync::mpsc::Sender::try_send`. Which of the three outcomes it
/// is depends on the receiver, so nothing is claimed of it.
#[verifier::external_body]
fn try_send(tx: &mpsc::Sender<Arc<WorldEvent>>, event: Arc<WorldEvent>) -> (r: SendOutcome) {
    match tx.try_send(event) {
        Ok(()) => SendOutcome::Sent,
        Err(mpsc::error::TrySendError::Full(_)) => SendOutcome::Full,
        Err(mpsc::error::TrySendError::Closed(_)) => SendOutcome::Closed,
    }
}

/// How an observer receives events.
pub enum EventTarget {
    /// A session, told through a channel.
    Channel(mpsc::Sender<Arc<WorldEvent>>),
    /// A controller, whose events wait in a buffer.
    Buffer(VecDeque<Arc<WorldEvent>>),
}

/// What a target amounts to.
#[verifier::ext_equal]
pub enum TargetView {
    Channel(mpsc::Sender<Arc<WorldEvent>>),
    Buffer(Seq<Arc<WorldEvent>>),
}

impl View for EventTarget {
    type V = TargetView;

    open spec fn view(&self) -> TargetView {
        match self {
            EventTarget::Channel(tx) => TargetView::Channel(*tx),
            EventTarget::Buffer(b) => TargetView::Buffer(b@),
        }
    }
}

/// An observer: how it is told, and what it watches.
pub struct ObserverEntry {
    pub target: EventTarget,
    pub view_rect: TileRect,
    pub map_id: u8,
}

/// What an observer amounts to.
#[verifier::ext_equal]
pub struct ObserverView {
    pub target: TargetView,
    pub view_rect: TileRect,
    pub map_id: u8,
}

impl View for ObserverEntry {
    type V = ObserverView;

    open spec fn view(&self) -> ObserverView {
        ObserverView { target: self.target@, view_rect: self.view_rect, map_id: self.map_id }
    }
}

/// What a map of observers amounts to.
pub open spec fn watchers(m: Map<u32, ObserverEntry>) -> Map<u32, ObserverView> {
    m.map_values(|e: ObserverEntry| e@)
}

/// A buffer with an event added; a full one loses its oldest.
pub open spec fn buffered(b: Seq<Arc<WorldEvent>>, e: Arc<WorldEvent>) -> Seq<Arc<WorldEvent>> {
    if b.len() >= CONTROLLER_BUFFER_CAP {
        b.drop_first().push(e)
    } else {
        b.push(e)
    }
}

/// For whom an event is.
pub enum Audience {
    Nobody,
    /// One observer, wherever it is.
    Observer(ObserverId),
    /// All observers on a map.
    WholeMap(u8),
    /// All observers on a map who watch one of the places.
    Places { map_id: u8, places: Vec<(u16, u16)> },
}

/// What an audience amounts to.
#[verifier::ext_equal]
pub enum AudienceView {
    Nobody,
    Observer(ObserverId),
    WholeMap(u8),
    Places { map_id: u8, places: Seq<(u16, u16)> },
}

impl View for Audience {
    type V = AudienceView;

    open spec fn view(&self) -> AudienceView {
        match self {
            Audience::Nobody => AudienceView::Nobody,
            Audience::Observer(id) => AudienceView::Observer(*id),
            Audience::WholeMap(m) => AudienceView::WholeMap(*m),
            Audience::Places { map_id, places } => AudienceView::Places {
                map_id: *map_id,
                places: places@,
            },
        }
    }
}

/// The places of everyone carried by a ship, before and after, passengers first.
pub open spec fn carried_places(
    passengers: Seq<
        (u32, crate::coords::MobilePos, crate::coords::MobilePos, Option<
            crate::vessel::EntitySnapshot,
        >),
    >,
    n: int,
) -> Seq<(u16, u16)>
    decreases n,
{
    if n <= 0 {
        Seq::empty()
    } else {
        let p = passengers[n - 1];
        carried_places(passengers, n - 1).push((p.1.x, p.1.y)).push((p.2.x, p.2.y))
    }
}

/// The places of everything carried by a ship, before and after.
pub open spec fn cargo_places(
    cargo: Seq<
        (u32, crate::coords::Pos3D, crate::coords::Pos3D, Option<crate::vessel::EntitySnapshot>),
    >,
    n: int,
) -> Seq<(u16, u16)>
    decreases n,
{
    if n <= 0 {
        Seq::empty()
    } else {
        let p = cargo[n - 1];
        cargo_places(cargo, n - 1).push((p.1.x, p.1.y)).push((p.2.x, p.2.y))
    }
}

pub open spec fn at_place(map_id: u8, x: u16, y: u16) -> AudienceView {
    AudienceView::Places { map_id, places: seq![(x, y)] }
}

/// For whom an event is: a movement for those who watch its start or its end, a
/// thing of the whole map for everyone there, a targeted event for its
/// target, any other event for those who watch its place.
pub open spec fn audience_spec(e: WorldEvent) -> AudienceView {
    match e {
        WorldEvent::EntityMoved { map_id, old_pos, new_pos, .. } => AudienceView::Places {
            map_id,
            places: seq![(old_pos.x, old_pos.y), (new_pos.x, new_pos.y)],
        },
        WorldEvent::ShipMoved { map_id, ship_old_pos, ship_new_pos, passengers, cargo, .. } => {
            AudienceView::Places {
                map_id,
                places: seq![(ship_old_pos.x, ship_old_pos.y), (ship_new_pos.x, ship_new_pos.y)]
                    + carried_places(passengers@, passengers@.len() as int) + cargo_places(
                    cargo@,
                    cargo@.len() as int,
                ),
            }
        },
        WorldEvent::EffectPlayed { map_id, x, y, target_x, target_y, .. } => AudienceView::Places {
            map_id,
            places: seq![(x, y), (target_x, target_y)],
        },
        WorldEvent::EntitySpawned { map_id, pos, .. } => at_place(map_id, pos.x, pos.y),
        WorldEvent::EntityRemoved { map_id, last_pos, .. } => at_place(
            map_id,
            last_pos.x,
            last_pos.y,
        ),
        WorldEvent::EntityUpdated { map_id, pos, .. } => at_place(map_id, pos.x, pos.y),
        WorldEvent::SoundPlayed { map_id, x, y, .. } => at_place(map_id, x, y),
        WorldEvent::AnimationPlayed { map_id, x, y, .. } => at_place(map_id, x, y),
        WorldEvent::Speech { map_id, serial, x, y, .. } => if serial == 0xFFFF_FFFF {
            AudienceView::WholeMap(map_id)
        } else {
            at_place(map_id, x, y)
        },
        WorldEvent::GlobalLight { map_id, .. } => AudienceView::WholeMap(map_id),
        WorldEvent::Weather { map_id, .. } => AudienceView::WholeMap(map_id),
        WorldEvent::Season { map_id, .. } => AudienceView::WholeMap(map_id),
        WorldEvent::Music { map_id, .. } => AudienceView::WholeMap(map_id),
        WorldEvent::MobileKilled { map_id, x, y, .. } => at_place(map_id, x, y),
        WorldEvent::PlayerDied { map_id, x, y, .. } => at_place(map_id, x, y),
        WorldEvent::PlayerResurrected { map_id, x, y, .. } => at_place(map_id, x, y),
        WorldEvent::GhostVisibilityChanged { map_id, x, y, .. } => at_place(map_id, x, y),
        WorldEvent::DamageDealt { map_id, x, y, .. } => at_place(map_id, x, y),
        WorldEvent::MobileHealed { map_id, x, y, .. } => at_place(map_id, x, y),
        WorldEvent::ManaStaminaChanged { map_id, x, y, .. } => at_place(map_id, x, y),
        WorldEvent::BaseStatChanged { map_id, x, y, .. } => at_place(map_id, x, y),
        WorldEvent::ContainerContentsUpdated { map_id, x, y, .. } => at_place(map_id, x, y),
        WorldEvent::TargetedGump { target_player, .. } => AudienceView::Observer(target_player),
        WorldEvent::TargetedMessage { target_player, .. } => AudienceView::Observer(target_player),
        WorldEvent::TargetedCloseGump { target_player, .. } => AudienceView::Observer(
            target_player,
        ),
        WorldEvent::TargetedTargetCursor { target_player, .. } => AudienceView::Observer(
            target_player,
        ),
        WorldEvent::TargetedCrossWorldTeleport { target_player, .. } => AudienceView::Observer(
            target_player,
        ),
        WorldEvent::SnapshotRestored { .. } => AudienceView::Nobody,
    }
}

/// Whether the rectangle covers one of the places.
pub open spec fn covers_some(rect: TileRect, places: Seq<(u16, u16)>) -> bool {
    exists|i: int|
        0 <= i < places.len() && rect.has((#[trigger] places[i]).0 as int, places[i].1 as int)
}

proof fn lemma_covers_push(rect: TileRect, places: Seq<(u16, u16)>, p: (u16, u16))
    ensures
        covers_some(rect, places.push(p)) <==> covers_some(rect, places) || rect.has(
            p.0 as int,
            p.1 as int,
        ),
{
    let more = places.push(p);
    if covers_some(rect, places) {
        let k = choose|k: int|
            0 <= k < places.len() && rect.has((#[trigger] places[k]).0 as int, places[k].1 as int);
        assert(rect.has(more[k].0 as int, more[k].1 as int));
    }
    if rect.has(p.0 as int, p.1 as int) {
        let k = places.len() as int;
        assert(rect.has(more[k].0 as int, more[k].1 as int));
    }
    if covers_some(rect, more) {
        let k = choose|k: int|
            0 <= k < more.len() && rect.has((#[trigger] more[k]).0 as int, more[k].1 as int);
        if k < places.len() {
            assert(rect.has(places[k].0 as int, places[k].1 as int));
        }
    }
}

/// Whether an observer is in the audience.
pub open spec fn hears(a: AudienceView, id: ObserverId, o: ObserverView) -> bool {
    match a {
        AudienceView::Nobody => false,
        AudienceView::Observer(target) => id == target,
        AudienceView::WholeMap(m) => o.map_id == m,
        AudienceView::Places { map_id, places } => {
            &&& o.map_id == map_id
            &&& covers_some(o.view_rect, places)
        },
    }
}

/// Whether an observer of the map hears of the event.
pub open spec fn is_told(m: Map<u32, ObserverView>, e: WorldEvent, id: ObserverId) -> bool {
    m.contains_key(id) && hears(audience_spec(e), id, m[id])
}

fn one_place(map_id: u8, x: u16, y: u16) -> (a: Audience)
    ensures
        a@ == at_place(map_id, x, y),
{
    let mut places: Vec<(u16, u16)> = Vec::new();
    places.push((x, y));
    assert(places@ =~= seq![(x, y)]);
    Audience::Places { map_id, places }
}

fn two_places(map_id: u8, x: u16, y: u16, x2: u16, y2: u16) -> (a: Audience)
    ensures
        a@ == (AudienceView::Places { map_id, places: seq![(x, y), (x2, y2)] }),
{
    let mut places: Vec<(u16, u16)> = Vec::new();
    places.push((x, y));
    places.push((x2, y2));
    assert(places@ =~= seq![(x, y), (x2, y2)]);
    Audience::Places { map_id, places }
}

/// For whom an event is.
pub fn audience(e: &WorldEvent) -> (a: Audience)
    ensures
        a@ == audience_spec(*e),
{
    match e {
        WorldEvent::EntityMoved { map_id, old_pos, new_pos, .. } => {
            two_places(*map_id, old_pos.x, old_pos.y, new_pos.x, new_pos.y)
        },
        WorldEvent::ShipMoved { map_id, ship_old_pos, ship_new_pos, passengers, cargo, .. } => {
            let ghost hull = seq![
                (ship_old_pos.x, ship_old_pos.y),
                (ship_new_pos.x, ship_new_pos.y),
            ];
            let mut places: Vec<(u16, u16)> = Vec::new();
            places.push((ship_old_pos.x, ship_old_pos.y));
            places.push((ship_new_pos.x, ship_new_pos.y));
            assert(places@ =~= hull + carried_places(passengers@, 0));
            let mut i: usize = 0;
            while i < passengers.len()
                invariant
                    i <= passengers@.len(),
                    places@ == hull + carried_places(passengers@, i as int),
                decreases passengers@.len() - i,
            {
                let p = &passengers[i];
                places.push((p.1.x, p.1.y));
                places.push((p.2.x, p.2.y));
                assert(places@ =~= hull + carried_places(passengers@, i + 1));
                i += 1;
            }
            let ghost crew = carried_places(passengers@, passengers@.len() as int);
            assert(places@ =~= hull + crew + cargo_places(cargo@, 0));
            let mut j: usize = 0;
            while j < cargo.len()
                invariant
                    j <= cargo@.len(),
                    places@ == hull + crew + cargo_places(cargo@, j as int),
                decreases cargo@.len() - j,
            {
                let p = &cargo[j];
                places.push((p.1.x, p.1.y));
                places.push((p.2.x, p.2.y));
                assert(places@ =~= hull + crew + cargo_places(cargo@, j + 1));
                j += 1;
            }
            Audience::Places { map_id: *map_id, places }
        },
        WorldEvent::EffectPlayed { map_id, x, y, target_x, target_y, .. } => {
            two_places(*map_id, *x, *y, *target_x, *target_y)
        },
        WorldEvent::EntitySpawned { map_id, pos, .. } => one_place(*map_id, pos.x, pos.y),
        WorldEvent::EntityRemoved { map_id, last_pos, .. } => {
            one_place(*map_id, last_pos.x, last_pos.y)
        },
        WorldEvent::EntityUpdated { map_id, pos, .. } => one_place(*map_id, pos.x, pos.y),
        WorldEvent::SoundPlayed { map_id, x, y, .. } => one_place(*map_id, *x, *y),
        WorldEvent::AnimationPlayed { map_id, x, y, .. } => one_place(*map_id, *x, *y),
        WorldEvent::Speech { map_id, serial, x, y, .. } => {
            if *serial == 0xFFFF_FFFF {
                Audience::WholeMap(*map_id)
            } else {
                one_place(*map_id, *x, *y)
            }
        },
        WorldEvent::GlobalLight { map_id, .. } => Audience::WholeMap(*map_id),
        WorldEvent::Weather { map_id, .. } => Audience::WholeMap(*map_id),
        WorldEvent::Season { map_id, .. } => Audience::WholeMap(*map_id),
        WorldEvent::Music { map_id, .. } => Audience::WholeMap(*map_id),
        WorldEvent::MobileKilled { map_id, x, y, .. } => one_place(*map_id, *x, *y),
        WorldEvent::PlayerDied { map_id, x, y, .. } => one_place(*map_id, *x, *y),
        WorldEvent::PlayerResurrected { map_id, x, y, .. } => one_place(*map_id, *x, *y),
        WorldEvent::GhostVisibilityChanged { map_id, x, y, .. } => one_place(*map_id, *x, *y),
        WorldEvent::DamageDealt { map_id, x, y, .. } => one_place(*map_id, *x, *y),
        WorldEvent::MobileHealed { map_id, x, y, .. } => one_place(*map_id, *x, *y),
        WorldEvent::ManaStaminaChanged { map_id, x, y, .. } => one_place(*map_id, *x, *y),
        WorldEvent::BaseStatChanged { map_id, x, y, .. } => one_place(*map_id, *x, *y),
        WorldEvent::ContainerContentsUpdated { map_id, x, y, .. } => one_place(*map_id, *x, *y),
        WorldEvent::TargetedGump { target_player, .. } => Audience::Observer(*target_player),
        WorldEvent::TargetedMessage { target_player, .. } => Audience::Observer(*target_player),
        WorldEvent::TargetedCloseGump { target_player, .. } => Audience::Observer(*target_player),
        WorldEvent::TargetedTargetCursor { target_player, .. } => {
            Audience::Observer(*target_player)
        },
        WorldEvent::TargetedCrossWorldTeleport { target_player, .. } => {
            Audience::Observer(*target_player)
        },
        WorldEvent::SnapshotRestored { .. } => Audience::Nobody,
    }
}

/// All observers of a world, and the way to those who watch a place.
pub struct ObserverRegistry {
    /// Map to the block index of the observers there.
    pub spatial: HashMap<u8, BlockSpatialIndex>,
    pub observers: HashMap<ObserverId, ObserverEntry>,
    /// Events that were lost because a channel had no room.
    pub events_dropped: u64,
    /// The count of lost events when it was last reported.
    pub last_drop_warn: u64,
}

impl View for ObserverRegistry {
    type V = Map<u32, ObserverView>;

    open spec fn view(&self) -> Map<u32, ObserverView> {
        watchers(self.observers@)
    }
}

impl ObserverRegistry {
    /// Whether the index of map `m` is right about an observer.
    pub open spec fn placed(&self, m: u8, id: u32) -> bool {
        let here = self.spatial@.contains_key(m) && self.spatial@[m].knows(id);
        &&& here <==> (self.observers@.contains_key(id) && self.observers@[id].map_id == m)
        &&& here ==> self.spatial@[m].reverse@[id]@ == rect_keys(self.observers@[id].view_rect)
    }

    /// The block indices hold the observers of their maps, each by its rectangle.
    pub open spec fn wf(&self) -> bool {
        &&& forall|m: u8| #[trigger] self.spatial@.contains_key(m) ==> self.spatial@[m].wf()
        &&& forall|m: u8, id: u32| #[trigger] self.placed(m, id)
        &&& self.last_drop_warn <= self.events_dropped
    }

    /// Whether losses can still be counted.
    pub open spec fn counter_ok(&self) -> bool {
        self.events_dropped + self.observers@.dom().len() <= u64::MAX
    }

    pub fn new() -> (r: ObserverRegistry)
        ensures
            r.wf(),
            r@ == Map::<u32, ObserverView>::empty(),
            r.events_dropped == 0,
    {
        let r = ObserverRegistry {
            spatial: HashMap::new(),
            observers: HashMap::new(),
            events_dropped: 0,
            last_drop_warn: 0,
        };
        assert(r@ =~= Map::<u32, ObserverView>::empty());
        r
    }

    /// Lists an observer in the index of its map.
    fn enlist(&mut self, map_id: u8, id: ObserverId, entry: ObserverEntry)
        requires
            old(self).wf(),
            !old(self)@.contains_key(id),
            entry.map_id == map_id,
        ensures
            final(self).wf(),
            final(self)@ == old(self)@.insert(id, entry@),
            final(self).events_dropped == old(self).events_dropped,
            final(self).last_drop_warn == old(self).last_drop_warn,
    {
        let ghost before = *self;
        let mut index = match self.spatial.remove(&map_id) {
            Some(i) => i,
            None => BlockSpatialIndex::new(),
        };
        let ghost index0 = index;
        proof {
            assert(before.placed(map_id, id));
            assert(before.spatial@.contains_key(map_id) ==> index0 == before.spatial@[map_id]);
            assert(index0.wf());
            assert(!index0.knows(id));
        }
        index.insert(id, entry.view_rect);
        self.spatial.insert(map_id, index);
        self.observers.insert(id, entry);
        proof {
            assert(self@ =~= before@.insert(id, entry@));
            assert forall|m: u8, k: u32| #[trigger] self.placed(m, k) by {
                assert(before.placed(m, k));
                if m == map_id {
                    assert(index.knows(k) <==> index0.knows(k) || k == id);
                    assert(list_at(index.reverse@, k) == if k == id {
                        rect_keys(entry.view_rect)
                    } else {
                        list_at(index0.reverse@, k)
                    });
                    if !before.spatial@.contains_key(m) {
                        assert(!index0.knows(k));
                    }
                }
            }
        }
    }

    /// Registers a session: events within `view_rect` on the map go to `tx`. A
    /// registration of the same observer is replaced.
    pub fn register(
        &mut self,
        session_id: ObserverId,
        map_id: u8,
        view_rect: TileRect,
        tx: mpsc::Sender<Arc<WorldEvent>>,
    )
        requires
            old(self).wf(),
        ensures
            final(self).wf(),
            final(self)@ == old(self)@.insert(
                session_id,
                ObserverView { target: TargetView::Channel(tx), view_rect, map_id },
            ),
            final(self).events_dropped == old(self).events_dropped,
    {
        let ghost before = self@;
        self.unregister(session_id);
        self.enlist(
            map_id,
            session_id,
            ObserverEntry { target: EventTarget::Channel(tx), view_rect, map_id },
        );
        let ghost entry = ObserverView { target: TargetView::Channel(tx), view_rect, map_id };
        assert(before.remove(session_id).insert(session_id, entry) =~= before.insert(
            session_id,
            entry,
        ));
    }

    /// Unregisters an observer of either kind.
    pub fn unregister(&mut self, id: ObserverId)
        requires
            old(self).wf(),
        ensures
            final(self).wf(),
            final(self)@ == old(self)@.remove(id),
            final(self).events_dropped == old(self).events_dropped,
            final(self).last_drop_warn == old(self).last_drop_warn,
    {
        let ghost before = *self;
        let removed = self.observers.remove(&id);
        match removed {
            Some(entry) => {
                let m: u8 = entry.map_id;
                proof {
                    assert(before.placed(m, id));
                }
                match map_get_mut(&mut self.spatial, m) {
                    Some(index) => {
                        index.remove(id);
                    },
                    None => {},
                }
                proof {
                    assert(self@ =~= before@.remove(id));
                    let index0 = before.spatial@[m];
                    let index1 = self.spatial@[m];
                    assert(index1.reverse@ == index0.reverse@.remove(id));
                    assert forall|k: u8, j: u32| #[trigger] self.placed(k, j) by {
                        assert(before.placed(k, j));
                    }
                }
            },
            None => {
                proof {
                    assert(self@ =~= before@.remove(id));
                    assert forall|k: u8, j: u32| #[trigger] self.placed(k, j) by {
                        assert(before.placed(k, j));
                    }
                }
            },
        }
    }

    /// Changes what an observer watches. Returns the strips that came into view
    /// and those that went out of it, or `None` where there is no such observer.
    pub fn update_view(&mut self, session_id: ObserverId, new_view_rect: TileRect) -> (r: Option<
        (Vec<TileRect>, Vec<TileRect>),
    >)
        requires
            old(self).wf(),
        ensures
            final(self).wf(),
            final(self).events_dropped == old(self).events_dropped,
            r is Some <==> old(self)@.contains_key(session_id),
            r is None ==> final(self)@ == old(self)@,
            r matches Some(strips) ==> {
                let o = old(self)@[session_id];
                &&& final(self)@ == old(self)@.insert(
                    session_id,
                    ObserverView { view_rect: new_view_rect, ..o },
                )
                &&& o.view_rect == new_view_rect ==> strips.0@.len() == 0 && strips.1@.len() == 0
                &&& o.view_rect != new_view_rect ==> strips.0@ == new_view_rect.difference_spec(
                    o.view_rect,
                ) && strips.1@ == o.view_rect.difference_spec(new_view_rect)
            },
    {
        let ghost before = *self;
        let (old_rect, map_id) = match self.observers.get(&session_id) {
            Some(e) => (e.view_rect, e.map_id),
            None => {
                return None;
            },
        };
        if old_rect == new_view_rect {
            assert(before@.insert(session_id, before@[session_id]) =~= before@);
            return Some((Vec::new(), Vec::new()));
        }
        let added = new_view_rect.difference(&old_rect);
        let removed = old_rect.difference(&new_view_rect);
        self.move_rect(session_id, map_id, new_view_rect);
        Some((added, removed))
    }

    /// Sets the rectangle of an observer, in the index too.
    fn move_rect(&mut self, id: ObserverId, map_id: u8, rect: TileRect)
        requires
            old(self).wf(),
            old(self).observers@.contains_key(id),
            old(self).observers@[id].map_id == map_id,
        ensures
            final(self).wf(),
            final(self)@ == old(self)@.insert(
                id,
                ObserverView { view_rect: rect, ..old(self)@[id] },
            ),
            final(self).events_dropped == old(self).events_dropped,
            final(self).last_drop_warn == old(self).last_drop_warn,
    {
        let ghost before = *self;
        proof {
            assert(before.placed(map_id, id));
        }
        match map_get_mut(&mut self.spatial, map_id) {
            Some(index) => {
                let ghost index0 = *index;
                index.remove(id);
                let ghost index1 = *index;
                assert(!index1.knows(id));
                index.insert(id, rect);
            },
            None => {},
        }
        match map_get_mut(&mut self.observers, id) {
            Some(e) => {
                e.view_rect = rect;
            },
            None => {},
        }
        proof {
            let index0 = before.spatial@[map_id];
            let index2 = self.spatial@[map_id];
            assert(self@ =~= before@.insert(id, ObserverView { view_rect: rect, ..before@[id] }));
            assert forall|m: u8, k: u32| #[trigger] self.placed(m, k) by {
                assert(before.placed(m, k));
                if m == map_id {
                    assert(index2.knows(k) <==> index0.knows(k));
                    assert(list_at(index2.reverse@, k) == if k == id {
                        rect_keys(rect)
                    } else {
                        list_at(index0.reverse@, k)
                    });
                }
            }
        }
    }

    /// Registers the controller of an entity: events within `watch_rect` on the
    /// map wait in its buffer. A registration of the same observer is replaced.
    pub fn subscribe_controller(
        &mut self,
        entity_serial: ObserverId,
        map_id: u8,
        watch_rect: TileRect,
    )
        requires
            old(self).wf(),
        ensures
            final(self).wf(),
            final(self)@ == old(self)@.insert(
                entity_serial,
                ObserverView {
                    target: TargetView::Buffer(Seq::empty()),
                    view_rect: watch_rect,
                    map_id,
                },
            ),
            final(self).events_dropped == old(self).events_dropped,
    {
        let ghost before = self@;
        self.unregister(entity_serial);
        let entry = ObserverEntry {
            target: EventTarget::Buffer(VecDeque::new()),
            view_rect: watch_rect,
            map_id,
        };
        let ghost shown = entry@;
        self.enlist(map_id, entity_serial, entry);
        assert(before.remove(entity_serial).insert(entity_serial, shown) =~= before.insert(
            entity_serial,
            shown,
        ));
    }

    /// Whether the observer is a controller.
    pub open spec fn is_controller(&self, id: u32) -> bool {
        self@.contains_key(id) && self@[id].target is Buffer
    }

    /// Unregisters a controller. A session stays.
    pub fn unsubscribe_controller(&mut self, entity_serial: ObserverId)
        requires
            old(self).wf(),
        ensures
            final(self).wf(),
            final(self)@ == if old(self).is_controller(entity_serial) {
                old(self)@.remove(entity_serial)
            } else {
                old(self)@
            },
            final(self).events_dropped == old(self).events_dropped,
    {
        if self.has_controller_subscription(entity_serial) {
            self.unregister(entity_serial);
        }
    }

    /// Whether an entity has a registered controller.
    pub fn has_controller_subscription(&self, entity_serial: ObserverId) -> (b: bool)
        ensures
            b == self.is_controller(entity_serial),
    {
        match self.observers.get(&entity_serial) {
            Some(e) => match &e.target {
                EventTarget::Buffer(_) => true,
                EventTarget::Channel(_) => false,
            },
            None => false,
        }
    }

    /// Changes what a controller watches.
    pub fn update_controller_watch(&mut self, entity_serial: ObserverId, new_watch_rect: TileRect)
        requires
            old(self).wf(),
        ensures
            final(self).wf(),
            final(self)@ == if old(self).is_controller(entity_serial) {
                old(self)@.insert(
                    entity_serial,
                    ObserverView { view_rect: new_watch_rect, ..old(self)@[entity_serial] },
                )
            } else {
                old(self)@
            },
            final(self).events_dropped == old(self).events_dropped,
    {
        if !self.has_controller_subscription(entity_serial) {
            return;
        }
        let (rect, map_id) = match self.observers.get(&entity_serial) {
            Some(e) => (e.view_rect, e.map_id),
            None => {
                return;
            },
        };
        if rect == new_watch_rect {
            assert(self@.insert(entity_serial, self@[entity_serial]) =~= self@);
            return;
        }
        self.move_rect(entity_serial, map_id, new_watch_rect);
    }

    /// Hands out the waiting events of a controller and empties its buffer.
    pub fn drain_controller_events(&mut self, entity_serial: ObserverId) -> (events: Vec<
        Arc<WorldEvent>,
    >)
        requires
            old(self).wf(),
        ensures
            final(self).wf(),
            final(self).events_dropped == old(self).events_dropped,
            old(self).is_controller(entity_serial) ==> {
                &&& events@ == old(self)@[entity_serial].target->Buffer_0
                &&& final(self)@ == old(self)@.insert(
                    entity_serial,
                    ObserverView {
                        target: TargetView::Buffer(Seq::empty()),
                        ..old(self)@[entity_serial]
                    },
                )
            },
            !old(self).is_controller(entity_serial) ==> events@.len() == 0 && final(self)@ == old(self)@,
    {
        let ghost before = *self;
        let mut events: Vec<Arc<WorldEvent>> = Vec::new();
        match map_get_mut(&mut self.observers, entity_serial) {
            Some(e) => {
                match &mut e.target {
                    EventTarget::Buffer(buf) => {
                        let ghost all = buf@;
                        while buf.len() > 0
                            invariant
                                events@ + buf@ == all,
                            decreases buf@.len(),
                        {
                            let ghost rest = buf@;
                            match buf.pop_front() {
                                Some(ev) => {
                                    events.push(ev);
                                    assert(events@ + buf@ =~= all);
                                },
                                None => {},
                            }
                        }
                        assert(events@ =~= all);
                        assert(buf@ =~= Seq::<Arc<WorldEvent>>::empty());
                    },
                    EventTarget::Channel(_) => {},
                }
            },
            None => {},
        }
        proof {
            assert forall|m: u8, k: u32| #[trigger] self.placed(m, k) by {
                assert(before.placed(m, k));
            }
            if before.is_controller(entity_serial) {
                assert(self@ =~= before@.insert(
                    entity_serial,
                    ObserverView {
                        target: TargetView::Buffer(Seq::empty()),
                        ..before@[entity_serial]
                    },
                ));
            } else {
                assert(self@ =~= before@);
            }
        }
        events
    }

    /// How far a controller watches: the lesser half width of its rectangle.
    pub fn get_controller_subscription_radius(&self, entity_serial: ObserverId) -> (r: Option<u16>)
        requires
            self.is_controller(entity_serial) ==> self@[entity_serial].view_rect.proper(),
        ensures
            r is Some <==> self.is_controller(entity_serial),
            r matches Some(n) ==> {
                let v = self@[entity_serial].view_rect;
                n == if (v.x_max - v.x_min) / 2 <= (v.y_max - v.y_min) / 2 {
                    (v.x_max - v.x_min) / 2
                } else {
                    (v.y_max - v.y_min) / 2
                }
            },
    {
        match self.observers.get(&entity_serial) {
            Some(e) => match &e.target {
                EventTarget::Buffer(_) => {
                    assert(self@[entity_serial] == self.observers@[entity_serial]@);
                    let rx: u16 = (e.view_rect.x_max - e.view_rect.x_min) / 2;
                    let ry: u16 = (e.view_rect.y_max - e.view_rect.y_min) / 2;
                    if rx <= ry {
                        Some(rx)
                    } else {
                        Some(ry)
                    }
                },
                EventTarget::Channel(_) => None,
            },
            None => None,
        }
    }

    /// The controllers with waiting events, each once, in no particular order.
    pub fn controllers_with_pending_events(&self) -> (ids: Vec<ObserverId>)
        ensures
            ids@.no_duplicates(),
            forall|id: u32| #[trigger]
                ids@.contains(id) <==> self.is_controller(id) && (
                self@[id].target->Buffer_0).len() > 0,
    {
        let keys = map_keys(&self.observers);
        let mut ids: Vec<ObserverId> = Vec::new();
        let mut i: usize = 0;
        while i < keys.len()
            invariant
                i <= keys@.len(),
                keys@.no_duplicates(),
                forall|k: u32| #[trigger] keys@.contains(k) <==> self.observers@.contains_key(k),
                ids@.no_duplicates(),
                forall|id: u32| #[trigger]
                    ids@.contains(id) <==> keys@.take(i as int).contains(id)
                        && self.is_controller(id) && (self@[id].target->Buffer_0).len() > 0,
            decreases keys@.len() - i,
        {
            let k: u32 = keys[i];
            let ghost seen = ids@;
            let mut pending = false;
            if let Some(e) = self.observers.get(&k) {
                if let EventTarget::Buffer(buf) = &e.target {
                    pending = buf.len() > 0;
                }
            }
            if pending {
                ids.push(k);
            }
            proof {
                assert(keys@.contains(k));
                let pre = keys@.take(i as int);
                assert(keys@.take(i + 1) =~= pre.push(k));
                assert(!pre.contains(k));
                lemma_pushed(pre, k);
                lemma_pushed(seen, k);
                assert(!seen.contains(k));
            }
            i += 1;
        }
        proof {
            assert(keys@.take(i as int) =~= keys@);
        }
        ids
    }

    /// What an observer watches.
    pub fn get_view_rect(&self, session_id: ObserverId) -> (r: Option<TileRect>)
        ensures
            r == if self@.contains_key(session_id) {
                Some(self@[session_id].view_rect)
            } else {
                None
            },
    {
        match self.observers.get(&session_id) {
            Some(e) => Some(e.view_rect),
            None => None,
        }
    }
}

proof fn lemma_pushed(s: Seq<u32>, x: u32)
    ensures
        forall|c: u32| #[trigger] s.push(x).contains(c) <==> s.contains(c) || c == x,
        s.no_duplicates() && !s.contains(x) ==> s.push(x).no_duplicates(),
{
    let p = s.push(x);
    assert forall|c: u32| #[trigger] p.contains(c) <==> s.contains(c) || c == x by {
        if s.contains(c) {
            let i = choose|i: int| 0 <= i < s.len() && s[i] == c;
            assert(p[i] == c);
        }
        if c == x {
            assert(p[s.len() as int] == c);
        }
        if p.contains(c) {
            let i = choose|i: int| 0 <= i < p.len() && p[i] == c;
            if i < s.len() {
                assert(s[i] == c);
            }
        }
    }
    if s.no_duplicates() && !s.contains(x) {
        assert forall|i: int, j: int| 0 <= i < p.len() && 0 <= j < p.len() && i != j implies p[i]
            != p[j] by {
            if i == s.len() {
                assert(s[j] != x);
            } else if j == s.len() {
                assert(s[i] != x);
            }
        }
    }
}

impl Default for ObserverRegistry {
    fn default() -> (r: ObserverRegistry)
        ensures
            r.wf(),
            r@ == Map::<u32, ObserverView>::empty(),
    {
        ObserverRegistry::new()
    }
}


impl ObserverRegistry {
    /// The observers on a map who watch one of the places, each once.
    fn watching(&self, map_id: u8, places: &Vec<(u16, u16)>) -> (ids: Vec<ObserverId>)
        requires
            self.wf(),
        ensures
            ids@.no_duplicates(),
            forall|id: u32| #[trigger]
                ids@.contains(id) <==> self@.contains_key(id) && hears(
                    AudienceView::Places { map_id, places: places@ },
                    id,
                    self@[id],
                ),
    {
        let mut ids: Vec<ObserverId> = Vec::new();
        let mut notified: HashSet<u32> = HashSet::new();
        let index = match self.spatial.get(&map_id) {
            Some(index) => index,
            None => {
                proof {
                    assert forall|id: u32| self@.contains_key(id) implies !hears(
                        AudienceView::Places { map_id, places: places@ },
                        id,
                        #[trigger] self@[id],
                    ) by {
                        assert(self.placed(map_id, id));
                    }
                }
                return ids;
            },
        };
        let mut i: usize = 0;
        while i < places.len()
            invariant
                self.wf(),
                self.spatial@.contains_key(map_id),
                *index == self.spatial@[map_id],
                i <= places@.len(),
                ids@.no_duplicates(),
                forall|id: u32| #[trigger] notified@.contains(id) <==> ids@.contains(id),
                forall|id: u32| #[trigger]
                    ids@.contains(id) <==> self@.contains_key(id) && hears(
                        AudienceView::Places { map_id, places: places@.take(i as int) },
                        id,
                        self@[id],
                    ),
            decreases places@.len() - i,
        {
            let (x, y) = places[i];
            let near = index.query_point(x, y);
            let ghost key = BlockKey::of_tile(x, y).packed();
            let ghost pre = AudienceView::Places {
                map_id,
                places: places@.take(i as int),
            };
            let mut j: usize = 0;
            while j < near.len()
                invariant
                    self.wf(),
                    j <= near@.len(),
                    ids@.no_duplicates(),
                    forall|id: u32| #[trigger] notified@.contains(id) <==> ids@.contains(id),
                    forall|id: u32| #[trigger] near@.contains(id) <==> index.finds(id, x, y),
                    self.spatial@.contains_key(map_id),
                    *index == self.spatial@[map_id],
                    pre == (AudienceView::Places {
                        map_id,
                        places: places@.take(i as int),
                    }),
                    forall|id: u32| #[trigger]
                        ids@.contains(id) <==> self@.contains_key(id) && (hears(
                            pre,
                            id,
                            self@[id],
                        ) || (near@.take(j as int).contains(id) && self@[id].map_id == map_id && self@[id].view_rect.has(
                            x as int,
                            y as int,
                        ))),
                decreases near@.len() - j,
            {
                let id: u32 = near[j];
                let ghost known = ids@;
                let ghost marked = notified@;
                proof {
                    assert(near@.contains(id));
                    assert(index.finds(id, x, y));
                    assert(self.placed(map_id, id));
                    assert(index.agrees(id, BlockKey::of_tile(x, y).packed()));
                    assert(index.knows(id));
                    assert(near@.take(j + 1) =~= near@.take(j as int).push(id));
                    lemma_pushed(near@.take(j as int), id);
                    lemma_pushed(known, id);
                }
                let sees = match self.observers.get(&id) {
                    Some(e) => e.view_rect.contains_xy(x, y),
                    None => false,
                };
                if sees {
                    if notified.insert(id) {
                        ids.push(id);
                    }
                }
                proof {
                    assert(self@.contains_key(id));
                    assert(self@[id] == self.observers@[id]@);
                    assert forall|c: u32| #[trigger] ids@.contains(c) <==> self@.contains_key(c) && (
                    hears(pre, c, self@[c]) || (near@.take(j + 1).contains(c) && self@[c].map_id
                        == map_id && self@[c].view_rect.has(
                        x as int,
                        y as int,
                    ))) by {
                        assert(known.contains(c) <==> self@.contains_key(c) && (hears(
                            pre,
                            c,
                            self@[c],
                        ) || (near@.take(j as int).contains(c) && self@[c].map_id == map_id && self@[c].view_rect.has(
                            x as int,
                            y as int,
                        ))));
                    }
                }
                j += 1;
            }
            proof {
                assert(near@.take(j as int) =~= near@);
                let post = AudienceView::Places {
                    map_id,
                    places: places@.take(i + 1),
                };
                assert forall|id: u32| #[trigger] ids@.contains(id) <==> self@.contains_key(id)
                    && hears(post, id, self@[id]) by {
                    assert(self.placed(map_id, id));
                    if self@.contains_key(id) {
                        let o = self@[id];
                        assert(o == self.observers@[id]@);
                        assert(places@.take(i + 1) =~= places@.take(i as int).push((x, y)));
                        lemma_covers_push(o.view_rect, places@.take(i as int), (x, y));
                        if o.map_id == map_id && o.view_rect.has(x as int, y as int) {
                            lemma_rect_keys(o.view_rect);
                            assert(in_blocks(o.view_rect, key));
                            assert(rect_keys(o.view_rect).contains(key));
                            assert(index.agrees(id, key));
                            assert(index.finds(id, x, y));
                            assert(near@.contains(id));
                        }
                    }
                }
            }
            i += 1;
        }
        assert(places@.take(i as int) =~= places@);
        ids
    }

    /// All observers on a map, each once.
    fn on_map(&self, map_id: u8) -> (ids: Vec<ObserverId>)
        ensures
            ids@.no_duplicates(),
            forall|id: u32| #[trigger]
                ids@.contains(id) <==> self@.contains_key(id) && self@[id].map_id == map_id,
    {
        let keys = map_keys(&self.observers);
        let mut ids: Vec<ObserverId> = Vec::new();
        let mut i: usize = 0;
        while i < keys.len()
            invariant
                i <= keys@.len(),
                keys@.no_duplicates(),
                forall|k: u32| #[trigger] keys@.contains(k) <==> self.observers@.contains_key(k),
                ids@.no_duplicates(),
                forall|id: u32| #[trigger]
                    ids@.contains(id) <==> keys@.take(i as int).contains(id)
                        && self@.contains_key(id) && self@[id].map_id == map_id,
            decreases keys@.len() - i,
        {
            let k: u32 = keys[i];
            let ghost seen = ids@;
            let here = match self.observers.get(&k) {
                Some(e) => e.map_id == map_id,
                None => false,
            };
            if here {
                ids.push(k);
            }
            proof {
                assert(keys@.contains(k));
                let pre = keys@.take(i as int);
                assert(keys@.take(i + 1) =~= pre.push(k));
                assert(!pre.contains(k));
                lemma_pushed(pre, k);
                lemma_pushed(seen, k);
                assert(!seen.contains(k));
            }
            i += 1;
        }
        proof {
            assert(keys@.take(i as int) =~= keys@);
        }
        ids
    }

    /// The observers who hear of an event, each once.
    pub fn recipients(&self, event: &WorldEvent) -> (ids: Vec<ObserverId>)
        requires
            self.wf(),
        ensures
            ids@.no_duplicates(),
            forall|id: u32| #[trigger] ids@.contains(id) <==> is_told(self@, *event, id),
    {
        match audience(event) {
            Audience::Nobody => Vec::new(),
            Audience::Observer(target) => {
                let mut ids: Vec<ObserverId> = Vec::new();
                if self.observers.contains_key(&target) {
                    ids.push(target);
                    assert(ids@ =~= Seq::<u32>::empty().push(target));
                }
                proof {
                    lemma_pushed(Seq::<u32>::empty(), target);
                }
                ids
            },
            Audience::WholeMap(m) => self.on_map(m),
            Audience::Places { map_id, places } => self.watching(map_id, &places),
        }
    }

    /// Draws the consequence of an attempt to send to a session: one whose
    /// receiver is gone is unregistered, which the result tells; an event
    /// without room is counted as lost.
    pub fn settle(&mut self, id: ObserverId, outcome: SendOutcome) -> (gone: bool)
        requires
            old(self).wf(),
            old(self).events_dropped < u64::MAX,
        ensures
            final(self).wf(),
            gone == (outcome is Closed),
            final(self)@ == if outcome is Closed {
                old(self)@.remove(id)
            } else {
                old(self)@
            },
            final(self).events_dropped == old(self).events_dropped + if outcome is Full {
                1int
            } else {
                0
            },
            final(self).last_drop_warn == if outcome is Full && old(self).events_dropped + 1 - old(self).last_drop_warn >= 1000 {
                (old(self).events_dropped + 1) as u64
            } else {
                old(self).last_drop_warn
            },
    {
        match outcome {
            SendOutcome::Sent => false,
            SendOutcome::Closed => {
                self.unregister(id);
                true
            },
            SendOutcome::Full => {
                let ghost before = *self;
                self.events_dropped = self.events_dropped + 1;
                if self.events_dropped - self.last_drop_warn >= 1000 {
                    self.last_drop_warn = self.events_dropped;
                }
                proof {
                    assert forall|m: u8, k: u32| #[trigger] self.placed(m, k) by {
                        assert(before.placed(m, k));
                    }
                }
                false
            },
        }
    }

    /// What an attempt to deliver an event to one observer leaves behind.
    pub open spec fn delivered(
        before: ObserverRegistry,
        after: ObserverRegistry,
        id: ObserverId,
        event: Arc<WorldEvent>,
        gone: bool,
    ) -> bool {
        if !before@.contains_key(id) {
            !gone && after@ == before@ && after.events_dropped == before.events_dropped
        } else {
            match before@[id].target {
                TargetView::Buffer(b) => {
                    &&& !gone
                    &&& after.events_dropped == before.events_dropped
                    &&& after@ == before@.insert(
                        id,
                        ObserverView {
                            target: TargetView::Buffer(buffered(b, event)),
                            ..before@[id]
                        },
                    )
                },
                TargetView::Channel(_) => {
                    ||| gone && after@ == before@.remove(id) && after.events_dropped
                        == before.events_dropped
                    ||| !gone && after@ == before@ && before.events_dropped
                        <= after.events_dropped <= before.events_dropped + 1
                },
            }
        }
    }

    /// Delivers an event to one observer. A controller finds it in its buffer; a
    /// session is sent it, and whether it takes it is up to the receiver.
    fn deliver(&mut self, id: ObserverId, event: &Arc<WorldEvent>) -> (gone: bool)
        requires
            old(self).wf(),
            old(self).events_dropped < u64::MAX,
        ensures
            final(self).wf(),
            ObserverRegistry::delivered(*old(self), *final(self), id, *event, gone),
    {
        let ghost before = *self;
        let outcome: Option<SendOutcome> = match self.observers.get(&id) {
            Some(e) => match &e.target {
                EventTarget::Channel(tx) => Some(try_send(tx, share(event))),
                EventTarget::Buffer(_) => None,
            },
            None => None,
        };
        if let Some(o) = outcome {
            return self.settle(id, o);
        }
        match map_get_mut(&mut self.observers, id) {
            Some(e) => {
                match &mut e.target {
                    EventTarget::Buffer(buf) => {
                        let ghost all = buf@;
                        if buf.len() >= CONTROLLER_BUFFER_CAP {
                            let oldest = buf.pop_front();
                            assert(buf@ =~= all.drop_first());
                        }
                        buf.push_back(share(event));
                        assert(buf@ =~= buffered(all, *event));
                    },
                    EventTarget::Channel(_) => {},
                }
            },
            None => {},
        }
        proof {
            assert forall|m: u8, k: u32| #[trigger] self.placed(m, k) by {
                assert(before.placed(m, k));
            }
            if before@.contains_key(id) {
                let b = before@[id].target->Buffer_0;
                assert(self@ =~= before@.insert(
                    id,
                    ObserverView {
                        target: TargetView::Buffer(buffered(b, *event)),
                        ..before@[id]
                    },
                ));
            } else {
                assert(self@ =~= before@);
            }
        }
        false
    }

    /// What routing an event leaves of observer `id`: who does not hear of it
    /// stays as it was, a controller has it in its buffer, a session stays or
    /// is gone.
    pub open spec fn routed(
        before: Map<u32, ObserverView>,
        after: Map<u32, ObserverView>,
        told: bool,
        id: u32,
        event: Arc<WorldEvent>,
    ) -> bool {
        if !before.contains_key(id) {
            !after.contains_key(id)
        } else if !told {
            after.contains_key(id) && after[id] == before[id]
        } else {
            match before[id].target {
                TargetView::Buffer(b) => after.contains_key(id) && after[id] == (ObserverView {
                    target: TargetView::Buffer(buffered(b, event)),
                    ..before[id]
                }),
                TargetView::Channel(_) => after.contains_key(id) ==> after[id] == before[id],
            }
        }
    }

    /// Delivers an event to everyone who hears of it, once to each.
    pub fn route_event(&mut self, event: Arc<WorldEvent>)
        requires
            old(self).wf(),
            old(self).counter_ok(),
        ensures
            final(self).wf(),
            forall|id: u32| #[trigger]
                ObserverRegistry::routed(
                    old(self)@,
                    final(self)@,
                    is_told(old(self)@, *event, id),
                    id,
                    event,
                ),
            old(self).events_dropped <= final(self).events_dropped <= old(self).events_dropped
                + old(self)@.dom().len(),
    {
        let ghost before = *self;
        let ids = self.recipients(&*event);
        proof {
            assert(before@.dom() =~= before.observers@.dom());
            assert(ids@.to_set().subset_of(before@.dom())) by {
                assert forall|id: u32| ids@.to_set().contains(id) implies before@.dom().contains(
                    id,
                ) by {
                    assert(ids@.contains(id));
                }
            }
            ids@.unique_seq_to_set();
            vstd::set_lib::lemma_len_subset(ids@.to_set(), before@.dom());
        }
        let mut i: usize = 0;
        while i < ids.len()
            invariant
                self.wf(),
                i <= ids@.len(),
                ids@.no_duplicates(),
                ids@.len() <= before@.dom().len(),
                before.events_dropped + before@.dom().len() <= u64::MAX,
                before.events_dropped <= self.events_dropped <= before.events_dropped + i,
                forall|id: u32| #[trigger]
                    ObserverRegistry::routed(
                        before@,
                        self@,
                        ids@.take(i as int).contains(id),
                        id,
                        event,
                    ),
                forall|id: u32| #[trigger] ids@.contains(id) ==> before@.contains_key(id),
            decreases ids@.len() - i,
        {
            let ghost mid = *self;
            let id: u32 = ids[i];
            proof {
                assert(ids@.contains(id));
                assert(!ids@.take(i as int).contains(id));
                assert(ObserverRegistry::routed(
                    before@,
                    self@,
                    ids@.take(i as int).contains(id),
                    id,
                    event,
                ));
            }
            let gone = self.deliver(id, &event);
            proof {
                assert(ids@.take(i + 1) =~= ids@.take(i as int).push(id));
                lemma_pushed(ids@.take(i as int), id);
                assert forall|k: u32| #[trigger]
                    ObserverRegistry::routed(
                        before@,
                        self@,
                        ids@.take(i + 1).contains(k),
                        k,
                        event,
                    ) by {
                    assert(ObserverRegistry::routed(
                        before@,
                        mid@,
                        ids@.take(i as int).contains(k),
                        k,
                        event,
                    ));
                }
            }
            i += 1;
        }
        proof {
            assert(ids@.take(i as int) =~= ids@);
            assert forall|id: u32| #[trigger]
                ObserverRegistry::routed(
                    before@,
                    self@,
                    is_told(before@, *event, id),
                    id,
                    event,
                ) by {
                assert(ids@.contains(id) <==> is_told(before@, *event, id));
                assert(ObserverRegistry::routed(before@, self@, ids@.contains(id), id, event));
            }
        }
    }

    /// Delivers an event to one observer, wherever it is.
    pub fn send_to_session(&mut self, session_id: ObserverId, event: Arc<WorldEvent>)
        requires
            old(self).wf(),
            old(self).events_dropped < u64::MAX,
        ensures
            final(self).wf(),
            exists|gone: bool| #[trigger]
                ObserverRegistry::delivered(*old(self), *final(self), session_id, event, gone),
    {
        let _gone = self.deliver(session_id, &event);
    }
}

/// Law: a controller's buffer never holds more than its capacity, and its last
/// event is the one that came last.
pub proof fn buffer_is_bounded(b: Seq<Arc<WorldEvent>>, e: Arc<WorldEvent>)
    requires
        b.len() <= CONTROLLER_BUFFER_CAP,
    ensures
        buffered(b, e).len() <= CONTROLLER_BUFFER_CAP,
        buffered(b, e).last() == e,
{
}

/// Law: an event at a place is heard by no one whose rectangle does not cover it.
pub proof fn only_watchers_hear(map_id: u8, x: u16, y: u16, id: u32, o: ObserverView)
    requires
        hears(at_place(map_id, x, y), id, o),
    ensures
        o.map_id == map_id,
        o.view_rect.has(x as int, y as int),
{
}

} // verus!

//! All that packets tell: what the session sees, where the player is, which steps
//! are in doubt, and what observers hear of.

use std::sync::Arc;

use vstd::prelude::*;

use super::composite_tiles::CompositeTileProvider;
use super::observer_event::{emits, event_of, tells, ObserverEvent};
use super::session_view::{SessionRequest, SessionView};
use crate::collections::share;
use crate::coords::Facing;
use crate::ecumene::diff_overlay::DiffOverlay;
use crate::ecumene::movement::MovementValidator;
use crate::ecumene::static_provider::StaticTileProvider;
use crate::ecumene::tile_provider::TileProvider;
use crate::ecumene::tile_rect::TileRect;
use crate::packets::{be16, read_be16, ClientPacket, ServerPacket, DEFAULT_VIEW_RANGE};
use crate::rythmos::pending_queue::{AckOutcome, PendingQueue, PendingStep};
use crate::rythmos::position_tracker::PositionTracker;
use crate::rythmos::z_resolver::ZResolver;
use crate::vessel::static_data::StaticDataProvider;

verus! {

/// Why the steps in doubt were last dropped.
#[derive(Debug, Clone, Copy, PartialEq, Eq, Structural)]
pub enum DrainReason {
    /// They never were.
    Never,
    /// The server put the player somewhere.
    DrawGamePlayer,
    /// The server did not allow a step.
    MoveReject,
    /// The server answered another step than the oldest.
    MoveAckDesync,
    /// The player came to another world.
    SetMap,
    /// All was reset.
    Reset,
}

/// Where the player is and which steps are in doubt.
#[verifier::ext_equal]
pub struct MoveView {
    pub pos: PositionTracker,
    pub pending: Seq<PendingStep<Facing>>,
    pub accepted: bool,
    pub reason: DrainReason,
    pub count: nat,
}

impl MoveView {
    /// After all steps in doubt were dropped. Where there were none, nothing is
    /// noted.
    pub open spec fn drained(self, reason: DrainReason) -> MoveView {
        if self.pending.len() == 0 {
            self
        } else {
            MoveView { pending: Seq::empty(), reason, count: self.pending.len(), ..self }
        }
    }

    /// After the server allowed a step. The oldest step in doubt is taken if it is
    /// the one; `height` tells how high the player then stands.
    pub open spec fn acknowledged(
        self,
        sequence: u8,
        height: spec_fn(PositionTracker) -> Option<i8>,
    ) -> MoveView {
        if self.pending.len() > 0 && self.pending[0].sequence == sequence {
            let facing = self.pending[0].value;
            let there = self.pos.after_step(facing);
            MoveView {
                pos: if self.pos.facing.heading_spec() == facing.heading_spec() {
                    match height(there) {
                        Some(z) => PositionTracker { z, ..there },
                        None => there,
                    }
                } else {
                    there
                },
                pending: self.pending.subrange(1, self.pending.len() as int),
                accepted: true,
                ..self
            }
        } else {
            self.drained(DrainReason::MoveAckDesync)
        }
    }

    /// After a packet of the server.
    pub open spec fn after(
        self,
        data: Seq<u8>,
        packet: ServerPacket,
        height: spec_fn(PositionTracker) -> Option<i8>,
    ) -> MoveView {
        let m = MoveView { accepted: false, ..self };
        if data[0] == 0x20 {
            let placed = match packet {
                ServerPacket::DrawGamePlayer(p) => MoveView {
                    pos: m.pos.after_game_player(p),
                    ..m
                },
                _ => m,
            };
            placed.drained(DrainReason::DrawGamePlayer)
        } else if data[0] == 0xBF {
            if data.len() >= 5 && be16(data[3], data[4]) == 8 {
                m.drained(DrainReason::SetMap)
            } else {
                m
            }
        } else {
            match packet {
                ServerPacket::CharacterLocaleAndBody(p) => MoveView {
                    pos: m.pos.after_locale(p),
                    ..m
                },
                ServerPacket::MoveReject(r) => {
                    let d = m.drained(DrainReason::MoveReject);
                    MoveView {
                        pos: PositionTracker {
                            x: r.x,
                            y: r.y,
                            z: r.z,
                            facing: Facing { raw: r.direction },
                            ..d.pos
                        },
                        ..d
                    }
                },
                ServerPacket::MoveAck(a) => m.acknowledged(a.sequence, height),
                ServerPacket::UpdateMobile(u) => MoveView { pos: m.pos.after_update(u), ..m },
                ServerPacket::DrawMobile(d) => MoveView { pos: m.pos.after_draw(d@), ..m },
                _ => m,
            }
        }
    }
}

/// A session with the player's place, the steps in doubt and the events that
/// nobody has fetched.
pub struct ObserverPipeline<D: StaticDataProvider> {
    pub pos: PositionTracker,
    pub pending_moves: PendingQueue<Facing>,
    /// Whether the last packet allowed the oldest step in doubt.
    pub last_move_accepted: bool,
    pub last_drain_reason: DrainReason,
    /// How many steps were dropped last.
    pub last_drain_count: usize,
    pub session: SessionView<D>,
    pub pending_events: Vec<ObserverEvent>,
}

/// The map, the items in view and all that is remembered, as one source.
pub open spec fn ground_of<'a, D: StaticDataProvider>(
    s: &'a SessionView<D>,
) -> CompositeTileProvider<'a, D, super::session_view::SessionRegistry<D>> {
    CompositeTileProvider {
        base: StaticTileProvider {
            static_data: Some(&*s.registry.static_data->0),
            world: s.current_world,
            diff_overlay: if forall|w: u8|
                (#[trigger] s.diff_overlay.land(w)) is None && s.diff_overlay.objects(w) is None {
                None
            } else {
                Some(&s.diff_overlay)
            },
        },
        visible: &s.visible,
        shapes: &s.registry,
        static_data: &*s.registry.static_data->0,
    }
}

/// How high the player stands, where there is map data and a place to stand.
pub open spec fn height_of<D: StaticDataProvider>(
    s: SessionView<D>,
    p: PositionTracker,
) -> Option<i8> {
    if s.registry.static_data is Some {
        ground_of(&s).standing(p.x, p.y, p.z, p.facing.heading_spec())
    } else {
        None
    }
}

impl<D: StaticDataProvider> ObserverPipeline<D> {
    pub open spec fn wf(&self) -> bool {
        self.session.wf()
    }

    /// Where the player is and which steps are in doubt.
    pub open spec fn moves(&self) -> MoveView {
        MoveView {
            pos: self.pos,
            pending: self.pending_moves@,
            accepted: self.last_move_accepted,
            reason: self.last_drain_reason,
            count: self.last_drain_count as nat,
        }
    }

    /// How all starts.
    pub open spec fn starts(&self) -> bool {
        &&& self.moves() == (MoveView {
            pos: PositionTracker::unknown(),
            pending: Seq::empty(),
            accepted: false,
            reason: DrainReason::Never,
            count: 0,
        })
        &&& self.session.starts(0, 0, DEFAULT_VIEW_RANGE as u16)
        &&& self.pending_events@.len() == 0
    }

    /// A pipeline that has seen nothing.
    pub fn new(static_data: Option<Arc<D>>) -> (p: Self)
        requires
            static_data matches Some(d) ==> d.wf(),
        ensures
            p.wf(),
            p.starts(),
            p.session.registry.static_data == static_data,
            p.session.data_dir is None,
    {
        let session = match static_data {
            Some(sd) => SessionView::with_static_data(0, 0, DEFAULT_VIEW_RANGE as u16, sd),
            None => SessionView::new(0, 0, DEFAULT_VIEW_RANGE as u16),
        };
        ObserverPipeline {
            pos: PositionTracker::default(),
            pending_moves: PendingQueue::new(),
            last_move_accepted: false,
            last_drain_reason: DrainReason::Never,
            last_drain_count: 0,
            session,
            pending_events: Vec::new(),
        }
    }

    /// A pipeline that has seen nothing, with a place to read patches from.
    pub fn with_data_dir(static_data: Arc<D>, data_dir: String) -> (p: Self)
        requires
            static_data.wf(),
        ensures
            p.wf(),
            p.starts(),
            p.session.registry.static_data == Some(static_data),
            p.session.data_dir == Some(data_dir),
    {
        ObserverPipeline {
            pos: PositionTracker::default(),
            pending_moves: PendingQueue::new(),
            last_move_accepted: false,
            last_drain_reason: DrainReason::Never,
            last_drain_count: 0,
            session: SessionView::with_data_dir(
                0,
                0,
                DEFAULT_VIEW_RANGE as u16,
                static_data,
                data_dir,
            ),
            pending_events: Vec::new(),
        }
    }

    /// Forgets all but the map data.
    pub fn reset(&mut self)
        requires
            old(self).wf(),
        ensures
            final(self).wf(),
            final(self).starts(),
            final(self).session.registry.static_data == old(self).session.registry.static_data,
            final(self).session.data_dir is None,
    {
        let sd = match self.session.registry.static_data() {
            Some(d) => Some(share(d)),
            None => None,
        };
        *self = ObserverPipeline::new(sd);
    }

    pub fn pending_moves(&self) -> (q: &PendingQueue<Facing>)
        ensures
            *q == self.pending_moves,
    {
        &self.pending_moves
    }

    /// Drops all steps in doubt. That is not noted anywhere.
    pub fn clear_pending_moves(&mut self)
        requires
            old(self).wf(),
        ensures
            final(self).wf(),
            final(self).moves() == (MoveView { pending: Seq::empty(), ..old(self).moves() }),
            final(self).session == old(self).session,
            final(self).pending_events == old(self).pending_events,
    {
        self.pending_moves.clear();
    }

    pub fn view_rect(&self) -> (r: &TileRect)
        ensures
            *r == self.session.visible@.view_rect,
    {
        self.session.view_rect()
    }

    pub fn view_range(&self) -> (r: u16)
        ensures
            r == self.session.visible@.view_range,
    {
        self.session.view_range()
    }

    /// Fetches the events, the oldest first.
    pub fn drain_events(&mut self) -> (r: Vec<ObserverEvent>)
        requires
            old(self).wf(),
        ensures
            final(self).wf(),
            r == old(self).pending_events,
            final(self).pending_events@.len() == 0,
            final(self).moves() == old(self).moves(),
            final(self).session == old(self).session,
    {
        let mut r: Vec<ObserverEvent> = Vec::new();
        std::mem::swap(&mut r, &mut self.pending_events);
        r
    }

    /// Takes a packet of the client: a step that it asks for is in doubt until the
    /// server answers.
    pub fn ingest_c2s(&mut self, packet: &ClientPacket)
        requires
            old(self).wf(),
        ensures
            final(self).wf(),
            final(self).session == old(self).session,
            final(self).pending_events == old(self).pending_events,
            final(self).moves() == (MoveView {
                pending: match *packet {
                    ClientPacket::MoveRequest(r) => old(self).pending_moves@.push(
                        PendingStep { sequence: r.sequence, value: Facing { raw: r.direction } },
                    ),
                    ClientPacket::Opaque => old(self).pending_moves@,
                },
                ..old(self).moves()
            }),
    {
        if let ClientPacket::MoveRequest(req) = packet {
            self.pending_moves.push(req.sequence, Facing::new(req.direction));
        }
    }

    /// Whether a step that a packet allows stays off the rim of the map, where
    /// there is map data to stand on.
    pub open spec fn stays_inland(&self, packet: ServerPacket) -> bool {
        packet matches ServerPacket::MoveAck(a) ==> self.steps_inland(a.sequence)
    }

    /// Whether the step that an answer takes stays off the rim of the map.
    pub open spec fn steps_inland(&self, sequence: u8) -> bool {
        let q = self.pending_moves@;
        (q.len() > 0 && q[0].sequence == sequence && self.pos.facing.heading_spec()
            == q[0].value.heading_spec() && self.session.registry.static_data is Some) ==> {
            let there = self.pos.after_step(q[0].value);
            there.x < u16::MAX && there.y < u16::MAX
        }
    }

    /// Takes a packet of the server: its bytes and what a codec read out of them.
    /// First the session takes it, then the player's place and the steps in doubt
    /// follow, then observers get their event. The result is what the session needs
    /// before it can go on.
    pub fn ingest_s2c(&mut self, data: &[u8], packet: &ServerPacket) -> (r: SessionRequest)
        requires
            old(self).wf(),
            old(self).stays_inland(*packet),
        ensures
            final(self).wf(),
            data@.len() == 0 ==> *final(self) == *old(self) && r is Nothing,
            data@.len() > 0 ==> {
                &&& SessionView::requests(
                    old(self).session,
                    final(self).session,
                    data@,
                    *packet,
                    r,
                )
                &&& if r is Nothing {
                    SessionView::ingested(old(self).session, final(self).session, data@, *packet)
                } else {
                    SessionView::ingests(old(self).session, final(self).session, data@, *packet)
                }
                &&& final(self).moves() == old(self).moves().after(
                    data@,
                    *packet,
                    |p: PositionTracker| height_of(final(self).session, p),
                )
                &&& Self::heard(old(self).pending_events@, final(self).pending_events@, *packet)
            },
    {
        if data.len() == 0 {
            return SessionRequest::Nothing;
        }
        self.last_move_accepted = false;
        let r = self.session.ingest_packet(data, packet);
        self.follow(data, packet);
        self.emit_events(packet);
        r
    }

    /// Whether `after` is what a packet adds to the events.
    pub open spec fn heard(
        before: Seq<ObserverEvent>,
        after: Seq<ObserverEvent>,
        packet: ServerPacket,
    ) -> bool {
        if emits(packet) {
            &&& after.len() == before.len() + 1
            &&& after.drop_last() == before
            &&& tells(after.last(), packet)
        } else {
            after == before
        }
    }

    /// Adds what observers hear of after a packet.
    fn emit_events(&mut self, packet: &ServerPacket)
        ensures
            Self::heard(old(self).pending_events@, final(self).pending_events@, *packet),
            final(self).moves() == old(self).moves(),
            final(self).session == old(self).session,
    {
        if let Some(ev) = event_of(packet) {
            self.pending_events.push(ev);
            assert(self.pending_events@.drop_last() =~= old(self).pending_events@);
        }
    }

    /// Drops all steps in doubt and notes why, if there are any.
    fn drain(&mut self, reason: DrainReason)
        ensures
            final(self).moves() == old(self).moves().drained(reason),
            final(self).session == old(self).session,
            final(self).pending_events == old(self).pending_events,
    {
        if !self.pending_moves.is_empty() {
            self.last_drain_reason = reason;
            self.last_drain_count = self.pending_moves.len();
            self.pending_moves.clear();
        }
    }

    /// Follows the player through a packet of the server.
    fn follow(&mut self, data: &[u8], packet: &ServerPacket)
        requires
            data@.len() > 0,
            old(self).session.wf(),
            old(self).stays_inland(*packet),
            !old(self).last_move_accepted,
        ensures
            final(self).session == old(self).session,
            final(self).pending_events == old(self).pending_events,
            final(self).moves() == old(self).moves().after(
                data@,
                *packet,
                |p: PositionTracker| height_of(old(self).session, p),
            ),
    {
        if data[0] == 0x20 {
            if let ServerPacket::DrawGamePlayer(p) = packet {
                self.pos.apply_draw_game_player(p);
            }
            self.drain(DrainReason::DrawGamePlayer);
            return;
        }
        if data[0] == 0xBF {
            if data.len() >= 5 && read_be16(data, 3) == 8 {
                self.drain(DrainReason::SetMap);
            }
            return;
        }
        match packet {
            ServerPacket::CharacterLocaleAndBody(p) => {
                self.pos.apply_character_locale(p);
            },
            ServerPacket::MoveReject(rej) => {
                self.drain(DrainReason::MoveReject);
                self.pos.x = rej.x;
                self.pos.y = rej.y;
                self.pos.z = rej.z;
                self.pos.facing = Facing::new(rej.direction);
            },
            ServerPacket::MoveAck(ack) => {
                self.acknowledge(ack.sequence);
            },
            ServerPacket::UpdateMobile(m) => {
                self.pos.apply_update_mobile(m);
            },
            ServerPacket::DrawMobile(m) => {
                self.pos.apply_draw_mobile(m);
            },
            _ => {},
        }
    }

    /// Takes the server's leave for a step.
    fn acknowledge(&mut self, sequence: u8)
        requires
            old(self).session.wf(),
            old(self).steps_inland(sequence),
        ensures
            final(self).session == old(self).session,
            final(self).pending_events == old(self).pending_events,
            final(self).moves() == old(self).moves().acknowledged(
                sequence,
                |p: PositionTracker| height_of(old(self).session, p),
            ),
    {
        match self.pending_moves.on_ack(sequence) {
            AckOutcome::Matched(facing) => {
                let moved = self.pos.step(facing);
                if moved {
                    self.resolve_z();
                }
                self.last_move_accepted = true;
            },
            AckOutcome::Desync(drained) => {
                if drained.len() > 0 {
                    self.last_drain_reason = DrainReason::MoveAckDesync;
                    self.last_drain_count = drained.len();
                }
            },
        }
    }

    /// Puts the player at the height where they stand.
    fn resolve_z(&mut self)
        requires
            old(self).session.wf(),
            old(self).session.registry.static_data is Some ==> old(self).pos.x < u16::MAX && old(self).pos.y < u16::MAX,
        ensures
            final(self).session == old(self).session,
            final(self).pending_events == old(self).pending_events,
            final(self).moves() == (MoveView {
                pos: match height_of(old(self).session, old(self).pos) {
                    Some(z) => PositionTracker { z, ..old(self).pos },
                    None => old(self).pos,
                },
                ..old(self).moves()
            }),
    {
        let height: Option<i8> = match self.session.registry.static_data() {
            Some(sd) => {
                let overlay: Option<&DiffOverlay> = if self.session.diff_overlay.is_empty() {
                    None
                } else {
                    Some(&self.session.diff_overlay)
                };
                let ground = CompositeTileProvider::with_diff(
                    &**sd,
                    self.session.current_world,
                    &self.session.visible,
                    &self.session.registry,
                    overlay,
                );
                assert(ground == ground_of(&self.session));
                MovementValidator::new(&ground).resolve_standing_z(
                    self.pos.x,
                    self.pos.y,
                    self.pos.z,
                    self.pos.facing.heading(),
                )
            },
            None => None,
        };
        if let Some(z) = height {
            self.pos.z = z;
        }
    }
}

/// Law: a packet that is not about the player's world, such as any other packet
/// of packets, leaves the steps in doubt alone.
pub proof fn other_news_drop_no_steps(
    m: MoveView,
    data: Seq<u8>,
    packet: ServerPacket,
    height: spec_fn(PositionTracker) -> Option<i8>,
)
    requires
        data.len() > 0,
        data[0] == 0xBF,
        data.len() < 5 || be16(data[3], data[4]) != 8,
    ensures
        m.after(data, packet, height) == (MoveView { accepted: false, ..m }),
{
}

/// Law: a step counts as allowed only by the packet that answers the oldest one in
/// doubt, and then exactly that step is no longer in doubt.
pub proof fn accepted_is_the_oldest(
    m: MoveView,
    data: Seq<u8>,
    packet: ServerPacket,
    height: spec_fn(PositionTracker) -> Option<i8>,
)
    requires
        data.len() > 0,
        m.after(data, packet, height).accepted,
    ensures
        packet matches ServerPacket::MoveAck(a) && m.pending.len() > 0 && m.pending[0].sequence
            == a.sequence,
        m.after(data, packet, height).pending == m.pending.subrange(1, m.pending.len() as int),
        m.after(data, packet, height).pos.facing == m.pending[0].value,
{
}

} // verus!

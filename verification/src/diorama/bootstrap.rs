//! What a client that joins late must be sent to see the world as it is.

use bytes::Bytes;
use vstd::prelude::*;

use super::pipeline::ObserverPipeline;
use super::visible_world::{DataView, EntityData, EntityView, VisibleView, WorldEntity};
use crate::collections::{lists_serials, serials_up};
use crate::packets::{
    CharacterLocaleAndBody, DrawGamePlayer, DrawMobile, MobileView, ObjectInfo, ObjectInfoSA,
    DEFAULT_VIEW_RANGE,
};
use crate::raw_bytes::{bytes_of, share_bytes};
use crate::rythmos::position_tracker::PositionTracker;
use crate::vessel::static_data::StaticDataProvider;

verus! {

/// Size of a map of which nothing is known.
pub const DEFAULT_MAP_WIDTH: u16 = 0x1800;
pub const DEFAULT_MAP_HEIGHT: u16 = 0x1000;

/// A packet for a client that joins.
#[derive(Debug)]
pub enum BootstrapPacket {
    CharacterLocaleAndBody(CharacterLocaleAndBody),
    /// To be sent as it came.
    Raw(Bytes),
    SetMap { world: u8 },
    ClientViewRange { range: u8 },
    DrawGamePlayer(DrawGamePlayer),
    ObjectInfo(ObjectInfo),
    ObjectInfoSA(ObjectInfoSA),
    DrawMobile(DrawMobile),
    LoginComplete,
}

/// What a [`BootstrapPacket`] amounts to.
#[verifier::ext_equal]
pub enum BootstrapView {
    CharacterLocaleAndBody(CharacterLocaleAndBody),
    Raw(Seq<u8>),
    SetMap { world: u8 },
    ClientViewRange { range: u8 },
    DrawGamePlayer(DrawGamePlayer),
    ObjectInfo(ObjectInfo),
    ObjectInfoSA(ObjectInfoSA),
    DrawMobile(MobileView),
    LoginComplete,
}

impl View for BootstrapPacket {
    type V = BootstrapView;

    open spec fn view(&self) -> BootstrapView {
        match self {
            BootstrapPacket::CharacterLocaleAndBody(p) => BootstrapView::CharacterLocaleAndBody(*p),
            BootstrapPacket::Raw(b) => BootstrapView::Raw(bytes_of(*b)),
            BootstrapPacket::SetMap { world } => BootstrapView::SetMap { world: *world },
            BootstrapPacket::ClientViewRange { range } => BootstrapView::ClientViewRange {
                range: *range,
            },
            BootstrapPacket::DrawGamePlayer(p) => BootstrapView::DrawGamePlayer(*p),
            BootstrapPacket::ObjectInfo(p) => BootstrapView::ObjectInfo(*p),
            BootstrapPacket::ObjectInfoSA(p) => BootstrapView::ObjectInfoSA(*p),
            BootstrapPacket::DrawMobile(p) => BootstrapView::DrawMobile(p@),
            BootstrapPacket::LoginComplete => BootstrapView::LoginComplete,
        }
    }
}

/// What a list of packets amounts to.
pub open spec fn packet_views(s: Seq<BootstrapPacket>) -> Seq<BootstrapView> {
    s.map_values(|p: BootstrapPacket| p@)
}

/// Width and height of the session's map.
pub open spec fn map_size<D: StaticDataProvider>(static_data: Option<&D>, world: u8) -> (
    u16,
    u16,
) {
    match static_data {
        Some(d) => match d.size_of_map(world) {
            Some(s) => s,
            None => (DEFAULT_MAP_WIDTH, DEFAULT_MAP_HEIGHT),
        },
        None => (DEFAULT_MAP_WIDTH, DEFAULT_MAP_HEIGHT),
    }
}

/// The player's body and place.
pub open spec fn locale_of(p: PositionTracker, size: (u16, u16)) -> CharacterLocaleAndBody {
    CharacterLocaleAndBody {
        serial: p.serial,
        body_type: p.body_type,
        x: p.x,
        y: p.y,
        z: p.z,
        facing: p.facing.raw,
        map_width_minus8: size.0,
        map_height: size.1,
    }
}

/// The player's place.
pub open spec fn place_of(p: PositionTracker) -> DrawGamePlayer {
    DrawGamePlayer {
        serial: p.serial,
        body_type: p.body_type,
        hue: p.hue,
        flags: p.flags,
        x: p.x,
        y: p.y,
        z: p.z,
        direction: p.facing.raw,
    }
}

/// An object in the form in which it came.
pub open spec fn object_packet(e: EntityView) -> BootstrapView {
    match e.data {
        DataView::ItemClassic { packet, .. } => BootstrapView::ObjectInfo(packet),
        DataView::ItemSA { packet, .. } => BootstrapView::ObjectInfoSA(packet),
        DataView::Mobile { packet } => BootstrapView::DrawMobile(packet),
    }
}

/// The listed objects, each in the form in which it came.
pub open spec fn object_packets(v: VisibleView, serials: Seq<u32>) -> Seq<BootstrapView> {
    serials.map_values(|s: u32| object_packet(v.entities[s]))
}

/// A packet that may be missing.
pub open spec fn if_some(p: Option<Bytes>) -> Seq<BootstrapView> {
    match p {
        Some(b) => seq![BootstrapView::Raw(bytes_of(b))],
        None => Seq::empty(),
    }
}

/// What comes before the objects: the player's body where it is known, the
/// announcement of features, the world, the announcement of patches, the view
/// range where it is not the usual one, and the player's place.
pub open spec fn preamble<D: StaticDataProvider>(
    observer: &ObserverPipeline<D>,
    size: (u16, u16),
) -> Seq<BootstrapView> {
    let s = &observer.session;
    let range = s.visible@.view_range;
    (if observer.pos.serial != 0 {
        seq![BootstrapView::CharacterLocaleAndBody(locale_of(observer.pos, size))]
    } else {
        Seq::empty()
    }) + if_some(s.last_enable_features) + seq![
        BootstrapView::SetMap { world: s.current_world },
    ] + if_some(s.last_enable_map_diff) + (if range != DEFAULT_VIEW_RANGE {
        seq![BootstrapView::ClientViewRange { range: (range % 256) as u8 }]
    } else {
        Seq::empty()
    }) + (if observer.pos.serial != 0 {
        seq![BootstrapView::DrawGamePlayer(place_of(observer.pos))]
    } else {
        Seq::empty()
    })
}

fn push_packet(out: &mut Vec<BootstrapPacket>, p: BootstrapPacket)
    ensures
        packet_views(final(out)@) == packet_views(old(out)@).push(p@),
{
    out.push(p);
    assert(packet_views(out@) =~= packet_views(old(out)@).push(p@));
}

fn object_of(e: &WorldEntity) -> (p: BootstrapPacket)
    ensures
        p@ == object_packet(e@),
{
    match &e.data {
        EntityData::ItemClassic { packet, .. } => BootstrapPacket::ObjectInfo(*packet),
        EntityData::ItemSA { packet, .. } => BootstrapPacket::ObjectInfoSA(*packet),
        EntityData::Mobile { packet } => BootstrapPacket::DrawMobile(packet.clone()),
    }
}

/// The packets that a client which joins must be sent, in order. Objects come in
/// ascending order of their serials, and the end of the login comes last.
pub fn generate_bootstrap<D: StaticDataProvider>(
    observer: &ObserverPipeline<D>,
    static_data: Option<&D>,
) -> (out: Vec<BootstrapPacket>)
    requires
        static_data matches Some(d) ==> d.wf(),
    ensures
        packet_views(out@) == preamble(
            observer,
            map_size(static_data, observer.session.current_world),
        ) + object_packets(
            observer.session.visible@,
            serials_up(observer.session.visible@.entities.dom()),
        ) + seq![BootstrapView::LoginComplete],
        lists_serials(
            serials_up(observer.session.visible@.entities.dom()),
            observer.session.visible@.entities.dom(),
        ),
{
    let mut out: Vec<BootstrapPacket> = Vec::new();
    let world: u8 = observer.session.current_world;
    let size: (u16, u16) = match static_data {
        Some(d) => match d.map_tile_dimensions(world) {
            Some(s) => s,
            None => (DEFAULT_MAP_WIDTH, DEFAULT_MAP_HEIGHT),
        },
        None => (DEFAULT_MAP_WIDTH, DEFAULT_MAP_HEIGHT),
    };
    assert(packet_views(out@) =~= Seq::<BootstrapView>::empty());
    if observer.pos.is_ready() {
        push_packet(
            &mut out,
            BootstrapPacket::CharacterLocaleAndBody(
                CharacterLocaleAndBody {
                    serial: observer.pos.serial,
                    body_type: observer.pos.body_type,
                    x: observer.pos.x,
                    y: observer.pos.y,
                    z: observer.pos.z,
                    facing: observer.pos.facing.raw(),
                    map_width_minus8: size.0,
                    map_height: size.1,
                },
            ),
        );
    }
    if let Some(raw) = &observer.session.last_enable_features {
        push_packet(&mut out, BootstrapPacket::Raw(share_bytes(raw)));
    }
    push_packet(&mut out, BootstrapPacket::SetMap { world });
    if let Some(raw) = &observer.session.last_enable_map_diff {
        push_packet(&mut out, BootstrapPacket::Raw(share_bytes(raw)));
    }
    let range: u16 = observer.session.view_range();
    if range != DEFAULT_VIEW_RANGE as u16 {
        push_packet(&mut out, BootstrapPacket::ClientViewRange { range: (range % 256) as u8 });
    }
    if observer.pos.is_ready() {
        push_packet(
            &mut out,
            BootstrapPacket::DrawGamePlayer(observer.pos.to_draw_game_player()),
        );
    }
    let ghost pre = packet_views(out@);
    assert(pre =~= preamble(observer, size));
    let entities = observer.session.visible.iter();
    let ghost v = observer.session.visible@;
    let ghost all = serials_up(v.entities.dom());
    let mut i: usize = 0;
    assert(packet_views(out@) =~= pre + object_packets(v, all.take(0)));
    while i < entities.len()
        invariant
            i <= entities@.len(),
            entities@.len() == all.len(),
            forall|j: int|
                0 <= j < entities@.len() ==> (#[trigger] entities@[j])@ == v.entities[all[j]],
            packet_views(out@) == pre + object_packets(v, all.take(i as int)),
        decreases entities@.len() - i,
    {
        assert(entities@[i as int]@ == v.entities[all[i as int]]);
        push_packet(&mut out, object_of(entities[i]));
        assert(packet_views(out@) =~= pre + object_packets(v, all.take(i + 1)));
        i += 1;
    }
    assert(all.take(i as int) =~= all);
    push_packet(&mut out, BootstrapPacket::LoginComplete);
    assert(packet_views(out@) =~= pre + object_packets(v, all) + seq![
        BootstrapView::LoginComplete,
    ]);
    out
}

/// What a client that sees nothing yet sees after packets of objects.
pub open spec fn shown(v: VisibleView, packets: Seq<BootstrapView>) -> VisibleView
    decreases packets.len(),
{
    if packets.len() == 0 {
        v
    } else {
        let w = shown(v, packets.drop_last());
        match packets.last() {
            BootstrapView::ObjectInfo(p) => w.with_classic(p),
            BootstrapView::ObjectInfoSA(p) => w.with_sa(p),
            BootstrapView::DrawMobile(m) => w.with_mobile(m),
            _ => w,
        }
    }
}

proof fn lemma_shown(v: VisibleView, empty: VisibleView, all: Seq<u32>, n: int)
    requires
        v.wf(),
        lists_serials(all, v.entities.dom()),
        0 <= n <= all.len(),
        empty.entities == Map::<u32, EntityView>::empty(),
    ensures
        ({
            let w = shown(empty, object_packets(v, all.take(n)));
            forall|s: u32|
                {
                    &&& #[trigger] w.entities.contains_key(s) <==> all.take(n).contains(s)
                    &&& w.entities.contains_key(s) ==> w.entities[s] == v.entities[s].marked(false)
                }
        }),
    decreases n,
{
    let list = object_packets(v, all.take(n));
    let post = all.take(n);
    if n == 0 {
        assert(list =~= Seq::<BootstrapView>::empty());
    } else {
        lemma_shown(v, empty, all, n - 1);
        let s0 = all[n - 1];
        let pre = all.take(n - 1);
        assert(list.drop_last() =~= object_packets(v, all.take(n - 1)));
        assert(list.last() == object_packet(v.entities[s0]));
        assert(all.contains(s0));
        assert(v.well_kept(s0));
        let w0 = shown(empty, list.drop_last());
        let w = shown(empty, list);
        assert(!all.take(n - 1).contains(s0)) by {
            if all.take(n - 1).contains(s0) {
                let j = choose|j: int| 0 <= j < pre.len() && pre[j] == s0;
                assert(all[j] < all[n - 1]);
            }
        }
        assert(!w0.entities.contains_key(s0));
        assert forall|s: u32|
            {
                &&& #[trigger] w.entities.contains_key(s) <==> all.take(n).contains(s)
                &&& w.entities.contains_key(s) ==> w.entities[s] == v.entities[s].marked(false)
            } by {
            assert(w0.entities.contains_key(s) <==> all.take(n - 1).contains(s));
            if all.take(n).contains(s) {
                let j = choose|j: int| 0 <= j < post.len() && post[j] == s;
                if j < n - 1 {
                    assert(pre[j] == s);
                }
            }
            if all.take(n - 1).contains(s) {
                let j = choose|j: int| 0 <= j < pre.len() && pre[j] == s;
                assert(post[j] == s);
            }
            assert(post[n - 1] == s0);
        }
    }
}

/// Law: a client that sees nothing yet sees the same objects after the packets
/// as the observer does, each with all that the server said of it; only which of
/// them were opened as containers it does not know.
pub proof fn bootstrap_restores_view(v: VisibleView, empty: VisibleView)
    requires
        v.wf(),
        lists_serials(serials_up(v.entities.dom()), v.entities.dom()),
        empty.entities == Map::<u32, EntityView>::empty(),
    ensures
        ({
            let w = shown(empty, object_packets(v, serials_up(v.entities.dom())));
            &&& w.entities.dom() == v.entities.dom()
            &&& forall|s: u32| #[trigger]
                w.entities.contains_key(s) ==> w.entities[s] == v.entities[s].marked(false)
        }),
{
    let all = serials_up(v.entities.dom());
    lemma_shown(v, empty, all, all.len() as int);
    assert(all.take(all.len() as int) =~= all);
    let w = shown(empty, object_packets(v, all));
    assert(w.entities.dom() =~= v.entities.dom()) by {
        assert forall|s: u32| w.entities.dom().contains(s) <==> v.entities.dom().contains(s) by {
            assert(w.entities.contains_key(s) <==> all.contains(s));
        }
    }
}

} // verus!

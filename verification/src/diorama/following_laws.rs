//! Where the player is after packets of the server, and what observers hear of them.

use vstd::prelude::*;

use super::observer_event::{emits, tells, ObserverEvent};
use super::pipeline::MoveView;
use crate::coords::Facing;
use crate::packets::{
    be16, be32, CharacterLocaleAndBody, DrawGamePlayer, GeneralInfo, MobileView, MoveAck,
    MoveReject, ServerPacket, UpdateMobile,
};
use crate::rythmos::position_tracker::PositionTracker;

verus! {

/// Whether two places of a player differ in nothing but where they are.
pub open spec fn same_looks(p: PositionTracker, q: PositionTracker) -> bool {
    p.serial == q.serial && p.body_type == q.body_type && p.hue == q.hue && p.flags == q.flags
}

/// Law: one who faces the way of a step goes one tile that way, around the rim of the map
/// if need be; one who faces another way only turns. Neither changes the height or the
/// looks.
pub proof fn players_turn_before_they_walk(p: PositionTracker, f: Facing)
    ensures
        ({
            let q = p.after_step(f);
            &&& q.facing == f
            &&& q.z == p.z
            &&& same_looks(p, q)
            &&& p.facing.raw % 8 == f.raw % 8 ==> {
                &&& (q.x - p.x - f.heading_spec().dx()) % 65536 == 0
                &&& (q.y - p.y - f.heading_spec().dy()) % 65536 == 0
            }
            &&& p.facing.raw % 8 != f.raw % 8 ==> q.x == p.x && q.y == p.y
        }),
{
    crate::coords::running_keeps_the_heading(p.facing, 0);
    crate::coords::running_keeps_the_heading(f, 0);
    crate::coords::headings_go_around(p.facing.raw as int % 8);
    crate::coords::headings_go_around(f.raw as int % 8);
}

/// Law: news of the player say who and where the player is; news of others, and news that
/// come before it is known who the player is, change nothing.
pub proof fn news_of_the_player_are_taken(
    p: PositionTracker,
    l: CharacterLocaleAndBody,
    d: DrawGamePlayer,
    u: UpdateMobile,
    m: MobileView,
)
    ensures
        ({
            let q = p.after_locale(l);
            &&& q.serial == l.serial && q.body_type == l.body_type
            &&& q.x == l.x && q.y == l.y && q.z == l.z && q.facing.raw == l.facing
            &&& q.hue == p.hue && q.flags == p.flags
        }),
        ({
            let q = p.after_game_player(d);
            &&& q.serial == d.serial && q.body_type == d.body_type && q.hue == d.hue && q.flags
                == d.flags
            &&& q.x == d.x && q.y == d.y && q.z == d.z && q.facing.raw == d.direction
        }),
        p.serial == 0 || u.serial != p.serial ==> p.after_update(u) == p,
        p.serial != 0 && u.serial == p.serial ==> {
            let q = p.after_update(u);
            &&& q.serial == p.serial && q.body_type == u.model && q.hue == u.hue && q.flags
                == u.status_flags
            &&& q.x == u.x && q.y == u.y && q.z == u.z && q.facing.raw == u.direction
        },
        p.serial == 0 || m.serial != p.serial ==> p.after_draw(m) == p,
        p.serial != 0 && m.serial == p.serial ==> {
            let q = p.after_draw(m);
            &&& q.serial == p.serial && q.body_type == m.graphic && q.hue == m.color && q.flags
                == m.status
            &&& q.x == m.x && q.y == m.y && q.z == m.z && q.facing.raw == m.direction
        },
{
}

/// Law: the answer to the oldest step in doubt takes that step, and that one alone: the
/// player goes or turns, and stands as high as the ground says there, if it says. Any other
/// answer takes none, and no step is in doubt any more.
pub proof fn answers_take_the_oldest_step(
    m: MoveView,
    data: Seq<u8>,
    a: MoveAck,
    height: spec_fn(PositionTracker) -> Option<i8>,
)
    requires
        data.len() > 0,
        data[0] != 0x20,
        data[0] != 0xBF,
    ensures
        ({
            let n = m.after(data, ServerPacket::MoveAck(a), height);
            if m.pending.len() > 0 && m.pending[0].sequence == a.sequence {
                let there = m.pos.after_step(m.pending[0].value);
                &&& n.accepted
                &&& n.pending.len() == m.pending.len() - 1
                &&& forall|i: int|
                    0 <= i < n.pending.len() ==> #[trigger] n.pending[i] == m.pending[i + 1]
                &&& n.pos.x == there.x && n.pos.y == there.y && n.pos.facing
                    == m.pending[0].value
                &&& same_looks(n.pos, m.pos)
                &&& m.pos.facing.heading_spec() != m.pending[0].value.heading_spec() ==> n.pos.z
                    == m.pos.z
                &&& m.pos.facing.heading_spec() == m.pending[0].value.heading_spec() ==> match height(
                    there,
                ) {
                    Some(z) => n.pos.z == z,
                    None => n.pos.z == m.pos.z,
                }
                &&& n.reason == m.reason && n.count == m.count
            } else {
                &&& !n.accepted
                &&& n.pending.len() == 0
                &&& n.pos == m.pos
                &&& m.pending.len() > 0 ==> n.reason is MoveAckDesync && n.count
                    == m.pending.len()
                &&& m.pending.len() == 0 ==> n.reason == m.reason && n.count == m.count
            }
        }),
{
}

/// Law: a refused step puts the player where the server says, and no step is in doubt any
/// more; so does the server when it places the player. One who comes to another map has no
/// step in doubt either, and is where they were.
pub proof fn the_server_has_the_last_word(
    m: MoveView,
    data: Seq<u8>,
    r: MoveReject,
    d: DrawGamePlayer,
    other: ServerPacket,
    height: spec_fn(PositionTracker) -> Option<i8>,
)
    requires
        data.len() > 0,
    ensures
        data[0] != 0x20 && data[0] != 0xBF ==> {
            let n = m.after(data, ServerPacket::MoveReject(r), height);
            &&& n.pos.x == r.x && n.pos.y == r.y && n.pos.z == r.z && n.pos.facing.raw
                == r.direction
            &&& same_looks(n.pos, m.pos)
            &&& n.pending.len() == 0
            &&& !n.accepted
            &&& m.pending.len() > 0 ==> n.reason is MoveReject && n.count == m.pending.len()
        },
        data[0] == 0x20 ==> {
            let n = m.after(data, ServerPacket::DrawGamePlayer(d), height);
            &&& n.pos == m.pos.after_game_player(d)
            &&& n.pending.len() == 0
            &&& !n.accepted
            &&& m.pending.len() > 0 ==> n.reason is DrawGamePlayer && n.count == m.pending.len()
        },
        data[0] == 0xBF && data.len() >= 5 && data[3] == 0 && data[4] == 8 ==> {
            let n = m.after(data, other, height);
            &&& n.pos == m.pos
            &&& n.pending.len() == 0
            &&& !n.accepted
            &&& m.pending.len() > 0 ==> n.reason is SetMap && n.count == m.pending.len()
        },
        data[0] == 0xBF && !(data.len() >= 5 && data[3] == 0 && data[4] == 8) ==> {
            let n = m.after(data, other, height);
            &&& n.pos == m.pos
            &&& n.pending == m.pending
            &&& !n.accepted
            &&& n.reason == m.reason && n.count == m.count
        },
{
}

/// Law: all other news leave the steps in doubt alone; those of mobiles and the first ones
/// of the player move the player as they say.
pub proof fn other_news_only_move_the_player(
    m: MoveView,
    data: Seq<u8>,
    packet: ServerPacket,
    height: spec_fn(PositionTracker) -> Option<i8>,
)
    requires
        data.len() > 0,
        data[0] != 0x20,
        data[0] != 0xBF,
        !(packet is MoveAck),
        !(packet is MoveReject),
    ensures
        ({
            let n = m.after(data, packet, height);
            &&& n.pending == m.pending
            &&& !n.accepted
            &&& n.reason == m.reason && n.count == m.count
            &&& packet matches ServerPacket::CharacterLocaleAndBody(p) ==> n.pos
                == m.pos.after_locale(p)
            &&& packet matches ServerPacket::UpdateMobile(u) ==> n.pos == m.pos.after_update(u)
            &&& packet matches ServerPacket::DrawMobile(d) ==> n.pos == m.pos.after_draw(d@)
            &&& !(packet is CharacterLocaleAndBody) && !(packet is UpdateMobile) && !(
            packet is DrawMobile) ==> n.pos == m.pos
        }),
{
}

/// Law: the bytes of a number in a packet are read with the greatest first, so that a
/// greater first byte makes a greater number.
pub proof fn numbers_begin_with_their_greatest_byte(a: u8, b: u8, c: u8, d: u8)
    ensures
        be16(a, b) / 256 == a && be16(a, b) % 256 == b,
        be32(a, b, c, d) / 0x100_0000 == a,
        be32(a, b, c, d) % 0x100 == d,
        be32(a, b, c, d) / 0x1_0000 == be16(a, b) && be32(a, b, c, d) % 0x1_0000 == be16(c, d),
{
}

/// Law: of a mobile that is drawn or moves observers hear its serial, its looks and where
/// it is, as the packet has them; it appears when it is drawn and moves when it is updated.
pub proof fn mobiles_are_heard_of(ev: ObserverEvent, packet: ServerPacket)
    requires
        tells(ev, packet),
    ensures
        packet matches ServerPacket::DrawMobile(m) ==> (ev matches ObserverEvent::MobileAppeared {
            serial,
            graphic,
            color,
            x,
            y,
            z,
            direction,
            notoriety,
        } && serial == m.serial && graphic == m.graphic && color == m.color && x == m.x && y == m.y
            && z == m.z && direction == m.direction && notoriety == m.notoriety),
        packet matches ServerPacket::UpdateMobile(m) ==> (ev matches ObserverEvent::MobileMoved {
            serial,
            graphic,
            color,
            x,
            y,
            z,
            direction,
            notoriety,
        } && serial == m.serial && graphic == m.model && color == m.hue && x == m.x && y == m.y && z
            == m.z && direction == m.direction && notoriety == m.notoriety),
        packet matches ServerPacket::DrawGamePlayer(p) ==> (ev
            matches ObserverEvent::PositionChanged { x, y, z, direction } && x == p.x && y == p.y
            && z == p.z && direction == p.direction),
        packet matches ServerPacket::UpdateHealth(u) ==> (ev matches ObserverEvent::HpUpdated {
            serial,
            hits,
            max_hits,
        } && serial == u.serial && hits == u.current && max_hits == u.max),
        packet matches ServerPacket::UpdateMana(u) ==> (ev matches ObserverEvent::ManaUpdated {
            serial,
            mana,
            max_mana,
        } && serial == u.serial && mana == u.current && max_mana == u.max),
        packet matches ServerPacket::UpdateStamina(u) ==> (ev
            matches ObserverEvent::StaminaUpdated { serial, stamina, max_stamina } && serial
            == u.serial && stamina == u.current && max_stamina == u.max),
        packet matches ServerPacket::GeneralInfo(GeneralInfo::Damage { serial: s, damage }) ==> (ev
            matches ObserverEvent::DamageDealt { serial, amount } && serial == s && amount
            == damage),
{
}

/// Law: what disappears is an item if its serial is 0x40000000 or more, and a mobile
/// otherwise; an item that appears has the serial, place, looks and amount of its packet,
/// without the bits that only say what else is in the packet.
pub proof fn items_are_heard_of(ev: ObserverEvent, packet: ServerPacket)
    requires
        tells(ev, packet),
    ensures
        packet matches ServerPacket::DeleteObject { serial: s } ==> {
            &&& s >= 0x4000_0000 ==> (ev matches ObserverEvent::ItemRemoved { serial } && serial
                == s)
            &&& s < 0x4000_0000 ==> (ev matches ObserverEvent::MobileRemoved { serial } && serial
                == s)
        },
        packet matches ServerPacket::ObjectInfoSA(o) ==> (ev matches ObserverEvent::ItemAppeared {
            serial,
            graphic,
            color,
            x,
            y,
            z,
            count,
        } && serial == o.serial && graphic == o.graphic && color == o.hue && x == o.x && y == o.y
            && z == o.z && count == o.amount),
        packet matches ServerPacket::ObjectInfo(o) ==> (ev matches ObserverEvent::ItemAppeared {
            serial,
            graphic,
            color,
            x,
            y,
            z,
            count,
        } && serial == o.object_id % 0x8000_0000 && graphic == o.graphic % 0x8000 && x == o.x
            % 0x8000 && y == o.y % 0x4000 && z == o.z && (o.dye matches Some(c) ==> color == c) && (
        o.dye is None ==> color == 0) && (o.amount matches Some(n) ==> count == n) && (
        o.amount is None ==> count == 1)),
{
    if let ServerPacket::ObjectInfo(o) = packet {
        let a = o.object_id;
        let g = o.graphic;
        let x = o.x;
        let y = o.y;
        assert(a & 0x7FFF_FFFF == a % 0x8000_0000) by (bit_vector);
        assert(g & 0x7FFF == g % 0x8000) by (bit_vector);
        assert(x & 0x7FFF == x % 0x8000) by (bit_vector);
        assert(y & 0x3FFF == y % 0x4000) by (bit_vector);
    }
}

/// Law: sounds, effects, light, weather, season and music are heard of as they are sent,
/// and a flag of one byte counts as set if it is not zero.
pub proof fn surroundings_are_heard_of(ev: ObserverEvent, packet: ServerPacket)
    requires
        tells(ev, packet),
    ensures
        packet matches ServerPacket::PlaySoundEffect(s) ==> (ev
            matches ObserverEvent::SoundPlayed { sound_id, x, y, z } && sound_id == s.sound_model
            && x == s.x && y == s.y && z == s.z),
        packet matches ServerPacket::GraphicalEffect(e) ==> (ev
            matches ObserverEvent::EffectPlayed {
            direction_type,
            source_serial,
            target_serial,
            graphic,
            x,
            y,
            z,
            target_x,
            target_y,
            target_z,
            speed,
            duration,
            fixed_direction,
            explode,
        } && direction_type == e.direction_type && source_serial == e.source_serial && target_serial
            == e.target_serial && graphic == e.model && x == e.x && y == e.y && z == e.z && target_x
            == e.target_x && target_y == e.target_y && target_z == e.target_z && speed == e.speed
            && duration == e.duration && (fixed_direction <==> e.fixed_direction != 0) && (explode
            <==> e.explode != 0)),
        packet matches ServerPacket::CharacterAnimation(a) ==> (ev
            matches ObserverEvent::AnimationPlayed {
            serial,
            action,
            frame_count,
            repeat_count,
            reverse,
            repeat,
            frame_delay,
        } && serial == a.serial && action == a.action && frame_count == a.frame_count
            && repeat_count == a.repeat_count && (reverse <==> a.direction != 0) && (repeat
            <==> a.repeat_flag != 0) && frame_delay == a.frame_delay),
        packet matches ServerPacket::OverallLightLevel { level: l } ==> (ev
            matches ObserverEvent::GlobalLight { level } && level == l),
        packet matches ServerPacket::SetWeather(w) ==> (ev matches ObserverEvent::Weather {
            weather_type,
            num_effects,
            temperature,
        } && weather_type == w.weather_type && num_effects == w.num_effects && temperature
            == w.temperature),
        packet matches ServerPacket::SeasonalInformation { season: s, play_sound: p } ==> (ev
            matches ObserverEvent::Season { season, play_sound } && season == s && (play_sound
            <==> p != 0)),
        packet matches ServerPacket::PlayMidiMusic { music_id: m } ==> (ev
            matches ObserverEvent::Music { music_id } && music_id == m),
        packet matches ServerPacket::GeneralInfo(GeneralInfo::CloseGump { dialog_id, .. }) ==> (ev
            matches ObserverEvent::GumpClosed { gump_id } && gump_id == dialog_id),
{
}

/// Law: speech and numbered messages are heard of with who says them and in which words.
pub proof fn speech_is_heard_of(ev: ObserverEvent, packet: ServerPacket)
    requires
        tells(ev, packet),
    ensures
        packet matches ServerPacket::SendSpeech(s) ==> (ev matches ObserverEvent::Speech {
            serial,
            graphic,
            speech_type,
            color,
            font,
            name,
            message,
        } && serial == s.serial && graphic == s.model && speech_type == s.speech_type && color
            == s.color && font == s.font && name@ == s.name@ && message@ == s.message@),
        packet matches ServerPacket::UnicodeSpeech(s) ==> (ev matches ObserverEvent::Speech {
            serial,
            graphic,
            speech_type,
            color,
            font,
            name,
            message,
        } && serial == s.serial && graphic == s.model && speech_type == s.speech_type && color
            == s.color && font == s.font && name@ == s.name@ && message@ == s.message@),
        packet matches ServerPacket::ClilocMessage(m) ==> (ev
            matches ObserverEvent::ClilocMessage {
            serial,
            cliloc_id,
            speech_type,
            color,
            font,
            name,
            args,
        } && serial == m.serial && cliloc_id == m.message_number && speech_type == m.speech_type
            && color == m.hue && font == m.font && name@ == m.name@ && args@ == m.arguments@),
{
}

/// Law: observers hear of everything that appears, moves, disappears, sounds, speaks or
/// changes.
pub proof fn nothing_is_left_unheard(packet: ServerPacket)
    ensures
        emits(packet) <==> {
            ||| packet is DrawMobile || packet is UpdateMobile || packet is DeleteObject
            ||| packet is ObjectInfo || packet is ObjectInfoSA || packet is DrawGamePlayer
            ||| packet is PlaySoundEffect || packet is GraphicalEffect
                || packet is CharacterAnimation
            ||| packet is SendSpeech || packet is UnicodeSpeech || packet is ClilocMessage
            ||| packet is UpdateHealth || packet is UpdateMana || packet is UpdateStamina
            ||| packet is OverallLightLevel || packet is SetWeather
                || packet is SeasonalInformation || packet is PlayMidiMusic
            ||| packet matches ServerPacket::GeneralInfo(g) && (g is Damage || g is CloseGump)
        },
{
}

} // verus!

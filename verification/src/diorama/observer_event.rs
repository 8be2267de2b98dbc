//! Things that happen in the world, as bots and scripts hear of them.

use vstd::prelude::*;

use crate::packets::{GeneralInfo, ServerPacket};

verus! {

/// Serials from here on are those of items, those below of mobiles.
pub const FIRST_ITEM_SERIAL: u32 = 0x4000_0000;

/// An entry of a popup menu.
#[derive(Debug, Clone, Copy, PartialEq, Eq, Structural)]
pub struct PopupMenuEntry {
    pub index: u16,
    pub cliloc_id: u32,
    pub flags: u16,
    pub color: Option<u16>,
}

/// Something that happened in the world.
#[derive(Debug)]
pub enum ObserverEvent {
    MobileAppeared {
        serial: u32,
        graphic: u16,
        color: u16,
        x: u16,
        y: u16,
        z: i8,
        direction: u8,
        notoriety: u8,
    },
    MobileMoved {
        serial: u32,
        graphic: u16,
        color: u16,
        x: u16,
        y: u16,
        z: i8,
        direction: u8,
        notoriety: u8,
    },
    MobileRemoved { serial: u32 },
    ItemAppeared { serial: u32, graphic: u16, color: u16, x: u16, y: u16, z: i8, count: u16 },
    ItemRemoved { serial: u32 },
    /// The player is somewhere else.
    PositionChanged { x: u16, y: u16, z: i8, direction: u8 },
    SoundPlayed { sound_id: u16, x: u16, y: u16, z: i16 },
    EffectPlayed {
        direction_type: u8,
        source_serial: u32,
        target_serial: u32,
        graphic: u16,
        x: u16,
        y: u16,
        z: i8,
        target_x: u16,
        target_y: u16,
        target_z: i8,
        speed: u8,
        duration: u8,
        fixed_direction: bool,
        explode: bool,
    },
    AnimationPlayed {
        serial: u32,
        action: u16,
        frame_count: u8,
        repeat_count: u16,
        reverse: bool,
        repeat: bool,
        frame_delay: u8,
    },
    Speech {
        serial: u32,
        graphic: u16,
        speech_type: u8,
        color: u16,
        font: u16,
        name: String,
        message: String,
    },
    ClilocMessage {
        serial: u32,
        cliloc_id: u32,
        speech_type: u8,
        color: u16,
        font: u16,
        name: String,
        args: String,
    },
    DamageDealt { serial: u32, amount: u8 },
    HpUpdated { serial: u32, hits: u16, max_hits: u16 },
    ManaUpdated { serial: u32, mana: u16, max_mana: u16 },
    StaminaUpdated { serial: u32, stamina: u16, max_stamina: u16 },
    GumpOpened { gump_id: u32, serial: u32, x: u32, y: u32 },
    GumpClosed { gump_id: u32 },
    TargetRequest { cursor_id: u32, target_type: u8 },
    TargetCancel { cursor_id: u32 },
    MenuOpened { serial: u32, menu_id: u16, question: String },
    PopupMenu { serial: u32, entries: Vec<PopupMenuEntry> },
    ContainerOpened { serial: u32, gump_id: u16 },
    GlobalLight { level: u8 },
    Weather { weather_type: u8, num_effects: u8, temperature: u8 },
    Season { season: u8, play_sound: bool },
    Music { music_id: u16 },
}

/// Whether observers hear of a packet.
pub open spec fn emits(packet: ServerPacket) -> bool {
    match packet {
        ServerPacket::DrawMobile(_) => true,
        ServerPacket::UpdateMobile(_) => true,
        ServerPacket::DeleteObject { .. } => true,
        ServerPacket::ObjectInfo(_) => true,
        ServerPacket::ObjectInfoSA(_) => true,
        ServerPacket::DrawGamePlayer(_) => true,
        ServerPacket::PlaySoundEffect(_) => true,
        ServerPacket::GraphicalEffect(_) => true,
        ServerPacket::CharacterAnimation(_) => true,
        ServerPacket::SendSpeech(_) => true,
        ServerPacket::UnicodeSpeech(_) => true,
        ServerPacket::ClilocMessage(_) => true,
        ServerPacket::GeneralInfo(g) => g is Damage || g is CloseGump,
        ServerPacket::UpdateHealth(_) => true,
        ServerPacket::UpdateMana(_) => true,
        ServerPacket::UpdateStamina(_) => true,
        ServerPacket::OverallLightLevel { .. } => true,
        ServerPacket::SetWeather(_) => true,
        ServerPacket::SeasonalInformation { .. } => true,
        ServerPacket::PlayMidiMusic { .. } => true,
        _ => false,
    }
}

/// Whether an event is the one that observers hear of after a packet.
pub open spec fn tells(ev: ObserverEvent, packet: ServerPacket) -> bool {
    match packet {
        ServerPacket::DrawMobile(m) => ev == (ObserverEvent::MobileAppeared {
            serial: m.serial,
            graphic: m.graphic,
            color: m.color,
            x: m.x,
            y: m.y,
            z: m.z,
            direction: m.direction,
            notoriety: m.notoriety,
        }),
        ServerPacket::UpdateMobile(m) => ev == (ObserverEvent::MobileMoved {
            serial: m.serial,
            graphic: m.model,
            color: m.hue,
            x: m.x,
            y: m.y,
            z: m.z,
            direction: m.direction,
            notoriety: m.notoriety,
        }),
        ServerPacket::DeleteObject { serial } => if serial >= FIRST_ITEM_SERIAL {
            ev == (ObserverEvent::ItemRemoved { serial })
        } else {
            ev == (ObserverEvent::MobileRemoved { serial })
        },
        ServerPacket::ObjectInfo(o) => ev == (ObserverEvent::ItemAppeared {
            serial: o.object_id & 0x7FFF_FFFF,
            graphic: o.graphic & 0x7FFF,
            color: match o.dye {
                Some(d) => d,
                None => 0,
            },
            x: o.x & 0x7FFF,
            y: o.y & 0x3FFF,
            z: o.z,
            count: match o.amount {
                Some(a) => a,
                None => 1,
            },
        }),
        ServerPacket::ObjectInfoSA(o) => ev == (ObserverEvent::ItemAppeared {
            serial: o.serial,
            graphic: o.graphic,
            color: o.hue,
            x: o.x,
            y: o.y,
            z: o.z,
            count: o.amount,
        }),
        ServerPacket::DrawGamePlayer(p) => ev == (ObserverEvent::PositionChanged {
            x: p.x,
            y: p.y,
            z: p.z,
            direction: p.direction,
        }),
        ServerPacket::PlaySoundEffect(s) => ev == (ObserverEvent::SoundPlayed {
            sound_id: s.sound_model,
            x: s.x,
            y: s.y,
            z: s.z,
        }),
        ServerPacket::GraphicalEffect(e) => ev == (ObserverEvent::EffectPlayed {
            direction_type: e.direction_type,
            source_serial: e.source_serial,
            target_serial: e.target_serial,
            graphic: e.model,
            x: e.x,
            y: e.y,
            z: e.z,
            target_x: e.target_x,
            target_y: e.target_y,
            target_z: e.target_z,
            speed: e.speed,
            duration: e.duration,
            fixed_direction: e.fixed_direction != 0,
            explode: e.explode != 0,
        }),
        ServerPacket::CharacterAnimation(a) => ev == (ObserverEvent::AnimationPlayed {
            serial: a.serial,
            action: a.action,
            frame_count: a.frame_count,
            repeat_count: a.repeat_count,
            reverse: a.direction != 0,
            repeat: a.repeat_flag != 0,
            frame_delay: a.frame_delay,
        }),
        ServerPacket::SendSpeech(s) | ServerPacket::UnicodeSpeech(s) => {
            &&& ev matches ObserverEvent::Speech {
                serial,
                graphic,
                speech_type,
                color,
                font,
                name,
                message,
            }
            &&& serial == s.serial
            &&& graphic == s.model
            &&& speech_type == s.speech_type
            &&& color == s.color
            &&& font == s.font
            &&& name@ == s.name@
            &&& message@ == s.message@
        },
        ServerPacket::ClilocMessage(m) => {
            &&& ev matches ObserverEvent::ClilocMessage {
                serial,
                cliloc_id,
                speech_type,
                color,
                font,
                name,
                args,
            }
            &&& serial == m.serial
            &&& cliloc_id == m.message_number
            &&& speech_type == m.speech_type
            &&& color == m.hue
            &&& font == m.font
            &&& name@ == m.name@
            &&& args@ == m.arguments@
        },
        ServerPacket::GeneralInfo(GeneralInfo::Damage { serial, damage }) => ev == (
        ObserverEvent::DamageDealt { serial, amount: damage }),
        ServerPacket::GeneralInfo(GeneralInfo::CloseGump { dialog_id, .. }) => ev == (
        ObserverEvent::GumpClosed { gump_id: dialog_id }),
        ServerPacket::UpdateHealth(u) => ev == (ObserverEvent::HpUpdated {
            serial: u.serial,
            hits: u.current,
            max_hits: u.max,
        }),
        ServerPacket::UpdateMana(u) => ev == (ObserverEvent::ManaUpdated {
            serial: u.serial,
            mana: u.current,
            max_mana: u.max,
        }),
        ServerPacket::UpdateStamina(u) => ev == (ObserverEvent::StaminaUpdated {
            serial: u.serial,
            stamina: u.current,
            max_stamina: u.max,
        }),
        ServerPacket::OverallLightLevel { level } => ev == (ObserverEvent::GlobalLight { level }),
        ServerPacket::SetWeather(w) => ev == (ObserverEvent::Weather {
            weather_type: w.weather_type,
            num_effects: w.num_effects,
            temperature: w.temperature,
        }),
        ServerPacket::SeasonalInformation { season, play_sound } => ev == (ObserverEvent::Season {
            season,
            play_sound: play_sound != 0,
        }),
        ServerPacket::PlayMidiMusic { music_id } => ev == (ObserverEvent::Music { music_id }),
        _ => false,
    }
}

/// What observers hear of after a packet, if anything.
pub fn event_of(packet: &ServerPacket) -> (r: Option<ObserverEvent>)
    ensures
        r is Some <==> emits(*packet),
        r matches Some(ev) ==> tells(ev, *packet),
{
    match packet {
        ServerPacket::DrawMobile(m) => Some(
            ObserverEvent::MobileAppeared {
                serial: m.serial,
                graphic: m.graphic,
                color: m.color,
                x: m.x,
                y: m.y,
                z: m.z,
                direction: m.direction,
                notoriety: m.notoriety,
            },
        ),
        ServerPacket::UpdateMobile(m) => Some(
            ObserverEvent::MobileMoved {
                serial: m.serial,
                graphic: m.model,
                color: m.hue,
                x: m.x,
                y: m.y,
                z: m.z,
                direction: m.direction,
                notoriety: m.notoriety,
            },
        ),
        ServerPacket::DeleteObject { serial } => if *serial >= FIRST_ITEM_SERIAL {
            Some(ObserverEvent::ItemRemoved { serial: *serial })
        } else {
            Some(ObserverEvent::MobileRemoved { serial: *serial })
        },
        ServerPacket::ObjectInfo(o) => Some(
            ObserverEvent::ItemAppeared {
                serial: o.object_id & 0x7FFF_FFFF,
                graphic: o.graphic & 0x7FFF,
                color: match o.dye {
                    Some(d) => d,
                    None => 0,
                },
                x: o.x & 0x7FFF,
                y: o.y & 0x3FFF,
                z: o.z,
                count: match o.amount {
                    Some(a) => a,
                    None => 1,
                },
            },
        ),
        ServerPacket::ObjectInfoSA(o) => Some(
            ObserverEvent::ItemAppeared {
                serial: o.serial,
                graphic: o.graphic,
                color: o.hue,
                x: o.x,
                y: o.y,
                z: o.z,
                count: o.amount,
            },
        ),
        ServerPacket::DrawGamePlayer(p) => Some(
            ObserverEvent::PositionChanged { x: p.x, y: p.y, z: p.z, direction: p.direction },
        ),
        ServerPacket::PlaySoundEffect(s) => Some(
            ObserverEvent::SoundPlayed { sound_id: s.sound_model, x: s.x, y: s.y, z: s.z },
        ),
        ServerPacket::GraphicalEffect(e) => Some(
            ObserverEvent::EffectPlayed {
                direction_type: e.direction_type,
                source_serial: e.source_serial,
                target_serial: e.target_serial,
                graphic: e.model,
                x: e.x,
                y: e.y,
                z: e.z,
                target_x: e.target_x,
                target_y: e.target_y,
                target_z: e.target_z,
                speed: e.speed,
                duration: e.duration,
                fixed_direction: e.fixed_direction != 0,
                explode: e.explode != 0,
            },
        ),
        ServerPacket::CharacterAnimation(a) => Some(
            ObserverEvent::AnimationPlayed {
                serial: a.serial,
                action: a.action,
                frame_count: a.frame_count,
                repeat_count: a.repeat_count,
                reverse: a.direction != 0,
                repeat: a.repeat_flag != 0,
                frame_delay: a.frame_delay,
            },
        ),
        ServerPacket::SendSpeech(s) | ServerPacket::UnicodeSpeech(s) => Some(
            ObserverEvent::Speech {
                serial: s.serial,
                graphic: s.model,
                speech_type: s.speech_type,
                color: s.color,
                font: s.font,
                name: s.name.clone(),
                message: s.message.clone(),
            },
        ),
        ServerPacket::ClilocMessage(m) => Some(
            ObserverEvent::ClilocMessage {
                serial: m.serial,
                cliloc_id: m.message_number,
                speech_type: m.speech_type,
                color: m.hue,
                font: m.font,
                name: m.name.clone(),
                args: m.arguments.clone(),
            },
        ),
        ServerPacket::GeneralInfo(GeneralInfo::Damage { serial, damage }) => Some(
            ObserverEvent::DamageDealt { serial: *serial, amount: *damage },
        ),
        ServerPacket::GeneralInfo(GeneralInfo::CloseGump { dialog_id, .. }) => Some(
            ObserverEvent::GumpClosed { gump_id: *dialog_id },
        ),
        ServerPacket::UpdateHealth(u) => Some(
            ObserverEvent::HpUpdated { serial: u.serial, hits: u.current, max_hits: u.max },
        ),
        ServerPacket::UpdateMana(u) => Some(
            ObserverEvent::ManaUpdated { serial: u.serial, mana: u.current, max_mana: u.max },
        ),
        ServerPacket::UpdateStamina(u) => Some(
            ObserverEvent::StaminaUpdated {
                serial: u.serial,
                stamina: u.current,
                max_stamina: u.max,
            },
        ),
        ServerPacket::OverallLightLevel { level } => Some(
            ObserverEvent::GlobalLight { level: *level },
        ),
        ServerPacket::SetWeather(w) => Some(
            ObserverEvent::Weather {
                weather_type: w.weather_type,
                num_effects: w.num_effects,
                temperature: w.temperature,
            },
        ),
        ServerPacket::SeasonalInformation { season, play_sound } => Some(
            ObserverEvent::Season { season: *season, play_sound: *play_sound != 0 },
        ),
        ServerPacket::PlayMidiMusic { music_id } => Some(
            ObserverEvent::Music { music_id: *music_id },
        ),
        _ => None,
    }
}

} // verus!

//! Packets of the game protocol as plain data.
//!
//! A codec turns bytes into these and back. What it made of a packet that the
//! library does not look into, or could not read, is [`ServerPacket::Opaque`].

use vstd::prelude::*;

verus! {

/// Equipment layer of a mount.
pub const LAYER_MOUNT: u8 = 0x19;

/// View range of a client that was told nothing else.
pub const DEFAULT_VIEW_RANGE: u8 = 18;

/// An item or a multi-object on the ground, in the older form (`0x1A`).
#[derive(Debug, Clone, Copy, PartialEq, Eq, Structural)]
pub struct ObjectInfo {
    pub object_id: u32,
    pub graphic: u16,
    /// The number of the multi-object, if it is one.
    pub multi: Option<u16>,
    pub amount: Option<u16>,
    pub x: u16,
    pub y: u16,
    pub z: i8,
    pub direction: Option<u8>,
    pub dye: Option<u16>,
    pub flags: Option<u8>,
}

impl ObjectInfo {
    /// The number of the multi-object, if it is one.
    pub fn multi_id(&self) -> (r: Option<u16>)
        ensures
            r == self.multi,
    {
        self.multi
    }

    pub fn is_multi(&self) -> (b: bool)
        ensures
            b == (self.multi is Some),
    {
        self.multi.is_some()
    }
}

/// What an [`ObjectInfoSA`] is about.
#[derive(Debug, Clone, Copy, PartialEq, Eq, Structural)]
pub enum ObjectDataType {
    Item,
    Mobile,
    Multi,
}

/// An item or a multi-object on the ground, in the newer form (`0xF3`).
#[derive(Debug, Clone, Copy, PartialEq, Eq, Structural)]
pub struct ObjectInfoSA {
    pub data_type: ObjectDataType,
    pub serial: u32,
    pub graphic: u16,
    pub direction: u8,
    pub amount: u16,
    pub x: u16,
    pub y: u16,
    pub z: i8,
    pub layer: u8,
    pub hue: u16,
    pub flags: u8,
}

/// Something that a mobile wears.
#[derive(Debug, Clone, Copy, PartialEq, Eq, Structural)]
pub struct EquippedItem {
    pub serial: u32,
    pub graphic: u16,
    pub layer: u8,
    pub color: Option<u16>,
}

/// A mobile with all it wears (`0x78`).
#[derive(Debug)]
pub struct DrawMobile {
    pub serial: u32,
    pub graphic: u16,
    pub x: u16,
    pub y: u16,
    pub z: i8,
    pub direction: u8,
    pub color: u16,
    pub status: u8,
    pub notoriety: u8,
    pub items: Vec<EquippedItem>,
}

/// What a [`DrawMobile`] amounts to.
#[verifier::ext_equal]
pub struct MobileView {
    pub serial: u32,
    pub graphic: u16,
    pub x: u16,
    pub y: u16,
    pub z: i8,
    pub direction: u8,
    pub color: u16,
    pub status: u8,
    pub notoriety: u8,
    pub items: Seq<EquippedItem>,
}

impl View for DrawMobile {
    type V = MobileView;

    open spec fn view(&self) -> MobileView {
        MobileView {
            serial: self.serial,
            graphic: self.graphic,
            x: self.x,
            y: self.y,
            z: self.z,
            direction: self.direction,
            color: self.color,
            status: self.status,
            notoriety: self.notoriety,
            items: self.items@,
        }
    }
}

/// A copy of a list of equipment.
pub fn copy_equipment(items: &Vec<EquippedItem>) -> (r: Vec<EquippedItem>)
    ensures
        r@ == items@,
{
    let mut r: Vec<EquippedItem> = Vec::new();
    let mut i: usize = 0;
    while i < items.len()
        invariant
            i <= items@.len(),
            r@ == items@.take(i as int),
        decreases items@.len() - i,
    {
        r.push(items[i]);
        assert(r@ =~= items@.take(i + 1));
        i += 1;
    }
    assert(items@.take(i as int) =~= items@);
    r
}

impl Clone for DrawMobile {
    fn clone(&self) -> (m: DrawMobile)
        ensures
            m@ == self@,
    {
        DrawMobile {
            serial: self.serial,
            graphic: self.graphic,
            x: self.x,
            y: self.y,
            z: self.z,
            direction: self.direction,
            color: self.color,
            status: self.status,
            notoriety: self.notoriety,
            items: copy_equipment(&self.items),
        }
    }
}

/// A mobile with all it wears, with three more fields of no known use (`0xD3`).
#[derive(Debug)]
pub struct DrawMobileExtended {
    pub serial: u32,
    pub graphic: u16,
    pub x: u16,
    pub y: u16,
    pub z: i8,
    pub direction: u8,
    pub color: u16,
    pub status: u8,
    pub notoriety: u8,
    pub unknown1: u16,
    pub unknown2: u16,
    pub unknown3: u16,
    pub items: Vec<EquippedItem>,
}

impl DrawMobileExtended {
    /// The mobile without the three further fields.
    pub open spec fn plain(&self) -> MobileView {
        MobileView {
            serial: self.serial,
            graphic: self.graphic,
            x: self.x,
            y: self.y,
            z: self.z,
            direction: self.direction,
            color: self.color,
            status: self.status,
            notoriety: self.notoriety,
            items: self.items@,
        }
    }
}

/// The state of a mobile without what it wears (`0x77`).
#[derive(Debug, Clone, Copy, PartialEq, Eq, Structural)]
pub struct UpdateMobile {
    pub serial: u32,
    pub model: u16,
    pub x: u16,
    pub y: u16,
    pub z: i8,
    pub direction: u8,
    pub hue: u16,
    pub status_flags: u8,
    pub notoriety: u8,
}

/// An item that a mobile puts on (`0x2E`).
#[derive(Debug, Clone, Copy, PartialEq, Eq, Structural)]
pub struct EquipItem {
    pub item_serial: u32,
    pub graphic: u16,
    pub layer: u8,
    pub player_serial: u32,
    pub color: u16,
}

/// An item that comes into a container (`0x25`).
#[derive(Debug, Clone, Copy, PartialEq, Eq, Structural)]
pub struct AddItemToContainer {
    pub serial: u32,
    pub graphic: u16,
    pub amount: u16,
    pub x: u16,
    pub y: u16,
    pub color: u16,
    pub container_serial: u32,
    /// Only newer servers send it.
    pub grid_index: Option<u8>,
}

/// An item of a container's content, as older servers send it.
#[derive(Debug, Clone, Copy, PartialEq, Eq, Structural)]
pub struct LegacyContentItem {
    pub serial: u32,
    pub graphic: u16,
    pub amount: u16,
    pub x: u16,
    pub y: u16,
    pub color: u16,
    pub container_serial: u32,
}

/// An item of a container's content, as newer servers send it.
#[derive(Debug, Clone, Copy, PartialEq, Eq, Structural)]
pub struct ModernContentItem {
    pub serial: u32,
    pub graphic: u16,
    pub amount: u16,
    pub x: u16,
    pub y: u16,
    pub grid_index: u8,
    pub color: u16,
    pub container_serial: u32,
}

/// The content of a container (`0x3C`).
#[derive(Debug)]
pub enum ContainerContent {
    Legacy(Vec<LegacyContentItem>),
    Modern(Vec<ModernContentItem>),
}

impl ContainerContent {
    /// The container of the first item.
    pub open spec fn container(&self) -> Option<u32> {
        match self {
            ContainerContent::Legacy(v) => if v@.len() > 0 {
                Some(v@[0].container_serial)
            } else {
                None
            },
            ContainerContent::Modern(v) => if v@.len() > 0 {
                Some(v@[0].container_serial)
            } else {
                None
            },
        }
    }

    /// The container whose content it is, which the first item names.
    pub fn container_serial(&self) -> (r: Option<u32>)
        ensures
            r == self.container(),
    {
        match self {
            ContainerContent::Legacy(v) => if v.len() > 0 {
                Some(v[0].container_serial)
            } else {
                None
            },
            ContainerContent::Modern(v) => if v.len() > 0 {
                Some(v[0].container_serial)
            } else {
                None
            },
        }
    }
}

/// How many blocks of a world are patched.
#[derive(Debug, Clone, Copy, PartialEq, Eq, Structural)]
pub struct MapDiffEntry {
    pub map_patches: u32,
    pub static_patches: u32,
}

/// A packet of packets (`0xBF`).
#[derive(Debug)]
pub enum GeneralInfo {
    SetMap { world: u8 },
    EnableMapDiff { maps: Vec<MapDiffEntry> },
    Damage { serial: u32, damage: u8 },
    CloseGump { dialog_id: u32, button_id: u32 },
    /// One of many others.
    Other,
}

/// A tile of a house that a player designed, at an offset from its centre.
#[derive(Debug, Clone, Copy, PartialEq, Eq, Structural)]
pub struct HouseTile {
    pub tile_id: u16,
    pub x: i16,
    pub y: i16,
    pub z: i16,
}

/// The parts of a house that a player designed (`0xD8`), still packed. A codec
/// unpacks the planes once the foundation's extent is known.
#[derive(Debug, Clone, Copy, PartialEq, Eq, Structural)]
pub struct SendCustomHouse {
    pub house_serial: u32,
    pub revision: u32,
}

/// The player's body, place and map, sent first (`0x1B`).
#[derive(Debug, Clone, Copy, PartialEq, Eq, Structural)]
pub struct CharacterLocaleAndBody {
    pub serial: u32,
    pub body_type: u16,
    pub x: u16,
    pub y: u16,
    pub z: i8,
    pub facing: u8,
    pub map_width_minus8: u16,
    pub map_height: u16,
}

/// The player's place, from which there is no appeal (`0x20`).
#[derive(Debug, Clone, Copy, PartialEq, Eq, Structural)]
pub struct DrawGamePlayer {
    pub serial: u32,
    pub body_type: u16,
    pub hue: u16,
    pub flags: u8,
    pub x: u16,
    pub y: u16,
    pub z: i8,
    pub direction: u8,
}

/// A step that the server did not allow (`0x21`).
#[derive(Debug, Clone, Copy, PartialEq, Eq, Structural)]
pub struct MoveReject {
    pub sequence: u8,
    pub x: u16,
    pub y: u16,
    pub direction: u8,
    pub z: i8,
}

/// A step that the server allowed (`0x22`).
#[derive(Debug, Clone, Copy, PartialEq, Eq, Structural)]
pub struct MoveAck {
    pub sequence: u8,
    pub notoriety: u8,
}

/// A step that the client asks for (`0x02`).
#[derive(Debug, Clone, Copy, PartialEq, Eq, Structural)]
pub struct MoveRequest {
    pub direction: u8,
    pub sequence: u8,
}

/// A sound (`0x54`).
#[derive(Debug, Clone, Copy, PartialEq, Eq, Structural)]
pub struct PlaySoundEffect {
    pub sound_model: u16,
    pub x: u16,
    pub y: u16,
    pub z: i16,
}

/// An effect that is seen (`0x70`).
#[derive(Debug, Clone, Copy, PartialEq, Eq, Structural)]
pub struct GraphicalEffect {
    pub direction_type: u8,
    pub source_serial: u32,
    pub target_serial: u32,
    pub model: u16,
    pub x: u16,
    pub y: u16,
    pub z: i8,
    pub target_x: u16,
    pub target_y: u16,
    pub target_z: i8,
    pub speed: u8,
    pub duration: u8,
    pub fixed_direction: u8,
    pub explode: u8,
}

/// A movement of a mobile's body (`0x6E`).
#[derive(Debug, Clone, Copy, PartialEq, Eq, Structural)]
pub struct CharacterAnimation {
    pub serial: u32,
    pub action: u16,
    pub frame_count: u8,
    pub repeat_count: u16,
    pub direction: u8,
    pub repeat_flag: u8,
    pub frame_delay: u8,
}

/// Something said, in plain (`0x1C`) or in Unicode text (`0xAE`).
#[derive(Debug)]
pub struct SpeechPacket {
    pub serial: u32,
    pub model: u16,
    pub speech_type: u8,
    pub color: u16,
    pub font: u16,
    pub name: String,
    pub message: String,
}

/// Something said by the number of its text (`0xC1`).
#[derive(Debug)]
pub struct ClilocPacket {
    pub serial: u32,
    pub message_number: u32,
    pub speech_type: u8,
    pub hue: u16,
    pub font: u16,
    pub name: String,
    pub arguments: String,
}

/// A present and a greatest value of a mobile (`0xA1`, `0xA2`, `0xA3`).
#[derive(Debug, Clone, Copy, PartialEq, Eq, Structural)]
pub struct VitalUpdate {
    pub serial: u32,
    pub current: u16,
    pub max: u16,
}

/// Rain, snow and the like (`0x65`).
#[derive(Debug, Clone, Copy, PartialEq, Eq, Structural)]
pub struct SetWeather {
    pub weather_type: u8,
    pub num_effects: u8,
    pub temperature: u8,
}

/// What a codec read out of a packet of the server.
#[derive(Debug)]
pub enum ServerPacket {
    ObjectInfo(ObjectInfo),
    ObjectInfoSA(ObjectInfoSA),
    PacketList(Vec<ObjectInfoSA>),
    DrawMobile(DrawMobile),
    DrawMobileExtended(DrawMobileExtended),
    UpdateMobile(UpdateMobile),
    EquipItem(EquipItem),
    DeleteObject { serial: u32 },
    AddItemToContainer(AddItemToContainer),
    ContainerContent(ContainerContent),
    GeneralInfo(GeneralInfo),
    ClientViewRange { range: u8 },
    SendCustomHouse(SendCustomHouse),
    CharacterLocaleAndBody(CharacterLocaleAndBody),
    DrawGamePlayer(DrawGamePlayer),
    MoveReject(MoveReject),
    MoveAck(MoveAck),
    PlaySoundEffect(PlaySoundEffect),
    GraphicalEffect(GraphicalEffect),
    CharacterAnimation(CharacterAnimation),
    SendSpeech(SpeechPacket),
    UnicodeSpeech(SpeechPacket),
    ClilocMessage(ClilocPacket),
    UpdateHealth(VitalUpdate),
    UpdateMana(VitalUpdate),
    UpdateStamina(VitalUpdate),
    OverallLightLevel { level: u8 },
    SetWeather(SetWeather),
    SeasonalInformation { season: u8, play_sound: u8 },
    PlayMidiMusic { music_id: u16 },
    /// Not looked into, or not readable.
    Opaque,
}

/// What a codec read out of a packet of the client.
#[derive(Debug, Clone, Copy, PartialEq, Eq, Structural)]
pub enum ClientPacket {
    MoveRequest(MoveRequest),
    /// Not looked into, or not readable.
    Opaque,
}

/// The number that two bytes spell, the greater one first.
pub open spec fn be16(a: u8, b: u8) -> u16 {
    (a * 256 + b) as u16
}

/// The number that four bytes spell, the greatest one first.
pub open spec fn be32(a: u8, b: u8, c: u8, d: u8) -> u32 {
    (a * 0x100_0000 + b * 0x1_0000 + c * 0x100 + d) as u32
}

/// The number at a place of a packet.
pub fn read_be16(data: &[u8], at: usize) -> (r: u16)
    requires
        at + 2 <= data@.len(),
    ensures
        r == be16(data@[at as int], data@[at + 1]),
{
    data[at] as u16 * 256 + data[at + 1] as u16
}

/// The number at a place of a packet.
pub fn read_be32(data: &[u8], at: usize) -> (r: u32)
    requires
        at + 4 <= data@.len(),
    ensures
        r == be32(data@[at as int], data@[at + 1], data@[at + 2], data@[at + 3]),
{
    data[at] as u32 * 0x100_0000 + data[at + 1] as u32 * 0x1_0000 + data[at + 2] as u32 * 0x100
        + data[at + 3] as u32
}

/// The serial and the gump model of an opened container (`0x24`), as far as the
/// packet is long enough: without a serial there is nothing, without a model it
/// is zero.
pub open spec fn drawn_container(data: Seq<u8>) -> Option<(u32, u16)> {
    if data.len() >= 5 {
        Some(
            (
                be32(data[1], data[2], data[3], data[4]),
                if data.len() >= 7 {
                    be16(data[5], data[6])
                } else {
                    0
                },
            ),
        )
    } else {
        None
    }
}

pub fn read_drawn_container(data: &[u8]) -> (r: Option<(u32, u16)>)
    ensures
        r == drawn_container(data@),
{
    if data.len() >= 5 {
        let serial: u32 = read_be32(data, 1);
        let gump: u16 = if data.len() >= 7 {
            read_be16(data, 5)
        } else {
            0
        };
        Some((serial, gump))
    } else {
        None
    }
}

} // verus!

//! Events of the world.

use vstd::prelude::*;

use crate::coords::{MobilePos, Pos3D};
use crate::vessel::EntitySnapshot;

verus! {

/// A change to one item of a container.
#[derive(Debug, Clone, Copy, PartialEq, Eq, Structural)]
pub enum ContainerContentChange {
    /// An item came in.
    ItemAdded {
        item_serial: u32,
        graphic: u16,
        amount: u16,
        x: u16,
        y: u16,
        color: u16,
    },
    /// An item went out.
    ItemRemoved {
        item_serial: u32,
    },
    /// An item changed.
    ItemUpdated {
        item_serial: u32,
        graphic: u16,
        amount: u16,
        x: u16,
        y: u16,
        color: u16,
    },
}

/// A change of the world, told to those who can see it.
#[allow(inconsistent_fields)]
#[derive(Debug)]
pub enum WorldEvent {
    /// An entity went from one tile to another.
    EntityMoved {
        map_id: u8,
        serial: u32,
        old_pos: MobilePos,
        new_pos: MobilePos,
        entity: Option<EntitySnapshot>,
        is_teleport: bool,
    },
    /// A ship moved with everyone and everything on board.
    ShipMoved {
        map_id: u8,
        ship_serial: u32,
        ship_old_pos: Pos3D,
        ship_new_pos: Pos3D,
        ship_snapshot: Option<EntitySnapshot>,
        passengers: Vec<(u32, MobilePos, MobilePos, Option<EntitySnapshot>)>,
        cargo: Vec<(u32, Pos3D, Pos3D, Option<EntitySnapshot>)>,
    },
    /// An entity appeared.
    EntitySpawned {
        map_id: u8,
        serial: u32,
        pos: Pos3D,
        entity: Option<EntitySnapshot>,
    },
    /// An entity disappeared.
    EntityRemoved {
        map_id: u8,
        serial: u32,
        last_pos: Pos3D,
    },
    /// An entity changed its looks.
    EntityUpdated {
        map_id: u8,
        serial: u32,
        pos: Pos3D,
        entity: Option<EntitySnapshot>,
    },
    /// A ghost became visible or invisible.
    GhostVisibilityChanged {
        map_id: u8,
        serial: u32,
        visible: bool,
        x: u16,
        y: u16,
        entity: Option<EntitySnapshot>,
    },
    /// A sound was heard.
    SoundPlayed {
        map_id: u8,
        sound_id: u16,
        x: u16,
        y: u16,
        z: i16,
    },
    /// An effect played, from one point to another.
    EffectPlayed {
        map_id: u8,
        direction_type: u8,
        source_serial: u32,
        target_serial: u32,
        graphic: u16,
        x: u16,
        y: u16,
        z: i8,
        target_x: u16,
        target_y: u16,
        target_z: i8,
        speed: u8,
        duration: u8,
        fixed_direction: bool,
        explode: bool,
    },
    /// A mobile was animated.
    AnimationPlayed {
        map_id: u8,
        serial: u32,
        action: u16,
        frame_count: u8,
        repeat_count: u16,
        reverse: bool,
        repeat: bool,
        frame_delay: u8,
        x: u16,
        y: u16,
    },
    /// Someone spoke; the serial 0xFFFFFFFF speaks to the whole map.
    Speech {
        map_id: u8,
        serial: u32,
        graphic: u16,
        speech_type: u8,
        color: u16,
        font: u16,
        name: String,
        message: String,
        x: u16,
        y: u16,
    },
    /// The light of a map changed.
    GlobalLight {
        map_id: u8,
        level: u8,
    },
    /// The weather of a map changed.
    Weather {
        map_id: u8,
        weather_type: u8,
        num_effects: u8,
        temperature: u8,
    },
    /// The season of a map changed.
    Season {
        map_id: u8,
        season: u8,
        play_sound: bool,
    },
    /// The music of a map changed.
    Music {
        map_id: u8,
        music_id: u16,
    },
    /// A mobile was killed.
    MobileKilled {
        map_id: u8,
        serial: u32,
        body_graphic: u16,
        hue: u16,
        x: u16,
        y: u16,
        z: i8,
        direction: u8,
        corpse_serial: u32,
        corpse_items: Vec<(u8, u32, u16, u16)>,
    },
    /// A player died.
    PlayerDied {
        map_id: u8,
        serial: u32,
        body_graphic: u16,
        ghost_graphic: u16,
        hue: u16,
        x: u16,
        y: u16,
        z: i8,
        direction: u8,
        corpse_serial: u32,
        corpse_items: Vec<(u8, u32, u16, u16)>,
        entity: Option<EntitySnapshot>,
        mount_item_serial: Option<u32>,
    },
    /// A player came back to life.
    PlayerResurrected {
        map_id: u8,
        serial: u32,
        body_graphic: u16,
        hue: u16,
        x: u16,
        y: u16,
        z: i8,
        direction: u8,
        new_hits: u16,
        max_hits: u16,
        entity: Option<EntitySnapshot>,
    },
    /// A mobile took damage.
    DamageDealt {
        map_id: u8,
        serial: u32,
        source_serial: u32,
        amount: u16,
        new_hits: u16,
        max_hits: u16,
        x: u16,
        y: u16,
    },
    /// A mobile was healed.
    MobileHealed {
        map_id: u8,
        serial: u32,
        amount: u16,
        new_hits: u16,
        max_hits: u16,
        x: u16,
        y: u16,
    },
    /// Mana or stamina of a mobile changed.
    ManaStaminaChanged {
        map_id: u8,
        serial: u32,
        mana: u16,
        max_mana: u16,
        stamina: u16,
        max_stamina: u16,
        x: u16,
        y: u16,
    },
    /// Base attributes of a mobile changed.
    BaseStatChanged {
        map_id: u8,
        serial: u32,
        str_: u16,
        dex: u16,
        int_: u16,
        hits: u16,
        hits_max: u16,
        mana: u16,
        mana_max: u16,
        stamina: u16,
        stamina_max: u16,
        x: u16,
        y: u16,
    },
    /// Items in a container changed.
    ContainerContentsUpdated {
        map_id: u8,
        container_serial: u32,
        x: u16,
        y: u16,
        changes: Vec<ContainerContentChange>,
    },
    /// A gump for one player.
    TargetedGump {
        map_id: u8,
        target_player: u32,
        source_serial: u32,
        gump_id: u32,
        gump_x: u32,
        gump_y: u32,
        layout: String,
        text_lines: Vec<String>,
        pos_x: u16,
        pos_y: u16,
        blocking: bool,
    },
    /// A message for one player.
    TargetedMessage {
        map_id: u8,
        target_player: u32,
        message: String,
        color: u16,
        pos_x: u16,
        pos_y: u16,
    },
    /// One player is to close a gump.
    TargetedCloseGump {
        map_id: u8,
        target_player: u32,
        gump_id: u32,
        pos_x: u16,
        pos_y: u16,
    },
    /// One player is to pick a target.
    TargetedTargetCursor {
        map_id: u8,
        target_player: u32,
        cursor_id: u32,
        cursor_type: u8,
    },
    /// One player is to be moved to another map.
    TargetedCrossWorldTeleport {
        target_player: u32,
        map_id: u8,
        x: u16,
        y: u16,
        z: i8,
    },
    /// A map was restored from a snapshot.
    SnapshotRestored {
        map_id: u8,
        controller_metas: Vec<(u32, String)>,
        logout_pending: Vec<(u32, String)>,
        player_serials: Vec<(u32, String)>,
    },
}

} // verus!

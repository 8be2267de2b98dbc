//! The objects that the client of one session sees, what its mobiles wear, and
//! the containers it has looked into.

use std::collections::{HashMap, HashSet};

use vstd::prelude::*;

use super::container_packets::{
    added_item, container_item_from_add, container_items_from_content, content_items,
};
use crate::collections::{lists_serials, map_get_mut, serials_in_order, serials_up};
use crate::continuum::container::{
    container_or_new, deleted, opened, replaced, serials_of, upserted, ContainerItem,
    ContainerStore, ContainerView,
};
use crate::coords::{BlockKey, Pos3D};
use crate::ecumene::entity_registry::{part_height, raise, shift, shifted};
use crate::ecumene::tile_rect::TileRect;
use crate::packets::{
    copy_equipment, drawn_container, read_drawn_container, AddItemToContainer, DrawMobile,
    DrawMobileExtended, EquipItem, EquippedItem, MobileView, ObjectDataType, ObjectInfo,
    ObjectInfoSA, ServerPacket, UpdateMobile, LAYER_MOUNT,
};
use crate::vessel::entity::{shape_fn, Entity, EntitySnapshot, EntityState, Outcome};
use crate::vessel::static_data::{MultiPart, StaticDataProvider};
use crate::vessel::tile_shape::TileShape;

verus! {

broadcast use vstd::std_specs::hash::group_hash_axioms;

/// What an object is.
#[derive(Debug, Clone, Copy, PartialEq, Eq, Structural)]
pub enum VisibleKind {
    /// A weapon, a table, a wall.
    Item,
    /// A house or a boat.
    Multi,
    /// A player or a creature.
    Mobile,
}

/// An object as the server sent it.
#[derive(Debug)]
pub enum EntityData {
    /// An item or a multi-object in the older form.
    ItemClassic { packet: ObjectInfo, is_container: bool },
    /// An item or a multi-object in the newer form.
    ItemSA { packet: ObjectInfoSA, is_container: bool },
    /// A mobile with all it wears.
    Mobile { packet: DrawMobile },
}

/// What an [`EntityData`] amounts to.
#[verifier::ext_equal]
pub enum DataView {
    ItemClassic { packet: ObjectInfo, is_container: bool },
    ItemSA { packet: ObjectInfoSA, is_container: bool },
    Mobile { packet: MobileView },
}

impl View for EntityData {
    type V = DataView;

    open spec fn view(&self) -> DataView {
        match self {
            EntityData::ItemClassic { packet, is_container } => DataView::ItemClassic {
                packet: *packet,
                is_container: *is_container,
            },
            EntityData::ItemSA { packet, is_container } => DataView::ItemSA {
                packet: *packet,
                is_container: *is_container,
            },
            EntityData::Mobile { packet } => DataView::Mobile { packet: packet@ },
        }
    }
}

impl Clone for EntityData {
    fn clone(&self) -> (d: EntityData)
        ensures
            d@ == self@,
    {
        match self {
            EntityData::ItemClassic { packet, is_container } => EntityData::ItemClassic {
                packet: *packet,
                is_container: *is_container,
            },
            EntityData::ItemSA { packet, is_container } => EntityData::ItemSA {
                packet: *packet,
                is_container: *is_container,
            },
            EntityData::Mobile { packet } => EntityData::Mobile { packet: packet.clone() },
        }
    }
}

/// An object of the world, with what the server said of it.
#[derive(Debug)]
pub struct WorldEntity {
    pub serial: u32,
    pub data: EntityData,
}

/// What a [`WorldEntity`] amounts to.
#[verifier::ext_equal]
pub struct EntityView {
    pub serial: u32,
    pub data: DataView,
}

impl View for WorldEntity {
    type V = EntityView;

    open spec fn view(&self) -> EntityView {
        EntityView { serial: self.serial, data: self.data@ }
    }
}

impl Clone for WorldEntity {
    fn clone(&self) -> (e: WorldEntity)
        ensures
            e@ == self@,
    {
        WorldEntity { serial: self.serial, data: self.data.clone() }
    }
}

impl EntityView {
    pub open spec fn x(self) -> u16 {
        match self.data {
            DataView::ItemClassic { packet, .. } => packet.x,
            DataView::ItemSA { packet, .. } => packet.x,
            DataView::Mobile { packet } => packet.x,
        }
    }

    pub open spec fn y(self) -> u16 {
        match self.data {
            DataView::ItemClassic { packet, .. } => packet.y,
            DataView::ItemSA { packet, .. } => packet.y,
            DataView::Mobile { packet } => packet.y,
        }
    }

    pub open spec fn z(self) -> i8 {
        match self.data {
            DataView::ItemClassic { packet, .. } => packet.z,
            DataView::ItemSA { packet, .. } => packet.z,
            DataView::Mobile { packet } => packet.z,
        }
    }

    /// Body of a mobile, number of a multi-object, graphic of an item.
    pub open spec fn graphic(self) -> u16 {
        match self.data {
            DataView::ItemClassic { packet, .. } => match packet.multi {
                Some(m) => m,
                None => packet.graphic,
            },
            DataView::ItemSA { packet, .. } => packet.graphic,
            DataView::Mobile { packet } => packet.graphic,
        }
    }

    pub open spec fn kind(self) -> VisibleKind {
        match self.data {
            DataView::ItemClassic { packet, .. } => if packet.multi is Some {
                VisibleKind::Multi
            } else {
                VisibleKind::Item
            },
            DataView::ItemSA { packet, .. } => if packet.data_type is Multi {
                VisibleKind::Multi
            } else {
                VisibleKind::Item
            },
            DataView::Mobile { .. } => VisibleKind::Mobile,
        }
    }

    /// Whether it was seen opened. Mobiles never are.
    pub open spec fn container(self) -> bool {
        match self.data {
            DataView::ItemClassic { is_container, .. } => is_container,
            DataView::ItemSA { is_container, .. } => is_container,
            DataView::Mobile { .. } => false,
        }
    }

    /// The object with the mark of a container set or taken away.
    pub open spec fn marked(self, value: bool) -> EntityView {
        EntityView {
            serial: self.serial,
            data: match self.data {
                DataView::ItemClassic { packet, .. } => DataView::ItemClassic {
                    packet,
                    is_container: value,
                },
                DataView::ItemSA { packet, .. } => DataView::ItemSA {
                    packet,
                    is_container: value,
                },
                DataView::Mobile { packet } => DataView::Mobile { packet },
            },
        }
    }

    /// The object somewhere else.
    pub open spec fn placed(self, pos: Pos3D) -> EntityView {
        EntityView {
            serial: self.serial,
            data: match self.data {
                DataView::ItemClassic { packet, is_container } => DataView::ItemClassic {
                    packet: ObjectInfo { x: pos.x, y: pos.y, z: pos.z, ..packet },
                    is_container,
                },
                DataView::ItemSA { packet, is_container } => DataView::ItemSA {
                    packet: ObjectInfoSA { x: pos.x, y: pos.y, z: pos.z, ..packet },
                    is_container,
                },
                DataView::Mobile { packet } => DataView::Mobile {
                    packet: MobileView { x: pos.x, y: pos.y, z: pos.z, ..packet },
                },
            },
        }
    }

    /// The object facing another way; only mobiles face somewhere.
    pub open spec fn facing(self, direction: u8) -> EntityView {
        EntityView {
            serial: self.serial,
            data: match self.data {
                DataView::Mobile { packet } => DataView::Mobile {
                    packet: MobileView { direction, ..packet },
                },
                d => d,
            },
        }
    }

    /// What a mobile wears; others wear nothing.
    pub open spec fn worn(self) -> Seq<EquippedItem> {
        match self.data {
            DataView::Mobile { packet } => packet.items,
            _ => Seq::empty(),
        }
    }

    /// Whether the serial is the one that the server named.
    pub open spec fn named(self) -> bool {
        match self.data {
            DataView::ItemClassic { packet, .. } => packet.object_id == self.serial,
            DataView::ItemSA { packet, .. } => packet.serial == self.serial,
            DataView::Mobile { packet } => packet.serial == self.serial,
        }
    }

    /// What the world reads of the object.
    pub open spec fn as_state(self) -> EntityState {
        EntityState {
            serial: self.serial,
            pos: Pos3D { x: self.x(), y: self.y(), z: self.z() },
            graphic: self.graphic(),
            mobile: self.kind() is Mobile,
            multi: self.kind() is Multi,
            container: self.container(),
            player: false,
            mounted: false,
            direction: None,
            hits: None,
            mana: None,
            stamina: None,
            notoriety: None,
            name: None,
            equipment: Seq::empty(),
            backpack: None,
            snapshot: None,
        }
    }
}

impl WorldEntity {
    pub fn x(&self) -> (v: u16)
        ensures
            v == self@.x(),
    {
        match &self.data {
            EntityData::ItemClassic { packet, .. } => packet.x,
            EntityData::ItemSA { packet, .. } => packet.x,
            EntityData::Mobile { packet } => packet.x,
        }
    }

    pub fn y(&self) -> (v: u16)
        ensures
            v == self@.y(),
    {
        match &self.data {
            EntityData::ItemClassic { packet, .. } => packet.y,
            EntityData::ItemSA { packet, .. } => packet.y,
            EntityData::Mobile { packet } => packet.y,
        }
    }

    pub fn z(&self) -> (v: i8)
        ensures
            v == self@.z(),
    {
        match &self.data {
            EntityData::ItemClassic { packet, .. } => packet.z,
            EntityData::ItemSA { packet, .. } => packet.z,
            EntityData::Mobile { packet } => packet.z,
        }
    }

    /// Body of a mobile, number of a multi-object, graphic of an item.
    pub fn graphic(&self) -> (g: u16)
        ensures
            g == self@.graphic(),
    {
        match &self.data {
            EntityData::ItemClassic { packet, .. } => match packet.multi_id() {
                Some(m) => m,
                None => packet.graphic,
            },
            EntityData::ItemSA { packet, .. } => packet.graphic,
            EntityData::Mobile { packet } => packet.graphic,
        }
    }

    pub fn kind(&self) -> (k: VisibleKind)
        ensures
            k == self@.kind(),
    {
        match &self.data {
            EntityData::ItemClassic { packet, .. } => if packet.is_multi() {
                VisibleKind::Multi
            } else {
                VisibleKind::Item
            },
            EntityData::ItemSA { packet, .. } => if packet.data_type == ObjectDataType::Multi {
                VisibleKind::Multi
            } else {
                VisibleKind::Item
            },
            EntityData::Mobile { .. } => VisibleKind::Mobile,
        }
    }

    pub fn is_mobile(&self) -> (b: bool)
        ensures
            b == (self@.kind() is Mobile),
    {
        matches!(self.data, EntityData::Mobile { .. })
    }

    pub fn is_multi(&self) -> (b: bool)
        ensures
            b == (self@.kind() is Multi),
    {
        match &self.data {
            EntityData::ItemClassic { packet, .. } => packet.is_multi(),
            EntityData::ItemSA { packet, .. } => packet.data_type == ObjectDataType::Multi,
            EntityData::Mobile { .. } => false,
        }
    }

    /// Whether it is neither a mobile nor a multi-object.
    pub fn is_item(&self) -> (b: bool)
        ensures
            b == (self@.kind() is Item),
    {
        !self.is_mobile() && !self.is_multi()
    }

    /// Whether it was seen opened. Mobiles never are.
    pub fn is_container(&self) -> (b: bool)
        ensures
            b == self@.container(),
    {
        match &self.data {
            EntityData::ItemClassic { is_container, .. } => *is_container,
            EntityData::ItemSA { is_container, .. } => *is_container,
            EntityData::Mobile { .. } => false,
        }
    }

    /// Marks an item as a container, or not. Mobiles stay as they are.
    pub fn set_container(&mut self, value: bool)
        ensures
            final(self)@ == old(self)@.marked(value),
    {
        match &mut self.data {
            EntityData::ItemClassic { is_container, .. } => {
                *is_container = value;
            },
            EntityData::ItemSA { is_container, .. } => {
                *is_container = value;
            },
            EntityData::Mobile { .. } => {},
        }
    }
}

/// The shapes of the parts of a multi-object at `pos`, in order; parts that are
/// not there for anyone, or whose graphic is not known, have none.
pub open spec fn part_forms(
    shape: spec_fn(i8, u16) -> Option<TileShape>,
    pos: Pos3D,
    parts: Seq<MultiPart>,
) -> Seq<(u16, u16, TileShape)>
    decreases parts.len(),
{
    if parts.len() == 0 {
        Seq::empty()
    } else {
        let head = part_forms(shape, pos, parts.drop_last());
        let p = parts.last();
        if p.flags == 0 {
            head
        } else {
            match shape(part_height(pos.z, p.z), p.tile_id) {
                Some(s) => head.push((shifted(pos.x, p.x), shifted(pos.y, p.y), s)),
                None => head,
            }
        }
    }
}

fn collect_part_forms<D: StaticDataProvider>(sd: &D, pos: Pos3D, parts: &[MultiPart]) -> (r: Vec<
    (u16, u16, TileShape),
>)
    ensures
        r@ == part_forms(shape_fn(sd), pos, parts@),
{
    let mut r: Vec<(u16, u16, TileShape)> = Vec::new();
    let mut i: usize = 0;
    assert(parts@.take(0) =~= Seq::<MultiPart>::empty());
    while i < parts.len()
        invariant
            i <= parts@.len(),
            r@ == part_forms(shape_fn(sd), pos, parts@.take(i as int)),
        decreases parts@.len() - i,
    {
        assert(parts@.take(i + 1).drop_last() =~= parts@.take(i as int));
        let p = parts[i];
        if p.flags != 0 {
            if let Some(s) = sd.static_shape(raise(pos.z, p.z), p.tile_id) {
                r.push((shift(pos.x, p.x), shift(pos.y, p.y), s));
            }
        }
        i += 1;
    }
    assert(parts@.take(i as int) =~= parts@);
    r
}

impl Entity for WorldEntity {
    open spec fn state(&self) -> EntityState {
        self@.as_state()
    }

    open spec fn forms(
        &self,
        shape: spec_fn(i8, u16) -> Option<TileShape>,
        parts: spec_fn(u16) -> Seq<MultiPart>,
    ) -> Seq<(u16, u16, TileShape)> {
        match self@.kind() {
            VisibleKind::Mobile => Seq::empty(),
            VisibleKind::Multi => part_forms(
                shape,
                self@.as_state().pos,
                parts(self@.graphic()),
            ),
            VisibleKind::Item => match shape(self@.z(), self@.graphic()) {
                Some(s) => seq![(self@.x(), self@.y(), s)],
                None => Seq::empty(),
            },
        }
    }

    open spec fn moved(&self, pos: Pos3D) -> EntityState {
        self@.placed(pos).as_state()
    }

    open spec fn turned(&self, direction: u8) -> EntityState {
        self@.facing(direction).as_state()
    }

    open spec fn damaged(&self, amount: u16) -> Outcome {
        Outcome { state: self.state(), value: 0 }
    }

    open spec fn healed(&self, amount: u16) -> Outcome {
        Outcome { state: self.state(), value: 0 }
    }

    open spec fn mana_shifted(&self, delta: i32) -> Outcome {
        Outcome { state: self.state(), value: 0 }
    }

    open spec fn stamina_shifted(&self, delta: i32) -> Outcome {
        Outcome { state: self.state(), value: 0 }
    }

    fn serial(&self) -> (s: u32) {
        self.serial
    }

    fn pos(&self) -> (p: Pos3D) {
        Pos3D::new(self.x(), self.y(), self.z())
    }

    fn graphic(&self) -> (g: u16) {
        WorldEntity::graphic(self)
    }

    fn is_mobile(&self) -> (b: bool) {
        WorldEntity::is_mobile(self)
    }

    fn is_multi(&self) -> (b: bool) {
        WorldEntity::is_multi(self)
    }

    fn is_container(&self) -> (b: bool) {
        WorldEntity::is_container(self)
    }

    fn is_player(&self) -> (b: bool) {
        false
    }

    fn is_mounted(&self) -> (b: bool) {
        false
    }

    fn direction(&self) -> (d: Option<u8>) {
        None
    }

    fn hits(&self) -> (v: Option<(u16, u16)>) {
        None
    }

    fn mana(&self) -> (v: Option<(u16, u16)>) {
        None
    }

    fn stamina(&self) -> (v: Option<(u16, u16)>) {
        None
    }

    fn notoriety(&self) -> (v: Option<u8>) {
        None
    }

    fn name(&self) -> (v: Option<String>) {
        None
    }

    fn equipment_serials(&self) -> (v: Vec<u32>) {
        Vec::new()
    }

    fn backpack_serial(&self) -> (v: Option<u32>) {
        None
    }

    fn snapshot(&self) -> (v: Option<EntitySnapshot>) {
        None
    }

    fn set_pos(&mut self, pos: Pos3D)
        ensures
            final(self)@ == old(self)@.placed(pos),
    {
        match &mut self.data {
            EntityData::ItemClassic { packet, .. } => {
                packet.x = pos.x;
                packet.y = pos.y;
                packet.z = pos.z;
            },
            EntityData::ItemSA { packet, .. } => {
                packet.x = pos.x;
                packet.y = pos.y;
                packet.z = pos.z;
            },
            EntityData::Mobile { packet } => {
                packet.x = pos.x;
                packet.y = pos.y;
                packet.z = pos.z;
            },
        }
    }

    fn set_direction(&mut self, direction: u8)
        ensures
            final(self)@ == old(self)@.facing(direction),
    {
        if let EntityData::Mobile { packet } = &mut self.data {
            packet.direction = direction;
        }
    }

    fn apply_damage(&mut self, amount: u16) -> (hits: u16) {
        0
    }

    fn apply_heal(&mut self, amount: u16) -> (hits: u16) {
        0
    }

    fn modify_mana(&mut self, delta: i32) -> (mana: u16) {
        0
    }

    fn modify_stamina(&mut self, delta: i32) -> (stamina: u16) {
        0
    }

    fn extract_shapes<D: StaticDataProvider>(&self, sd: &D) -> (v: Vec<(u16, u16, TileShape)>) {
        if WorldEntity::is_mobile(self) {
            return Vec::new();
        }
        if WorldEntity::is_multi(self) {
            let pos = Pos3D::new(self.x(), self.y(), self.z());
            collect_part_forms(sd, pos, sd.multi_parts(WorldEntity::graphic(self)))
        } else {
            let mut v: Vec<(u16, u16, TileShape)> = Vec::new();
            if let Some(s) = sd.static_shape(self.z(), WorldEntity::graphic(self)) {
                v.push((self.x(), self.y(), s));
            }
            v
        }
    }

    fn duplicate(&self) -> (e: WorldEntity) {
        self.clone()
    }
}

/// What a map of objects amounts to.
pub open spec fn seen(m: Map<u32, WorldEntity>) -> Map<u32, EntityView> {
    m.map_values(|e: WorldEntity| e@)
}

pub proof fn lemma_seen(m: Map<u32, WorldEntity>, k: u32, e: WorldEntity)
    ensures
        seen(m.insert(k, e)) == seen(m).insert(k, e@),
        seen(m.remove(k)) == seen(m).remove(k),
        seen(m).dom() == m.dom(),
        m.contains_key(k) ==> seen(m)[k] == m[k]@,
{
    assert(seen(m.insert(k, e)) =~= seen(m).insert(k, e@));
    assert(seen(m.remove(k)) =~= seen(m).remove(k));
    assert(seen(m).dom() =~= m.dom());
}

/// Whether an item with this serial is worn.
pub open spec fn wears(items: Seq<EquippedItem>, s: u32) -> bool {
    exists|i: int| 0 <= i < items.len() && (#[trigger] items[i]).serial == s
}

/// The index without the items of a list.
pub open spec fn index_minus(index: Map<u32, u32>, items: Seq<EquippedItem>) -> Map<u32, u32> {
    Map::new(|s: u32| index.contains_key(s) && !wears(items, s), |s: u32| index[s])
}

/// The index with the items of a list, worn by `owner`.
pub open spec fn index_plus(
    index: Map<u32, u32>,
    items: Seq<EquippedItem>,
    owner: u32,
) -> Map<u32, u32> {
    Map::new(
        |s: u32| index.contains_key(s) || wears(items, s),
        |s: u32|
            if wears(items, s) {
                owner
            } else {
                index[s]
            },
    )
}

/// What is worn once an item was put on: what was on its layer comes off.
pub open spec fn dressed(items: Seq<EquippedItem>, q: EquipItem) -> Seq<EquippedItem> {
    items.filter(|e: EquippedItem| e.layer != q.layer).push(
        EquippedItem {
            serial: q.item_serial,
            graphic: q.graphic,
            layer: q.layer,
            color: if q.color != 0 {
                Some(q.color)
            } else {
                None
            },
        },
    )
}

/// What is worn once an item is gone.
pub open spec fn undressed(items: Seq<EquippedItem>, s: u32) -> Seq<EquippedItem> {
    items.filter(|e: EquippedItem| e.serial != s)
}

/// What a session sees.
#[verifier::ext_equal]
pub struct VisibleView {
    pub entities: Map<u32, EntityView>,
    /// Serial of a worn item to the serial of the mobile that wears it.
    pub index: Map<u32, u32>,
    pub containers: Map<u32, ContainerView>,
    pub view_rect: TileRect,
    pub view_range: u16,
}

impl VisibleView {
    /// Whether what the index says of a serial is so.
    pub open spec fn truly_worn(self, s: u32) -> bool {
        self.index.contains_key(s) ==> self.entities.contains_key(self.index[s]) && wears(
            self.entities[self.index[s]].worn(),
            s,
        )
    }

    /// Whether an object is kept under its own serial.
    pub open spec fn well_kept(self, s: u32) -> bool {
        self.entities.contains_key(s) ==> self.entities[s].serial == s && self.entities[s].named()
    }

    /// Whatever the index lists is worn by a mobile that is seen.
    pub open spec fn wf(self) -> bool {
        &&& forall|s: u32| #[trigger] self.truly_worn(s)
        &&& forall|s: u32| #[trigger] self.well_kept(s)
    }

    /// With an object in place of the one with its serial.
    pub open spec fn with(self, e: EntityView) -> VisibleView {
        let freed = if self.entities.contains_key(e.serial) {
            index_minus(self.index, self.entities[e.serial].worn())
        } else {
            self.index
        };
        VisibleView {
            entities: self.entities.insert(e.serial, e),
            index: index_plus(freed, e.worn(), e.serial),
            ..self
        }
    }

    /// Whether the object with a serial is known to be a container.
    pub open spec fn known_container(self, s: u32) -> bool {
        self.entities.contains_key(s) && self.entities[s].container()
    }

    /// With an item in the older form.
    pub open spec fn with_classic(self, obj: ObjectInfo) -> VisibleView {
        self.with(
            EntityView {
                serial: obj.object_id,
                data: DataView::ItemClassic {
                    packet: obj,
                    is_container: self.known_container(obj.object_id),
                },
            },
        )
    }

    /// With an item in the newer form.
    pub open spec fn with_sa(self, obj: ObjectInfoSA) -> VisibleView {
        self.with(
            EntityView {
                serial: obj.serial,
                data: DataView::ItemSA {
                    packet: obj,
                    is_container: self.known_container(obj.serial),
                },
            },
        )
    }

    /// With all items of a list, one after the other.
    pub open spec fn with_list(self, list: Seq<ObjectInfoSA>) -> VisibleView
        decreases list.len(),
    {
        if list.len() == 0 {
            self
        } else {
            self.with_list(list.drop_last()).with_sa(list.last())
        }
    }

    /// With a mobile.
    pub open spec fn with_mobile(self, mob: MobileView) -> VisibleView {
        self.with(EntityView { serial: mob.serial, data: DataView::Mobile { packet: mob } })
    }

    /// Whether a mobile with this serial is seen.
    pub open spec fn has_mobile(self, s: u32) -> bool {
        self.entities.contains_key(s) && self.entities[s].data is Mobile
    }

    /// The mobile with this serial.
    pub open spec fn mobile(self, s: u32) -> MobileView {
        self.entities[s].data->Mobile_packet
    }

    /// With another state of the mobile under a serial.
    pub open spec fn set_mobile(self, s: u32, m: MobileView) -> VisibleView {
        VisibleView {
            entities: self.entities.insert(
                s,
                EntityView {
                    serial: self.entities[s].serial,
                    data: DataView::Mobile { packet: m },
                },
            ),
            ..self
        }
    }

    /// After news of a mobile. It keeps what it wears; of one that is not seen
    /// there is no news.
    pub open spec fn updated(self, u: UpdateMobile) -> VisibleView {
        if self.has_mobile(u.serial) {
            self.set_mobile(
                u.serial,
                MobileView {
                    graphic: u.model,
                    x: u.x,
                    y: u.y,
                    z: u.z,
                    direction: u.direction,
                    color: u.hue,
                    status: u.status_flags,
                    notoriety: u.notoriety,
                    ..self.mobile(u.serial)
                },
            )
        } else {
            self
        }
    }

    /// After a mobile that is seen put on an item. What came off is no longer
    /// listed as worn by it.
    pub open spec fn equipped(self, q: EquipItem) -> VisibleView {
        if self.has_mobile(q.player_serial) {
            let m = self.mobile(q.player_serial);
            let items = dressed(m.items, q);
            VisibleView {
                index: Map::new(
                    |s: u32|
                        s == q.item_serial || (self.index.contains_key(s) && !(self.index[s]
                            == q.player_serial && wears(m.items, s) && !wears(items, s))),
                    |s: u32|
                        if s == q.item_serial {
                            q.player_serial
                        } else {
                            self.index[s]
                        },
                ),
                ..self.set_mobile(q.player_serial, MobileView { items, ..m })
            }
        } else {
            self
        }
    }

    /// Without an object, containers apart: a worn item comes off its mobile, any
    /// other object goes with all it wears.
    pub open spec fn without(self, s: u32) -> VisibleView {
        if self.index.contains_key(s) {
            let owner = self.index[s];
            let rest = if self.has_mobile(owner) {
                let m = self.mobile(owner);
                self.set_mobile(owner, MobileView { items: undressed(m.items, s), ..m })
            } else {
                self
            };
            VisibleView { index: self.index.remove(s), ..rest }
        } else {
            self.gone(s)
        }
    }

    /// Without an object that nobody wears.
    pub open spec fn gone(self, s: u32) -> VisibleView {
        if self.entities.contains_key(s) {
            VisibleView {
                entities: self.entities.remove(s),
                index: index_minus(self.index, self.entities[s].worn()),
                ..self
            }
        } else {
            self
        }
    }

    /// Whether `after` is what the removal of an object leaves.
    pub open spec fn removed(self, after: VisibleView, s: u32) -> bool {
        &&& deleted(self.containers, after.containers, s)
        &&& after == (VisibleView { containers: after.containers, ..self.without(s) })
    }

    /// After a container was opened.
    pub open spec fn opened_container(self, s: u32, gump_model: u16) -> VisibleView {
        VisibleView {
            entities: if self.entities.contains_key(s) {
                self.entities.insert(s, self.entities[s].marked(true))
            } else {
                self.entities
            },
            containers: opened(self.containers, s, gump_model),
            ..self
        }
    }

    /// The mobile that wears an item, or the object itself.
    pub open spec fn lookup(self, s: u32) -> Option<u32> {
        if self.entities.contains_key(s) {
            Some(s)
        } else if self.index.contains_key(s) {
            Some(self.index[s])
        } else {
            None
        }
    }

    /// The serials of all objects outside a rectangle, ascending.
    pub open spec fn outside(self, rect: TileRect) -> Seq<u32> {
        serials_up(self.entities.dom()).filter(
            |s: u32| !rect.has(self.entities[s].x() as int, self.entities[s].y() as int),
        )
    }

    /// The serials of all objects inside a rectangle, ascending.
    pub open spec fn inside(self, rect: TileRect) -> Seq<u32> {
        serials_up(self.entities.dom()).filter(
            |s: u32| rect.has(self.entities[s].x() as int, self.entities[s].y() as int),
        )
    }

    /// Without the objects that a rectangle does not hold.
    pub open spec fn confined(self, rect: TileRect) -> VisibleView {
        VisibleView {
            entities: self.entities.restrict(
                Set::new(
                    |s: u32|
                        self.entities.contains_key(s) && rect.has(
                            self.entities[s].x() as int,
                            self.entities[s].y() as int,
                        ),
                ),
            ),
            index: Map::new(
                |i: u32|
                    self.index.contains_key(i) && !exists|s: u32|
                        self.entities.contains_key(s) && !rect.has(
                            self.entities[s].x() as int,
                            self.entities[s].y() as int,
                        ) && wears((#[trigger] self.entities[s]).worn(), i),
                |i: u32| self.index[i],
            ),
            ..self
        }
    }
}

/// The objects that a session sees, kept by their serials.
#[derive(Debug)]
pub struct VisibleWorld {
    pub entities: HashMap<u32, WorldEntity>,
    /// Serial of a worn item to the serial of the mobile that wears it.
    pub equipment_index: HashMap<u32, u32>,
    pub containers: ContainerStore,
    pub view_rect: TileRect,
    pub view_range: u16,
}

/// Another name for [`WorldEntity`].
pub type VisibleItem = WorldEntity;

/// Another name for [`VisibleWorld`].
pub type VisibleSet = VisibleWorld;

impl View for VisibleWorld {
    type V = VisibleView;

    open spec fn view(&self) -> VisibleView {
        VisibleView {
            entities: seen(self.entities@),
            index: self.equipment_index@,
            containers: self.containers@,
            view_rect: self.view_rect,
            view_range: self.view_range,
        }
    }
}

/// Adds the items of a list to an index.
fn index_equipment(index: &mut HashMap<u32, u32>, owner: u32, items: &Vec<EquippedItem>)
    ensures
        final(index)@ == index_plus(old(index)@, items@, owner),
{
    let ghost start = index@;
    let mut i: usize = 0;
    assert(index@ =~= index_plus(start, items@.take(0), owner));
    while i < items.len()
        invariant
            i <= items@.len(),
            index@ == index_plus(start, items@.take(i as int), owner),
        decreases items@.len() - i,
    {
        let ghost before = index@;
        index.insert(items[i].serial, owner);
        proof {
            let pre = items@.take(i as int);
            let post = items@.take(i + 1);
            assert forall|s: u32| #[trigger] wears(post, s) <==> wears(pre, s) || s
                == items@[i as int].serial by {
                lemma_wears_next(items@, i as int, s);
            }
            assert(index@ =~= index_plus(start, post, owner));
        }
        i += 1;
    }
    assert(items@.take(i as int) =~= items@);
}

/// Takes the items of a list out of an index.
fn unindex_equipment(index: &mut HashMap<u32, u32>, items: &Vec<EquippedItem>)
    ensures
        final(index)@ == index_minus(old(index)@, items@),
{
    let ghost start = index@;
    let mut i: usize = 0;
    assert(index@ =~= index_minus(start, items@.take(0)));
    while i < items.len()
        invariant
            i <= items@.len(),
            index@ == index_minus(start, items@.take(i as int)),
        decreases items@.len() - i,
    {
        index.remove(&items[i].serial);
        proof {
            let pre = items@.take(i as int);
            let post = items@.take(i + 1);
            assert forall|s: u32| #[trigger] wears(post, s) <==> wears(pre, s) || s
                == items@[i as int].serial by {
                lemma_wears_next(items@, i as int, s);
            }
            assert(index@ =~= index_minus(start, post));
        }
        i += 1;
    }
    assert(items@.take(i as int) =~= items@);
}

proof fn lemma_wears_next(items: Seq<EquippedItem>, i: int, s: u32)
    requires
        0 <= i < items.len(),
    ensures
        wears(items.take(i + 1), s) <==> wears(items.take(i), s) || s == items[i].serial,
{
    let pre = items.take(i);
    let post = items.take(i + 1);
    if wears(post, s) {
        let j = choose|j: int| 0 <= j < post.len() && (#[trigger] post[j]).serial == s;
        if j < i {
            assert(pre[j].serial == s);
        }
    }
    if wears(pre, s) {
        let j = choose|j: int| 0 <= j < pre.len() && (#[trigger] pre[j]).serial == s;
        assert(post[j].serial == s);
    }
    if s == items[i].serial {
        assert(post[i].serial == s);
    }
}

proof fn lemma_wears_kept(items: Seq<EquippedItem>, keep: spec_fn(EquippedItem) -> bool, s: u32)
    ensures
        wears(items.filter(keep), s) ==> wears(items, s),
        forall|i: int|
            0 <= i < items.len() && keep(#[trigger] items[i]) && items[i].serial == s ==> wears(
                items.filter(keep),
                s,
            ),
{
    let kept = items.filter(keep);
    if wears(kept, s) {
        let i = choose|i: int| 0 <= i < kept.len() && (#[trigger] kept[i]).serial == s;
        assert(kept.contains(kept[i]));
        items.lemma_filter_contains_rev(keep, kept[i]);
        let j = choose|j: int| 0 <= j < items.len() && items[j] == kept[i];
        assert(items[j].serial == s);
    }
    assert forall|i: int|
        0 <= i < items.len() && keep(#[trigger] items[i]) && items[i].serial == s implies wears(
        kept,
        s,
    ) by {
        items.lemma_filter_contains(keep, i);
        let j = choose|j: int| 0 <= j < kept.len() && kept[j] == items[i];
        assert(kept[j].serial == s);
    }
}

/// Whether an item with this serial is worn.
fn is_worn(items: &Vec<EquippedItem>, s: u32) -> (b: bool)
    ensures
        b == wears(items@, s),
{
    let mut i: usize = 0;
    while i < items.len()
        invariant
            i <= items@.len(),
            forall|j: int| 0 <= j < i ==> (#[trigger] items@[j]).serial != s,
        decreases items@.len() - i,
    {
        if items[i].serial == s {
            return true;
        }
        i += 1;
    }
    false
}

/// The items of a list that are on another layer.
fn off_layer(items: &Vec<EquippedItem>, layer: u8) -> (r: Vec<EquippedItem>)
    ensures
        r@ == items@.filter(|e: EquippedItem| e.layer != layer),
{
    let mut r: Vec<EquippedItem> = Vec::new();
    let mut i: usize = 0;
    proof {
        reveal(Seq::filter);
        assert(items@.take(0) =~= Seq::<EquippedItem>::empty());
    }
    while i < items.len()
        invariant
            i <= items@.len(),
            r@ == items@.take(i as int).filter(|e: EquippedItem| e.layer != layer),
        decreases items@.len() - i,
    {
        proof {
            reveal(Seq::filter);
            assert(items@.take(i + 1).drop_last() =~= items@.take(i as int));
        }
        if items[i].layer != layer {
            r.push(items[i]);
        }
        i += 1;
    }
    assert(items@.take(i as int) =~= items@);
    r
}

/// The items of a list other than one.
fn other_items(items: &Vec<EquippedItem>, s: u32) -> (r: Vec<EquippedItem>)
    ensures
        r@ == undressed(items@, s),
{
    let mut r: Vec<EquippedItem> = Vec::new();
    let mut i: usize = 0;
    proof {
        reveal(Seq::filter);
        assert(items@.take(0) =~= Seq::<EquippedItem>::empty());
    }
    while i < items.len()
        invariant
            i <= items@.len(),
            r@ == undressed(items@.take(i as int), s),
        decreases items@.len() - i,
    {
        proof {
            reveal(Seq::filter);
            assert(items@.take(i + 1).drop_last() =~= items@.take(i as int));
        }
        if items[i].serial != s {
            r.push(items[i]);
        }
        i += 1;
    }
    assert(items@.take(i as int) =~= items@);
    r
}

impl VisibleWorld {
    /// An empty world around `(cx, cy)`.
    pub fn new(cx: u16, cy: u16, range: u16) -> (w: VisibleWorld)
        ensures
            w@ == (VisibleView {
                entities: Map::empty(),
                index: Map::empty(),
                containers: Map::empty(),
                view_rect: TileRect::view_spec(cx, cy, range),
                view_range: range,
            }),
            w@.wf(),
    {
        let w = VisibleWorld {
            entities: HashMap::new(),
            equipment_index: HashMap::new(),
            containers: ContainerStore::new(),
            view_rect: TileRect::from_view(cx, cy, range),
            view_range: range,
        };
        assert(w@.entities =~= Map::<u32, EntityView>::empty());
        assert forall|s: u32| #[trigger] w@.truly_worn(s) by {}
        assert forall|s: u32| #[trigger] w@.well_kept(s) by {}
        w
    }

    /// The object with this serial. Worn items are not among them.
    pub fn get(&self, serial: u32) -> (r: Option<&WorldEntity>)
        ensures
            r is Some <==> self@.entities.contains_key(serial),
            r matches Some(e) ==> e@ == self@.entities[serial],
    {
        self.entities.get(&serial)
    }

    /// Access to the object with this serial.
    pub fn get_mut(&mut self, serial: u32) -> (r: Option<&mut WorldEntity>)
        ensures
            match r {
                Some(e) => {
                    &&& old(self)@.entities.contains_key(serial)
                    &&& e@ == old(self)@.entities[serial]
                    &&& final(self)@ == (VisibleView {
                        entities: old(self)@.entities.insert(serial, final(e)@),
                        ..old(self)@
                    })
                },
                None => {
                    &&& !old(self)@.entities.contains_key(serial)
                    &&& final(self)@ == old(self)@
                },
            },
    {
        let ghost before = self.entities@;
        match map_get_mut(&mut self.entities, serial) {
            Some(e) => {
                proof {
                    lemma_seen(before, serial, *final(e));
                }
                Some(e)
            },
            None => None,
        }
    }

    /// The mobile that wears an item, or the object itself; `None` if the serial
    /// is not known.
    pub fn lookup_serial(&self, serial: u32) -> (r: Option<u32>)
        ensures
            r == self@.lookup(serial),
    {
        if self.entities.contains_key(&serial) {
            Some(serial)
        } else {
            match self.equipment_index.get(&serial) {
                Some(owner) => Some(*owner),
                None => None,
            }
        }
    }

    /// Puts an object in place of the one with its serial.
    fn upsert_entity(&mut self, entity: WorldEntity)
        ensures
            final(self)@ == old(self)@.with(entity@),
            old(self)@.wf() && entity@.named() ==> final(self)@.wf(),
    {
        let ghost before = self@;
        let ghost map0 = self.entities@;
        let ghost e = entity;
        let serial: u32 = entity.serial;
        match self.entities.get(&serial) {
            Some(old_entity) => {
                if let EntityData::Mobile { packet } = &old_entity.data {
                    unindex_equipment(&mut self.equipment_index, &packet.items);
                } else {
                    assert(index_minus(before.index, before.entities[serial].worn())
                        =~= before.index);
                }
            },
            None => {},
        }
        let ghost freed = self.equipment_index@;
        if let EntityData::Mobile { packet } = &entity.data {
            index_equipment(&mut self.equipment_index, serial, &packet.items);
        } else {
            assert(index_plus(freed, entity@.worn(), serial) =~= freed);
        }
        self.entities.insert(serial, entity);
        proof {
            lemma_seen(map0, serial, e);
            assert(self@ =~= before.with(e@));
            if before.wf() && e@.named() {
                lemma_with_keeps(before, e@);
            }
        }
    }

    /// Puts an item in the older form in place. One that was seen opened stays a
    /// container.
    pub fn upsert_object_info(&mut self, obj: &ObjectInfo)
        ensures
            final(self)@ == old(self)@.with_classic(*obj),
            old(self)@.wf() ==> final(self)@.wf(),
    {
        let is_container = match self.entities.get(&obj.object_id) {
            Some(e) => e.is_container(),
            None => false,
        };
        self.upsert_entity(
            WorldEntity {
                serial: obj.object_id,
                data: EntityData::ItemClassic { packet: *obj, is_container },
            },
        );
    }

    /// Puts an item in the newer form in place. One that was seen opened stays a
    /// container.
    pub fn upsert_object_info_sa(&mut self, obj: &ObjectInfoSA)
        ensures
            final(self)@ == old(self)@.with_sa(*obj),
            old(self)@.wf() ==> final(self)@.wf(),
    {
        let is_container = match self.entities.get(&obj.serial) {
            Some(e) => e.is_container(),
            None => false,
        };
        self.upsert_entity(
            WorldEntity {
                serial: obj.serial,
                data: EntityData::ItemSA { packet: *obj, is_container },
            },
        );
    }

    /// Puts all items of a list in place, one after the other.
    pub fn upsert_packet_list(&mut self, list: &Vec<ObjectInfoSA>)
        ensures
            final(self)@ == old(self)@.with_list(list@),
            old(self)@.wf() ==> final(self)@.wf(),
    {
        let ghost before = self@;
        let mut i: usize = 0;
        assert(list@.take(0) =~= Seq::<ObjectInfoSA>::empty());
        while i < list.len()
            invariant
                i <= list@.len(),
                self@ == before.with_list(list@.take(i as int)),
                before.wf() ==> self@.wf(),
            decreases list@.len() - i,
        {
            assert(list@.take(i + 1).drop_last() =~= list@.take(i as int));
            self.upsert_object_info_sa(&list[i]);
            i += 1;
        }
        assert(list@.take(i as int) =~= list@);
    }

    /// Puts a mobile in place.
    pub fn upsert_draw_mobile(&mut self, mob: &DrawMobile)
        ensures
            final(self)@ == old(self)@.with_mobile(mob@),
            old(self)@.wf() ==> final(self)@.wf(),
    {
        self.upsert_entity(
            WorldEntity { serial: mob.serial, data: EntityData::Mobile { packet: mob.clone() } },
        );
    }

    /// Puts a mobile in place, without the three further fields.
    pub fn upsert_draw_mobile_ext(&mut self, mob: &DrawMobileExtended)
        ensures
            final(self)@ == old(self)@.with_mobile(mob.plain()),
            old(self)@.wf() ==> final(self)@.wf(),
    {
        let packet = DrawMobile {
            serial: mob.serial,
            graphic: mob.graphic,
            x: mob.x,
            y: mob.y,
            z: mob.z,
            direction: mob.direction,
            color: mob.color,
            status: mob.status,
            notoriety: mob.notoriety,
            items: copy_equipment(&mob.items),
        };
        assert(packet@ == mob.plain());
        self.upsert_entity(
            WorldEntity { serial: mob.serial, data: EntityData::Mobile { packet } },
        );
    }

    /// Takes news of a mobile that is seen. It keeps what it wears.
    pub fn apply_update_mobile(&mut self, upd: &UpdateMobile)
        ensures
            final(self)@ == old(self)@.updated(*upd),
            old(self)@.wf() ==> final(self)@.wf(),
    {
        let ghost before = self@;
        let ghost map0 = self.entities@;
        if let Some(entity) = map_get_mut(&mut self.entities, upd.serial) {
            if let EntityData::Mobile { packet } = &mut entity.data {
                packet.graphic = upd.model;
                packet.x = upd.x;
                packet.y = upd.y;
                packet.z = upd.z;
                packet.direction = upd.direction;
                packet.color = upd.hue;
                packet.status = upd.status_flags;
                packet.notoriety = upd.notoriety;
            }
        }
        proof {
            if map0.contains_key(upd.serial) {
                lemma_seen(map0, upd.serial, self.entities@[upd.serial]);
                assert(self.entities@ =~= map0.insert(upd.serial, self.entities@[upd.serial]));
                if !(map0[upd.serial].data is Mobile) {
                    assert(map0.insert(upd.serial, map0[upd.serial]) =~= map0);
                }
            }
            assert(self@ =~= before.updated(*upd));
            if before.wf() {
                lemma_updated_keeps(before, *upd);
            }
        }
    }
}

proof fn lemma_with_keeps(v: VisibleView, e: EntityView)
    requires
        v.wf(),
        e.named(),
    ensures
        v.with(e).wf(),
{
    let w = v.with(e);
    assert forall|s: u32| #[trigger] w.truly_worn(s) by {
        assert(v.truly_worn(s));
        assert(v.well_kept(e.serial));
    }
    assert forall|s: u32| #[trigger] w.well_kept(s) by {
        assert(v.well_kept(s));
    }
}

proof fn lemma_updated_keeps(v: VisibleView, u: UpdateMobile)
    requires
        v.wf(),
    ensures
        v.updated(u).wf(),
{
    let w = v.updated(u);
    assert forall|s: u32| #[trigger] w.truly_worn(s) by {
        assert(v.truly_worn(s));
    }
    assert forall|s: u32| #[trigger] w.well_kept(s) by {
        assert(v.well_kept(s));
    }
}

proof fn lemma_equipped_keeps(v: VisibleView, q: EquipItem)
    requires
        v.wf(),
    ensures
        v.equipped(q).wf(),
{
    let w = v.equipped(q);
    if v.has_mobile(q.player_serial) {
        let m = v.mobile(q.player_serial);
        let items = dressed(m.items, q);
        assert(v.well_kept(q.player_serial));
        assert(wears(items, q.item_serial)) by {
            assert(items[items.len() - 1].serial == q.item_serial);
        }
        assert forall|s: u32| #[trigger] w.truly_worn(s) by {
            assert(v.truly_worn(s));
        }
        assert forall|s: u32| #[trigger] w.well_kept(s) by {
            assert(v.well_kept(s));
        }
    }
}

proof fn lemma_without_keeps(v: VisibleView, s: u32)
    requires
        v.wf(),
    ensures
        v.without(s).wf(),
{
    let w = v.without(s);
    assert forall|i: u32| #[trigger] w.truly_worn(i) by {
        assert(v.truly_worn(i));
        if v.index.contains_key(s) && w.index.contains_key(i) && v.has_mobile(v.index[s]) && v.index[i]
            == v.index[s] {
            let items = v.mobile(v.index[s]).items;
            let j = choose|j: int| 0 <= j < items.len() && (#[trigger] items[j]).serial == i;
            lemma_wears_kept(items, |e: EquippedItem| e.serial != s, i);
            assert(wears(undressed(items, s), i));
        }
    }
    assert forall|i: u32| #[trigger] w.well_kept(i) by {
        assert(v.well_kept(i));
        if v.index.contains_key(s) {
            assert(v.well_kept(v.index[s]));
        }
    }
}

proof fn lemma_confined_keeps(v: VisibleView, rect: TileRect)
    requires
        v.wf(),
    ensures
        v.confined(rect).wf(),
{
    let w = v.confined(rect);
    assert forall|i: u32| #[trigger] w.truly_worn(i) by {
        assert(v.truly_worn(i));
    }
    assert forall|i: u32| #[trigger] w.well_kept(i) by {
        assert(v.well_kept(i));
    }
}

impl VisibleWorld {
    /// Puts an item on a mobile that is seen. What was on its layer comes off.
    pub fn apply_equip_item(&mut self, equip: &EquipItem)
        ensures
            final(self)@ == old(self)@.equipped(*equip),
            old(self)@.wf() ==> final(self)@.wf(),
    {
        let ghost before = self@;
        let ghost map0 = self.entities@;
        let player: u32 = equip.player_serial;
        let worn: Vec<EquippedItem> = match self.entities.get(&player) {
            Some(e) => match &e.data {
                EntityData::Mobile { packet } => copy_equipment(&packet.items),
                _ => {
                    return;
                },
            },
            None => {
                return;
            },
        };
        let mut items = off_layer(&worn, equip.layer);
        items.push(
            EquippedItem {
                serial: equip.item_serial,
                graphic: equip.graphic,
                layer: equip.layer,
                color: if equip.color != 0 {
                    Some(equip.color)
                } else {
                    None
                },
            },
        );
        let ghost dress = items@;
        assert(dress == dressed(worn@, *equip));
        self.unindex_taken_off(player, &worn, &items);
        let ghost freed = self.equipment_index@;
        self.equipment_index.insert(equip.item_serial, player);
        if let Some(entity) = map_get_mut(&mut self.entities, player) {
            if let EntityData::Mobile { packet } = &mut entity.data {
                packet.items = items;
            }
        }
        proof {
            lemma_seen(map0, player, self.entities@[player]);
            assert(self.entities@ =~= map0.insert(player, self.entities@[player]));
            let w = before.equipped(*equip);
            assert(self@.index =~= w.index) by {
                assert forall|s: u32| self@.index.contains_key(s) <==> w.index.contains_key(s) by {
                    if s == equip.item_serial {
                        assert(dress[dress.len() - 1].serial == s);
                    }
                }
            }
            assert(self@ =~= w);
            if before.wf() {
                lemma_equipped_keeps(before, *equip);
            }
        }
    }

    /// Takes out of the index what a mobile took off.
    fn unindex_taken_off(
        &mut self,
        player: u32,
        worn: &Vec<EquippedItem>,
        items: &Vec<EquippedItem>,
    )
        ensures
            final(self).entities == old(self).entities,
            final(self).containers == old(self).containers,
            final(self).view_rect == old(self).view_rect,
            final(self).view_range == old(self).view_range,
            final(self).equipment_index@ == Map::new(
                |s: u32|
                    old(self).equipment_index@.contains_key(s) && !(old(self).equipment_index@[s]
                        == player && wears(worn@, s) && !wears(items@, s)),
                |s: u32| old(self).equipment_index@[s],
            ),
    {
        let ghost start = self.equipment_index@;
        let mut i: usize = 0;
        while i < worn.len()
            invariant
                i <= worn@.len(),
                self.entities == old(self).entities,
                self.containers == old(self).containers,
                self.view_rect == old(self).view_rect,
                self.view_range == old(self).view_range,
                start == old(self).equipment_index@,
                forall|s: u32| #[trigger]
                    self.equipment_index@.contains_key(s) <==> start.contains_key(s) && !(start[s]
                        == player && wears(worn@.take(i as int), s) && !wears(items@, s)),
                forall|s: u32| #[trigger]
                    self.equipment_index@.contains_key(s) ==> self.equipment_index@[s] == start[s],
            decreases worn@.len() - i,
        {
            let serial: u32 = worn[i].serial;
            let ghost mid = self.equipment_index@;
            if !is_worn(items, serial) {
                let mine = match self.equipment_index.get(&serial) {
                    Some(owner) => *owner == player,
                    None => false,
                };
                if mine {
                    self.equipment_index.remove(&serial);
                }
            }
            proof {
                assert forall|s: u32| #[trigger]
                    self.equipment_index@.contains_key(s) <==> start.contains_key(s) && !(start[s]
                        == player && wears(worn@.take(i + 1), s) && !wears(items@, s)) by {
                    lemma_wears_next(worn@, i as int, s);
                    assert(mid.contains_key(s) ==> mid[s] == start[s]);
                }
            }
            i += 1;
        }
        assert(worn@.take(i as int) =~= worn@);
        assert(self.equipment_index@ =~= Map::new(
            |s: u32|
                start.contains_key(s) && !(start[s] == player && wears(worn@, s) && !wears(items@, s)),
            |s: u32| start[s],
        ));
    }

    /// Removes an object. A worn item comes off the mobile that wears it; any other
    /// object goes with all it wears. It leaves the containers, too.
    pub fn remove(&mut self, serial: u32)
        ensures
            old(self)@.removed(final(self)@, serial),
            old(self)@.wf() ==> final(self)@.wf(),
    {
        let ghost before = self@;
        let ghost map0 = self.entities@;
        self.containers.remove(serial);
        let ghost boxes = self@.containers;
        if let Some(owner) = self.equipment_index.remove(&serial) {
            if let Some(entity) = map_get_mut(&mut self.entities, owner) {
                if let EntityData::Mobile { packet } = &mut entity.data {
                    packet.items = other_items(&packet.items, serial);
                }
            }
            proof {
                assert(owner == before.index[serial]);
                if map0.contains_key(owner) {
                    lemma_seen(map0, owner, self.entities@[owner]);
                    assert(self.entities@ =~= map0.insert(owner, self.entities@[owner]));
                    if !(map0[owner].data is Mobile) {
                        assert(map0.insert(owner, map0[owner]) =~= map0);
                    }
                }
                assert(self@ =~= VisibleView { containers: boxes, ..before.without(serial) });
            }
        } else {
            if let Some(gone) = self.entities.remove(&serial) {
                if let EntityData::Mobile { packet } = &gone.data {
                    unindex_equipment(&mut self.equipment_index, &packet.items);
                } else {
                    assert(index_minus(before.index, gone@.worn()) =~= before.index);
                }
                proof {
                    lemma_seen(map0, serial, gone);
                }
            } else {
                assert(map0.remove(serial) =~= map0);
            }
            assert(before.index.remove(serial) =~= before.index);
            assert(self@ =~= VisibleView { containers: boxes, ..before.without(serial) });
        }
        proof {
            if before.wf() {
                lemma_without_keeps(before, serial);
                let w = before.without(serial);
                assert forall|s: u32| #[trigger] self@.truly_worn(s) by {
                    assert(w.truly_worn(s));
                }
                assert forall|s: u32| #[trigger] self@.well_kept(s) by {
                    assert(w.well_kept(s));
                }
            }
        }
    }

    /// Notes that an object was opened as a container. Mobiles get no mark.
    pub fn mark_container(&mut self, serial: u32, gump_model: u16)
        ensures
            final(self)@ == old(self)@.opened_container(serial, gump_model),
            old(self)@.wf() ==> final(self)@.wf(),
    {
        let ghost before = self@;
        let ghost map0 = self.entities@;
        if let Some(entity) = map_get_mut(&mut self.entities, serial) {
            entity.set_container(true);
        }
        self.containers.ingest_open(serial, gump_model);
        proof {
            if map0.contains_key(serial) {
                lemma_seen(map0, serial, self.entities@[serial]);
                assert(self.entities@ =~= map0.insert(serial, self.entities@[serial]));
            }
            assert(self@ =~= before.opened_container(serial, gump_model));
            if before.wf() {
                assert forall|s: u32| #[trigger] self@.truly_worn(s) by {
                    assert(before.truly_worn(s));
                }
                assert forall|s: u32| #[trigger] self@.well_kept(s) by {
                    assert(before.well_kept(s));
                }
            }
        }
    }

    /// Moves the view. Returns the new rectangle and what of it was not in view
    /// before. No object is touched.
    pub fn set_view_center(&mut self, cx: u16, cy: u16) -> (r: (TileRect, Vec<TileRect>))
        ensures
            r.0 == TileRect::view_spec(cx, cy, old(self)@.view_range),
            r.1@ == r.0.difference_spec(old(self)@.view_rect),
            final(self)@ == (VisibleView { view_rect: r.0, ..old(self)@ }),
            old(self)@.wf() ==> final(self)@.wf(),
    {
        let ghost before = self@;
        let new_rect = TileRect::from_view(cx, cy, self.view_range);
        let strips = new_rect.difference(&self.view_rect);
        self.view_rect = new_rect;
        proof {
            lemma_view_apart(before, self@);
        }
        (new_rect, strips)
    }

    /// The serials of all objects outside a rectangle, ascending.
    pub fn serials_outside_rect(&self, rect: &TileRect) -> (r: Vec<u32>)
        ensures
            r@ == self@.outside(*rect),
            lists_serials(serials_up(self@.entities.dom()), self@.entities.dom()),
    {
        let all = serials_in_order(&self.entities);
        let mut r: Vec<u32> = Vec::new();
        let mut i: usize = 0;
        let ghost p = |s: u32|
            !rect.has(self@.entities[s].x() as int, self@.entities[s].y() as int);
        proof {
            reveal(Seq::filter);
            assert(all@.take(0) =~= Seq::<u32>::empty());
            assert(self@.entities.dom() =~= self.entities@.dom());
        }
        while i < all.len()
            invariant
                i <= all@.len(),
                lists_serials(all@, self.entities@.dom()),
                p == (|s: u32|
                    !rect.has(self@.entities[s].x() as int, self@.entities[s].y() as int)),
                r@ == all@.take(i as int).filter(p),
            decreases all@.len() - i,
        {
            proof {
                reveal(Seq::filter);
                assert(all@.take(i + 1).drop_last() =~= all@.take(i as int));
                assert(all@.contains(all@[i as int]));
            }
            if let Some(e) = self.entities.get(&all[i]) {
                if !rect.contains_xy(e.x(), e.y()) {
                    r.push(all[i]);
                }
            }
            i += 1;
        }
        assert(all@.take(i as int) =~= all@);
        r
    }

    /// Moves the view and drops the objects that it no longer holds, with what they
    /// wear. Returns what was not in view before.
    pub fn update_view(&mut self, cx: u16, cy: u16) -> (strips: Vec<TileRect>)
        ensures
            ({
                let rect = TileRect::view_spec(cx, cy, old(self)@.view_range);
                &&& strips@ == rect.difference_spec(old(self)@.view_rect)
                &&& final(self)@ == (VisibleView { view_rect: rect, ..old(self)@.confined(rect) })
            }),
            old(self)@.wf() ==> final(self)@.wf(),
    {
        let ghost before = self@;
        let (rect, strips) = self.set_view_center(cx, cy);
        let ghost moved = self@;
        let gone = self.serials_outside_rect(&rect);
        proof {
            assert(moved.entities.dom() =~= self.entities@.dom());
            lemma_outside(moved, rect);
        }
        let mut i: usize = 0;
        proof {
            assert(gone@.take(0) =~= Seq::<u32>::empty());
            assert(moved.dropped(gone@.take(0)) =~= moved);
        }
        while i < gone.len()
            invariant
                i <= gone@.len(),
                gone@.no_duplicates(),
                self@ == moved.dropped(gone@.take(i as int)),
            decreases gone@.len() - i,
        {
            let s: u32 = gone[i];
            let ghost map0 = self.entities@;
            let ghost mid = self@;
            if let Some(e) = self.entities.remove(&s) {
                if let EntityData::Mobile { packet } = &e.data {
                    unindex_equipment(&mut self.equipment_index, &packet.items);
                } else {
                    assert(index_minus(mid.index, e@.worn()) =~= mid.index);
                }
                proof {
                    lemma_seen(map0, s, e);
                }
            } else {
                assert(map0.remove(s) =~= map0);
            }
            proof {
                assert(self@ =~= mid.gone(s));
                lemma_dropped_next(moved, gone@, i as int);
            }
            i += 1;
        }
        proof {
            assert(gone@.take(i as int) =~= gone@);
            lemma_dropped_is_confined(moved, rect);
            assert(self@ =~= VisibleView { view_rect: rect, ..before.confined(rect) });
            if before.wf() {
                lemma_confined_keeps(before, rect);
                lemma_view_apart(before.confined(rect), self@);
            }
        }
        strips
    }

    /// Changes how far the view reaches from now on.
    pub fn set_view_range(&mut self, range: u16)
        ensures
            final(self)@ == (VisibleView { view_range: range, ..old(self)@ }),
            old(self)@.wf() ==> final(self)@.wf(),
    {
        let ghost before = self@;
        self.view_range = range;
        proof {
            lemma_view_apart(before, self@);
        }
    }

    /// Forgets all objects and containers.
    pub fn clear(&mut self)
        ensures
            final(self)@ == (VisibleView {
                entities: Map::empty(),
                index: Map::empty(),
                containers: Map::empty(),
                ..old(self)@
            }),
            final(self)@.wf(),
    {
        self.entities.clear();
        self.equipment_index.clear();
        self.containers.clear();
        assert(self@.entities =~= Map::<u32, EntityView>::empty());
        assert forall|s: u32| #[trigger] self@.truly_worn(s) by {}
        assert forall|s: u32| #[trigger] self@.well_kept(s) by {}
    }
}

impl VisibleView {
    /// Without some objects that nobody wears, and without what these wear.
    pub open spec fn dropped(self, list: Seq<u32>) -> VisibleView {
        VisibleView {
            entities: self.entities.restrict(
                Set::new(|s: u32| self.entities.contains_key(s) && !list.contains(s)),
            ),
            index: Map::new(
                |i: u32|
                    self.index.contains_key(i) && !exists|s: u32|
                        list.contains(s) && self.entities.contains_key(s) && wears(
                            (#[trigger] self.entities[s]).worn(),
                            i,
                        ),
                |i: u32| self.index[i],
            ),
            ..self
        }
    }
}

proof fn lemma_view_apart(v: VisibleView, w: VisibleView)
    requires
        v.entities == w.entities,
        v.index == w.index,
    ensures
        v.wf() ==> w.wf(),
{
    if v.wf() {
        assert forall|s: u32| #[trigger] w.truly_worn(s) by {
            assert(v.truly_worn(s));
        }
        assert forall|s: u32| #[trigger] w.well_kept(s) by {
            assert(v.well_kept(s));
        }
    }
}

proof fn lemma_dropped_next(v: VisibleView, list: Seq<u32>, i: int)
    requires
        0 <= i < list.len(),
        list.no_duplicates(),
    ensures
        v.dropped(list.take(i)).gone(list[i]) == v.dropped(list.take(i + 1)),
{
    let pre = list.take(i);
    let post = list.take(i + 1);
    let s = list[i];
    let mid = v.dropped(pre);
    assert forall|x: u32| #[trigger] post.contains(x) <==> pre.contains(x) || x == s by {
        if pre.contains(x) {
            let j = choose|j: int| 0 <= j < pre.len() && pre[j] == x;
            assert(post[j] == x);
        }
        if post.contains(x) {
            let j = choose|j: int| 0 <= j < post.len() && post[j] == x;
            if j < i {
                assert(pre[j] == x);
            }
        }
        assert(post[i] == s);
    }
    assert(!pre.contains(s));
    let a = mid.gone(s);
    let b = v.dropped(post);
    if !v.entities.contains_key(s) {
        assert(mid.entities =~= b.entities);
        assert forall|x: u32| a.index.contains_key(x) <==> b.index.contains_key(x) by {
            if exists|t: u32|
                post.contains(t) && v.entities.contains_key(t) && wears(
                    (#[trigger] v.entities[t]).worn(),
                    x,
                ) {
                let t = choose|t: u32|
                    post.contains(t) && v.entities.contains_key(t) && wears(
                        (#[trigger] v.entities[t]).worn(),
                        x,
                    );
                assert(pre.contains(t));
            }
            if exists|t: u32|
                pre.contains(t) && v.entities.contains_key(t) && wears(
                    (#[trigger] v.entities[t]).worn(),
                    x,
                ) {
                let t = choose|t: u32|
                    pre.contains(t) && v.entities.contains_key(t) && wears(
                        (#[trigger] v.entities[t]).worn(),
                        x,
                    );
                assert(post.contains(t));
            }
        }
        assert(a =~= b);
    } else {
        assert(mid.entities.contains_key(s));
        assert forall|x: u32| a.index.contains_key(x) <==> b.index.contains_key(x) by {
            if exists|t: u32|
                post.contains(t) && v.entities.contains_key(t) && wears(
                    (#[trigger] v.entities[t]).worn(),
                    x,
                ) {
                let t = choose|t: u32|
                    post.contains(t) && v.entities.contains_key(t) && wears(
                        (#[trigger] v.entities[t]).worn(),
                        x,
                    );
                assert(pre.contains(t) || t == s);
            }
            if exists|t: u32|
                pre.contains(t) && v.entities.contains_key(t) && wears(
                    (#[trigger] v.entities[t]).worn(),
                    x,
                ) {
                let t = choose|t: u32|
                    pre.contains(t) && v.entities.contains_key(t) && wears(
                        (#[trigger] v.entities[t]).worn(),
                        x,
                    );
                assert(post.contains(t));
            }
            if wears(v.entities[s].worn(), x) {
                assert(post.contains(s));
            }
        }
        assert(a.entities =~= b.entities);
        assert(a =~= b);
    }
}

/// The serials outside a rectangle are those of the objects there, each once.
pub proof fn lemma_outside(v: VisibleView, rect: TileRect)
    requires
        lists_serials(serials_up(v.entities.dom()), v.entities.dom()),
    ensures
        v.outside(rect).no_duplicates(),
        forall|s: u32| #[trigger]
            v.outside(rect).contains(s) <==> v.entities.contains_key(s) && !rect.has(
                v.entities[s].x() as int,
                v.entities[s].y() as int,
            ),
{
    let all = serials_up(v.entities.dom());
    let p = |s: u32| !rect.has(v.entities[s].x() as int, v.entities[s].y() as int);
    lemma_picked(all, p);
    assert forall|s: u32| #[trigger] v.outside(rect).contains(s) <==> v.entities.contains_key(s)
        && !rect.has(v.entities[s].x() as int, v.entities[s].y() as int) by {
        assert(all.contains(s) <==> v.entities.dom().contains(s));
    }
}

/// What a choice from an ascending list holds, each once.
proof fn lemma_picked(all: Seq<u32>, p: spec_fn(u32) -> bool)
    requires
        forall|i: int, j: int| 0 <= i < j < all.len() ==> #[trigger] all[i] < #[trigger] all[j],
    ensures
        all.filter(p).no_duplicates(),
        forall|s: u32| #[trigger] all.filter(p).contains(s) <==> all.contains(s) && p(s),
    decreases all.len(),
{
    let out = all.filter(p);
    assert forall|s: u32| #[trigger] out.contains(s) <==> all.contains(s) && p(s) by {
        if out.contains(s) {
            all.lemma_filter_contains_rev(p, s);
            let i = choose|i: int| 0 <= i < out.len() && out[i] == s;
            all.lemma_filter_pred(p, i);
        }
        if all.contains(s) && p(s) {
            let i = choose|i: int| 0 <= i < all.len() && all[i] == s;
            all.lemma_filter_contains(p, i);
        }
    }
    reveal(Seq::filter);
    if all.len() > 0 {
        let init = all.drop_last();
        lemma_picked(init, p);
        let head = init.filter(p);
        if p(all.last()) {
            assert(out == head.push(all.last()));
            assert(!head.contains(all.last())) by {
                if head.contains(all.last()) {
                    assert(init.contains(all.last()));
                    let i = choose|i: int| 0 <= i < init.len() && init[i] == all.last();
                    assert(all[i] < all[all.len() - 1]);
                }
            }
            assert forall|i: int, j: int| 0 <= i < out.len() && 0 <= j < out.len() && i
                != j implies out[i] != out[j] by {
                if i == head.len() {
                    assert(head.contains(head[j]));
                } else if j == head.len() {
                    assert(head.contains(head[i]));
                }
            }
        }
    }
}

proof fn lemma_dropped_is_confined(v: VisibleView, rect: TileRect)
    requires
        lists_serials(serials_up(v.entities.dom()), v.entities.dom()),
    ensures
        v.dropped(v.outside(rect)) == v.confined(rect),
{
    lemma_outside(v, rect);
    let a = v.dropped(v.outside(rect));
    let b = v.confined(rect);
    assert(a.entities =~= b.entities);
    assert forall|x: u32| a.index.contains_key(x) <==> b.index.contains_key(x) by {
        if exists|s: u32|
            v.entities.contains_key(s) && !rect.has(
                v.entities[s].x() as int,
                v.entities[s].y() as int,
            ) && wears((#[trigger] v.entities[s]).worn(), x) {
            let s = choose|s: u32|
                v.entities.contains_key(s) && !rect.has(
                    v.entities[s].x() as int,
                    v.entities[s].y() as int,
                ) && wears((#[trigger] v.entities[s]).worn(), x);
            assert(v.outside(rect).contains(s));
        }
    }
    assert(a =~= b);
}

impl VisibleView {
    /// After the content of a container came in whole.
    pub open spec fn filled(self, container: u32, items: Seq<ContainerItem>) -> VisibleView {
        VisibleView {
            containers: replaced(
                self.containers,
                container,
                items,
                |c: u32| serials_of(items),
            ),
            ..self
        }
    }

    /// After an item came into a container.
    pub open spec fn stored(self, container: u32, item: ContainerItem) -> VisibleView {
        VisibleView {
            containers: replaced(
                self.containers,
                container,
                upserted(container_or_new(self.containers, container).items, item),
                |c: u32| set![item.serial],
            ),
            ..self
        }
    }

    /// Whether `after` is what a packet of the server leaves. A container that is
    /// opened is read from the bytes.
    pub open spec fn takes(
        self,
        after: VisibleView,
        data: Seq<u8>,
        packet: ServerPacket,
    ) -> bool {
        if data.len() == 0 {
            after == self
        } else if data[0] == 0x24 {
            match drawn_container(data) {
                Some(c) => after == self.opened_container(c.0, c.1),
                None => after == self,
            }
        } else {
            match packet {
                ServerPacket::ObjectInfo(obj) => after == self.with_classic(obj),
                ServerPacket::ObjectInfoSA(obj) => after == self.with_sa(obj),
                ServerPacket::PacketList(list) => after == self.with_list(list@),
                ServerPacket::DrawMobile(mob) => after == self.with_mobile(mob@),
                ServerPacket::DrawMobileExtended(mob) => after == self.with_mobile(mob.plain()),
                ServerPacket::UpdateMobile(upd) => after == self.updated(upd),
                ServerPacket::EquipItem(equip) => after == self.equipped(equip),
                ServerPacket::DeleteObject { serial } => self.removed(after, serial),
                ServerPacket::AddItemToContainer(add) => after == self.stored(
                    add.container_serial,
                    added_item(add),
                ),
                ServerPacket::ContainerContent(cc) => match cc.container() {
                    Some(c) => after == self.filled(c, content_items(cc)),
                    None => after == self,
                },
                _ => after == self,
            }
        }
    }
}

/// The rectangle of a block.
pub open spec fn block_rect(block: BlockKey) -> TileRect {
    TileRect {
        x_min: (block.bx * 8) as u16,
        y_min: (block.by * 8) as u16,
        x_max: (block.bx * 8 + 7) as u16,
        y_max: (block.by * 8 + 7) as u16,
    }
}

impl VisibleWorld {
    /// Takes a packet of the server: its bytes and what a codec read out of them.
    pub fn ingest_packet(&mut self, data: &[u8], packet: &ServerPacket)
        ensures
            old(self)@.takes(final(self)@, data@, *packet),
            old(self)@.wf() ==> final(self)@.wf(),
    {
        if data.len() == 0 {
            return;
        }
        if data[0] == 0x24 {
            if let Some((serial, gump_model)) = read_drawn_container(data) {
                self.mark_container(serial, gump_model);
            }
            return;
        }
        match packet {
            ServerPacket::ObjectInfo(obj) => self.upsert_object_info(obj),
            ServerPacket::ObjectInfoSA(obj) => self.upsert_object_info_sa(obj),
            ServerPacket::PacketList(list) => self.upsert_packet_list(list),
            ServerPacket::DrawMobile(mob) => self.upsert_draw_mobile(mob),
            ServerPacket::DrawMobileExtended(mob) => self.upsert_draw_mobile_ext(mob),
            ServerPacket::UpdateMobile(upd) => self.apply_update_mobile(upd),
            ServerPacket::EquipItem(equip) => self.apply_equip_item(equip),
            ServerPacket::DeleteObject { serial } => self.remove(*serial),
            ServerPacket::AddItemToContainer(add) => {
                self.add_to_container(add);
            },
            ServerPacket::ContainerContent(cc) => {
                if let Some(container) = cc.container_serial() {
                    let items = container_items_from_content(cc);
                    self.fill_container(container, items);
                }
            },
            _ => {},
        }
    }

    /// Replaces the content of a container.
    pub(crate) fn fill_container(&mut self, container: u32, items: Vec<ContainerItem>)
        ensures
            final(self)@ == old(self)@.filled(container, items@),
            old(self)@.wf() ==> final(self)@.wf(),
    {
        let ghost before = self@;
        self.containers.ingest_content(container, items);
        proof {
            lemma_view_apart(before, self@);
        }
    }

    /// Puts an item into its container.
    pub(crate) fn add_to_container(&mut self, add: &AddItemToContainer)
        ensures
            final(self)@ == old(self)@.stored(add.container_serial, added_item(*add)),
            old(self)@.wf() ==> final(self)@.wf(),
    {
        let ghost before = self@;
        let item = container_item_from_add(add);
        self.containers.ingest_item_upsert(add.container_serial, item);
        proof {
            lemma_view_apart(before, self@);
        }
    }

    /// Whether a mobile that is seen has a mount.
    pub fn is_mounted(&self, serial: u32) -> (b: bool)
        ensures
            b == (self@.has_mobile(serial) && exists|i: int|
                0 <= i < self@.mobile(serial).items.len() && (#[trigger] self@.mobile(
                    serial,
                ).items[i]).layer == LAYER_MOUNT),
    {
        if let Some(entity) = self.entities.get(&serial) {
            if let EntityData::Mobile { packet } = &entity.data {
                let ghost worn = self@.mobile(serial).items;
                assert(worn == packet.items@);
                let mut i: usize = 0;
                while i < packet.items.len()
                    invariant
                        i <= packet.items@.len(),
                        worn == packet.items@,
                        worn == self@.mobile(serial).items,
                        self@.has_mobile(serial),
                        forall|j: int| 0 <= j < i ==> (#[trigger] worn[j]).layer != LAYER_MOUNT,
                    decreases packet.items@.len() - i,
                {
                    if packet.items[i].layer == LAYER_MOUNT {
                        assert(worn[i as int].layer == LAYER_MOUNT);
                        return true;
                    }
                    i += 1;
                }
            }
        }
        false
    }

    pub fn view_rect(&self) -> (r: &TileRect)
        ensures
            *r == self@.view_rect,
    {
        &self.view_rect
    }

    pub fn view_range(&self) -> (r: u16)
        ensures
            r == self@.view_range,
    {
        self.view_range
    }

    /// Number of objects.
    pub fn len(&self) -> (n: usize)
        ensures
            n == self@.entities.dom().len(),
    {
        assert(self@.entities.dom() =~= self.entities@.dom());
        self.entities.len()
    }

    pub fn is_empty(&self) -> (b: bool)
        ensures
            b == (self@.entities.dom().len() == 0),
    {
        self.len() == 0
    }

    pub fn containers(&self) -> (c: &ContainerStore)
        ensures
            c@ == self@.containers,
    {
        &self.containers
    }

    /// Access to the containers.
    pub fn containers_mut(&mut self) -> (c: &mut ContainerStore)
        ensures
            c@ == old(self)@.containers,
            final(self)@ == (VisibleView { containers: final(c)@, ..old(self)@ }),
    {
        &mut self.containers
    }

    /// The objects inside a rectangle, in ascending order of their serials.
    fn entities_inside(&self, rect: &TileRect) -> (r: Vec<&WorldEntity>)
        ensures
            r@.len() == self@.inside(*rect).len(),
            forall|i: int|
                0 <= i < r@.len() ==> (#[trigger] r@[i])@ == self@.entities[self@.inside(*rect)[i]],
            forall|i: int|
                0 <= i < r@.len() ==> rect.has(
                    (#[trigger] r@[i])@.x() as int,
                    r@[i]@.y() as int,
                ),
    {
        let all = serials_in_order(&self.entities);
        let mut r: Vec<&WorldEntity> = Vec::new();
        let mut i: usize = 0;
        let ghost p = |s: u32|
            rect.has(self@.entities[s].x() as int, self@.entities[s].y() as int);
        proof {
            reveal(Seq::filter);
            assert(all@.take(0) =~= Seq::<u32>::empty());
            assert(self@.entities.dom() =~= self.entities@.dom());
        }
        while i < all.len()
            invariant
                i <= all@.len(),
                lists_serials(all@, self.entities@.dom()),
                p == (|s: u32|
                    rect.has(self@.entities[s].x() as int, self@.entities[s].y() as int)),
                r@.len() == all@.take(i as int).filter(p).len(),
                forall|j: int|
                    0 <= j < r@.len() ==> (#[trigger] r@[j])@ == self@.entities[all@.take(
                        i as int,
                    ).filter(p)[j]],
                forall|j: int|
                    0 <= j < r@.len() ==> rect.has(
                        (#[trigger] r@[j])@.x() as int,
                        r@[j]@.y() as int,
                    ),
            decreases all@.len() - i,
        {
            proof {
                reveal(Seq::filter);
                assert(all@.take(i + 1).drop_last() =~= all@.take(i as int));
                assert(all@.contains(all@[i as int]));
            }
            if let Some(e) = self.entities.get(&all[i]) {
                if rect.contains_xy(e.x(), e.y()) {
                    r.push(e);
                }
            }
            i += 1;
        }
        assert(all@.take(i as int) =~= all@);
        r
    }

    /// The objects on a tile, in ascending order of their serials.
    pub fn items_at(&self, x: u16, y: u16) -> (r: Vec<&WorldEntity>)
        ensures
            r@.len() == self@.inside(TileRect::point_spec(x, y)).len(),
            forall|i: int|
                0 <= i < r@.len() ==> (#[trigger] r@[i])@ == self@.entities[self@.inside(
                    TileRect::point_spec(x, y),
                )[i]],
            forall|i: int|
                0 <= i < r@.len() ==> (#[trigger] r@[i])@.x() == x && r@[i]@.y() == y,
    {
        self.entities_inside(&TileRect::point(x, y))
    }

    /// The objects of a block with their offsets in it, in ascending order of
    /// their serials.
    pub fn items_in_block(&self, block: BlockKey) -> (r: Vec<(u8, u8, &WorldEntity)>)
        requires
            block.on_map(),
        ensures
            r@.len() == self@.inside(block_rect(block)).len(),
            forall|i: int|
                0 <= i < r@.len() ==> {
                    let e = (#[trigger] r@[i]).2@;
                    &&& e == self@.entities[self@.inside(block_rect(block))[i]]
                    &&& block_rect(block).has(e.x() as int, e.y() as int)
                    &&& r@[i].0 == e.x() - block.bx * 8
                    &&& r@[i].1 == e.y() - block.by * 8
                },
    {
        let (x0, y0) = block.origin();
        let rect = TileRect { x_min: x0, y_min: y0, x_max: x0 + 7, y_max: y0 + 7 };
        let list = self.entities_inside(&rect);
        let mut r: Vec<(u8, u8, &WorldEntity)> = Vec::new();
        let mut i: usize = 0;
        while i < list.len()
            invariant
                i <= list@.len(),
                x0 == block.bx * 8,
                y0 == block.by * 8,
                x0 <= 65528,
                y0 <= 65528,
                rect == block_rect(block),
                rect == (TileRect {
                    x_min: x0,
                    y_min: y0,
                    x_max: (x0 + 7) as u16,
                    y_max: (y0 + 7) as u16,
                }),
                list@.len() == self@.inside(rect).len(),
                forall|j: int|
                    0 <= j < list@.len() ==> (#[trigger] list@[j])@ == self@.entities[self@.inside(
                        rect,
                    )[j]],
                forall|j: int|
                    0 <= j < list@.len() ==> rect.has(
                        (#[trigger] list@[j])@.x() as int,
                        list@[j]@.y() as int,
                    ),
                r@.len() == i,
                forall|j: int|
                    0 <= j < i ==> {
                        let e = (#[trigger] r@[j]).2@;
                        &&& e == self@.entities[self@.inside(rect)[j]]
                        &&& rect.has(e.x() as int, e.y() as int)
                        &&& r@[j].0 == e.x() - block.bx * 8
                        &&& r@[j].1 == e.y() - block.by * 8
                    },
            decreases list@.len() - i,
        {
            let e = list[i];
            assert(rect.has(list@[i as int]@.x() as int, list@[i as int]@.y() as int));
            r.push(((e.x() - x0) as u8, (e.y() - y0) as u8, e));
            i += 1;
        }
        r
    }

    /// The serials of all objects.
    pub fn serials(&self) -> (r: HashSet<u32>)
        ensures
            r@ == self@.entities.dom(),
    {
        let all = serials_in_order(&self.entities);
        let mut r: HashSet<u32> = HashSet::new();
        let mut i: usize = 0;
        while i < all.len()
            invariant
                i <= all@.len(),
                forall|s: u32| #[trigger]
                    r@.contains(s) <==> exists|j: int| 0 <= j < i && all@[j] == s,
            decreases all@.len() - i,
        {
            r.insert(all[i]);
            i += 1;
        }
        proof {
            assert(self@.entities.dom() =~= self.entities@.dom());
            assert forall|s: u32| #[trigger] r@.contains(s) <==> self@.entities.dom().contains(
                s,
            ) by {
                assert(all@.contains(s) <==> self.entities@.dom().contains(s));
            }
            assert(r@ =~= self@.entities.dom());
        }
        r
    }

    /// All objects, in ascending order of their serials.
    pub fn iter(&self) -> (r: Vec<&WorldEntity>)
        ensures
            r@.len() == serials_up(self@.entities.dom()).len(),
            lists_serials(serials_up(self@.entities.dom()), self@.entities.dom()),
            forall|i: int|
                0 <= i < r@.len() ==> (#[trigger] r@[i])@ == self@.entities[serials_up(
                    self@.entities.dom(),
                )[i]],
    {
        let all = serials_in_order(&self.entities);
        let mut r: Vec<&WorldEntity> = Vec::new();
        let mut i: usize = 0;
        assert(self@.entities.dom() =~= self.entities@.dom());
        while i < all.len()
            invariant
                i <= all@.len(),
                lists_serials(all@, self.entities@.dom()),
                r@.len() == i,
                forall|j: int|
                    0 <= j < i ==> (#[trigger] r@[j])@ == self@.entities[all@[j]],
            decreases all@.len() - i,
        {
            assert(all@.contains(all@[i as int]));
            if let Some(e) = self.entities.get(&all[i]) {
                r.push(e);
            }
            i += 1;
        }
        r
    }
}

/// Law: what is looked up is an object that is seen, and if it is not the object
/// itself, it is a mobile that wears it.
pub proof fn looked_up_is_seen(v: VisibleView, s: u32)
    requires
        v.wf(),
        v.lookup(s) is Some,
    ensures
        v.entities.contains_key(v.lookup(s)->0),
        v.lookup(s)->0 != s ==> v.has_mobile(v.lookup(s)->0) && wears(
            v.mobile(v.lookup(s)->0).items,
            s,
        ),
{
    assert(v.truly_worn(s));
}

/// Law: an object is no longer found once it was removed, be it worn or not. One
/// that is both worn and on the ground is removed from the mobile first.
pub proof fn removed_is_gone(v: VisibleView, after: VisibleView, s: u32)
    requires
        v.removed(after, s),
        !(v.index.contains_key(s) && v.entities.contains_key(s)),
    ensures
        after.lookup(s) is None,
        v.index.contains_key(s) && v.has_mobile(v.index[s]) ==> !wears(
            after.mobile(v.index[s]).items,
            s,
        ),
{
    if v.index.contains_key(s) && v.has_mobile(v.index[s]) {
        let items = v.mobile(v.index[s]).items;
        let kept = undressed(items, s);
        if wears(kept, s) {
            let i = choose|i: int| 0 <= i < kept.len() && (#[trigger] kept[i]).serial == s;
            items.lemma_filter_pred(|e: EquippedItem| e.serial != s, i);
        }
    }
}

/// Law: an item that was put on is found on its mobile, and nothing else is on
/// its layer.
pub proof fn equipped_is_worn(v: VisibleView, q: EquipItem)
    requires
        v.has_mobile(q.player_serial),
    ensures
        v.equipped(q).index[q.item_serial] == q.player_serial,
        wears(v.equipped(q).mobile(q.player_serial).items, q.item_serial),
        forall|i: int|
            0 <= i < v.equipped(q).mobile(q.player_serial).items.len() && (#[trigger] v.equipped(
                q,
            ).mobile(q.player_serial).items[i]).layer == q.layer ==> v.equipped(q).mobile(
                q.player_serial,
            ).items[i].serial == q.item_serial,
{
    let items = v.mobile(q.player_serial).items;
    let d = dressed(items, q);
    assert(v.equipped(q).mobile(q.player_serial).items == d);
    assert(d[d.len() - 1].serial == q.item_serial);
    assert forall|i: int| 0 <= i < d.len() && (#[trigger] d[i]).layer == q.layer implies d[i].serial
        == q.item_serial by {
        if i < d.len() - 1 {
            items.lemma_filter_pred(|e: EquippedItem| e.layer != q.layer, i);
        }
    }
}

impl VisibleView {
    /// Whether `after` is what the removal of objects, one after the other, leaves.
    pub open spec fn removed_all(self, after: VisibleView, list: Seq<u32>) -> bool
        decreases list.len(),
    {
        if list.len() == 0 {
            after == self
        } else {
            exists|mid: VisibleView|
                {
                    &&& self.removed_all(mid, list.drop_last())
                    &&& #[trigger] mid.removed(after, list.last())
                }
        }
    }
}

/// The removal of one object leaves all others, each of its kind.
pub proof fn lemma_removed_leaves(v: VisibleView, after: VisibleView, s: u32)
    requires
        v.removed(after, s),
    ensures
        forall|t: u32|
            t != s ==> (#[trigger] after.entities.contains_key(t) <==> v.entities.contains_key(t)),
        forall|t: u32| #[trigger]
            after.entities.contains_key(t) ==> after.entities[t].kind() == v.entities[t].kind(),
        forall|t: u32| #[trigger] after.index.contains_key(t) ==> v.index.contains_key(t),
        !v.index.contains_key(s) ==> !after.entities.contains_key(s),
        after.view_rect == v.view_rect,
        after.view_range == v.view_range,
{
}

pub proof fn lemma_removed_next(
    v: VisibleView,
    mid: VisibleView,
    after: VisibleView,
    list: Seq<u32>,
    s: u32,
)
    requires
        v.removed_all(mid, list),
        mid.removed(after, s),
    ensures
        v.removed_all(after, list.push(s)),
{
    let post = list.push(s);
    assert(post.drop_last() =~= list);
    assert(mid.removed(after, post.last()));
}

} // verus!

//! Entities of the world.

use vstd::prelude::*;

use super::static_data::{MultiPart, StaticDataProvider};
use super::tile_shape::TileShape;
use crate::coords::{MobilePos, Pos3D};

verus! {

/// How an entity looked at one moment, sent along with world events.
#[derive(Debug, Clone, Copy, PartialEq, Eq, Structural)]
pub struct EntitySnapshot {
    pub serial: u32,
    pub graphic: u16,
    pub hue: u16,
    pub pos: MobilePos,
    pub is_mobile: bool,
}

/// What the world reads of an entity.
#[verifier::ext_equal]
pub struct EntityState {
    pub serial: u32,
    pub pos: Pos3D,
    pub graphic: u16,
    pub mobile: bool,
    pub multi: bool,
    pub container: bool,
    pub player: bool,
    pub mounted: bool,
    /// Facing byte, of those who face somewhere.
    pub direction: Option<u8>,
    /// Present and greatest value.
    pub hits: Option<(u16, u16)>,
    pub mana: Option<(u16, u16)>,
    pub stamina: Option<(u16, u16)>,
    pub notoriety: Option<u8>,
    pub name: Option<Seq<char>>,
    pub equipment: Seq<u32>,
    pub backpack: Option<u32>,
    pub snapshot: Option<EntitySnapshot>,
}

/// The shape of each graphic at each height.
pub open spec fn shape_fn<D: StaticDataProvider>(sd: &D) -> spec_fn(i8, u16) -> Option<TileShape> {
    |z: i8, tile_id: u16| sd.static_form(z, tile_id)
}

/// The parts of each multi-object.
pub open spec fn parts_fn<D: StaticDataProvider>(sd: &D) -> spec_fn(u16) -> Seq<MultiPart> {
    |graphic: u16| sd.parts_of(graphic)
}

/// What a change of a vital value leads to.
pub struct Outcome {
    pub state: EntityState,
    pub value: u16,
}

/// Something that is in the world: a mobile, an item or a multi-object.
pub trait Entity: Sized {
    /// What the world reads of the entity.
    spec fn state(&self) -> EntityState;

    /// The tiles and shapes by which the entity is in the way, where `shape` gives
    /// the shape of a graphic at a height and `parts` the parts of a multi-object.
    spec fn forms(
        &self,
        shape: spec_fn(i8, u16) -> Option<TileShape>,
        parts: spec_fn(u16) -> Seq<MultiPart>,
    ) -> Seq<(u16, u16, TileShape)>;

    /// The entity somewhere else.
    spec fn moved(&self, pos: Pos3D) -> EntityState;

    /// The entity facing another way.
    spec fn turned(&self, direction: u8) -> EntityState;

    /// The entity after damage, and its remaining hit points.
    spec fn damaged(&self, amount: u16) -> Outcome;

    /// The entity after healing, and its hit points.
    spec fn healed(&self, amount: u16) -> Outcome;

    /// The entity after a change of mana, and its mana.
    spec fn mana_shifted(&self, delta: i32) -> Outcome;

    /// The entity after a change of stamina, and its stamina.
    spec fn stamina_shifted(&self, delta: i32) -> Outcome;

    fn serial(&self) -> (s: u32)
        ensures
            s == self.state().serial,
    ;

    fn pos(&self) -> (p: Pos3D)
        ensures
            p == self.state().pos,
    ;

    fn graphic(&self) -> (g: u16)
        ensures
            g == self.state().graphic,
    ;

    fn is_mobile(&self) -> (b: bool)
        ensures
            b == self.state().mobile,
    ;

    fn is_multi(&self) -> (b: bool)
        ensures
            b == self.state().multi,
    ;

    fn is_container(&self) -> (b: bool)
        ensures
            b == self.state().container,
    ;

    fn is_player(&self) -> (b: bool)
        ensures
            b == self.state().player,
    ;

    fn is_mounted(&self) -> (b: bool)
        ensures
            b == self.state().mounted,
    ;

    fn direction(&self) -> (d: Option<u8>)
        ensures
            d == self.state().direction,
    ;

    fn hits(&self) -> (v: Option<(u16, u16)>)
        ensures
            v == self.state().hits,
    ;

    fn mana(&self) -> (v: Option<(u16, u16)>)
        ensures
            v == self.state().mana,
    ;

    fn stamina(&self) -> (v: Option<(u16, u16)>)
        ensures
            v == self.state().stamina,
    ;

    fn notoriety(&self) -> (v: Option<u8>)
        ensures
            v == self.state().notoriety,
    ;

    fn name(&self) -> (v: Option<String>)
        ensures
            v is Some <==> self.state().name is Some,
            v matches Some(s) ==> s@ == self.state().name->0,
    ;

    fn equipment_serials(&self) -> (v: Vec<u32>)
        ensures
            v@ == self.state().equipment,
    ;

    fn backpack_serial(&self) -> (v: Option<u32>)
        ensures
            v == self.state().backpack,
    ;

    fn snapshot(&self) -> (v: Option<EntitySnapshot>)
        ensures
            v == self.state().snapshot,
    ;

    /// Puts the entity somewhere else.
    fn set_pos(&mut self, pos: Pos3D)
        ensures
            final(self).state() == old(self).moved(pos),
            final(self).state().pos == pos,
            final(self).state().serial == old(self).state().serial,
            final(self).state().mobile == old(self).state().mobile,
            final(self).state().multi == old(self).state().multi,
    ;

    /// Turns the entity. Those who face nowhere stay as they are.
    fn set_direction(&mut self, direction: u8)
        ensures
            final(self).state() == old(self).turned(direction),
            final(self).state().pos == old(self).state().pos,
            final(self).state().serial == old(self).state().serial,
            final(self).state().mobile == old(self).state().mobile,
            final(self).state().multi == old(self).state().multi,
    ;

    /// Takes hit points and returns those that remain.
    fn apply_damage(&mut self, amount: u16) -> (hits: u16)
        ensures
            final(self).state() == old(self).damaged(amount).state,
            hits == old(self).damaged(amount).value,
            final(self).state().pos == old(self).state().pos,
    ;

    /// Gives hit points and returns those there are.
    fn apply_heal(&mut self, amount: u16) -> (hits: u16)
        ensures
            final(self).state() == old(self).healed(amount).state,
            hits == old(self).healed(amount).value,
            final(self).state().pos == old(self).state().pos,
    ;

    /// Changes the mana and returns what there is.
    fn modify_mana(&mut self, delta: i32) -> (mana: u16)
        ensures
            final(self).state() == old(self).mana_shifted(delta).state,
            mana == old(self).mana_shifted(delta).value,
            final(self).state().pos == old(self).state().pos,
    ;

    /// Changes the stamina and returns what there is.
    fn modify_stamina(&mut self, delta: i32) -> (stamina: u16)
        ensures
            final(self).state() == old(self).stamina_shifted(delta).state,
            stamina == old(self).stamina_shifted(delta).value,
            final(self).state().pos == old(self).state().pos,
    ;

    /// The tiles and shapes by which the entity is in the way.
    fn extract_shapes<D: StaticDataProvider>(&self, sd: &D) -> (v: Vec<(u16, u16, TileShape)>)
        requires
            sd.wf(),
        ensures
            v@ == self.forms(shape_fn(sd), parts_fn(sd)),
    ;

    /// A copy that the world cannot tell from the entity.
    fn duplicate(&self) -> (e: Self)
        ensures
            e.state() == self.state(),
    ;
}

} // verus!

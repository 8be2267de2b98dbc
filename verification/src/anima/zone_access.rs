//! What controllers see of a zone and do in it.

use vstd::prelude::*;

use super::error::{no_mobile, no_mobile_wording, ControllerError};
use crate::continuum::container::{
    entry_true, first_index, has_serial, held_somewhere, index_true, lemma_has_first, minus,
    removal_keeps_index, ContainerItem, ContainerView, ZoneContainers,
};
use crate::continuum::item_props::ZoneItemProps;
use crate::continuum::observer::{ObserverRegistry, ObserverView, TargetView};
use crate::continuum::traits::EntityStore;
use crate::continuum::world_event::{ContainerContentChange, WorldEvent};
use crate::continuum::zone::Zone;
use crate::coords::{Facing, Heading, MobilePos, Pos3D};
use crate::ecumene::entity_registry::EntityRegistry;
use crate::ecumene::line_of_sight::{ray_fits, LosRay};
use crate::ecumene::movement::best_perch;
use crate::ecumene::tile_provider::TileProvider;
use crate::ecumene::tile_rect::TileRect;
use crate::rythmos::position_tracker::{step_coord, stepped};
use crate::vessel::entity::{Entity, EntityState};
use crate::vessel::static_data::StaticDataProvider;
use crate::vessel::tile_shape::TileShape;

verus! {

/// What controllers see of an entity.
#[derive(Debug)]
pub struct EntityInfo {
    pub serial: u32,
    pub pos: Pos3D,
    pub graphic: u16,
    pub is_mobile: bool,
    pub is_multi: bool,
    pub hits: Option<u16>,
    pub hits_max: Option<u16>,
    pub mana: Option<u16>,
    pub mana_max: Option<u16>,
    pub stamina: Option<u16>,
    pub stamina_max: Option<u16>,
    pub notoriety: Option<u8>,
    pub name: Option<String>,
    pub direction: Option<u8>,
    pub is_mounted: bool,
    pub is_player: bool,
}

/// The present value of a pair, if there is one.
pub open spec fn present(v: Option<(u16, u16)>) -> Option<u16> {
    match v {
        Some(p) => Some(p.0),
        None => None,
    }
}

/// The greatest value of a pair, if there is one.
pub open spec fn greatest(v: Option<(u16, u16)>) -> Option<u16> {
    match v {
        Some(p) => Some(p.1),
        None => None,
    }
}

impl EntityInfo {
    /// Whether this is what is seen of an entity.
    pub open spec fn shows(self, e: EntityState) -> bool {
        &&& self.serial == e.serial
        &&& self.pos == e.pos
        &&& self.graphic == e.graphic
        &&& self.is_mobile == e.mobile
        &&& self.is_multi == e.multi
        &&& self.hits == present(e.hits)
        &&& self.hits_max == greatest(e.hits)
        &&& self.mana == present(e.mana)
        &&& self.mana_max == greatest(e.mana)
        &&& self.stamina == present(e.stamina)
        &&& self.stamina_max == greatest(e.stamina)
        &&& self.notoriety == e.notoriety
        &&& self.name is Some <==> e.name is Some
        &&& self.name is Some ==> (self.name->0)@ == e.name->0
        &&& self.direction == e.direction
        &&& self.is_mounted == e.mounted
        &&& self.is_player == e.player
    }
}

/// What is seen of an entity.
fn info_of<E: Entity>(e: &E) -> (i: EntityInfo)
    ensures
        i.shows(e.state()),
{
    let (hits, hits_max) = match e.hits() {
        Some((v, m)) => (Some(v), Some(m)),
        None => (None, None),
    };
    let (mana, mana_max) = match e.mana() {
        Some((v, m)) => (Some(v), Some(m)),
        None => (None, None),
    };
    let (stamina, stamina_max) = match e.stamina() {
        Some((v, m)) => (Some(v), Some(m)),
        None => (None, None),
    };
    EntityInfo {
        serial: e.serial(),
        pos: e.pos(),
        graphic: e.graphic(),
        is_mobile: e.is_mobile(),
        is_multi: e.is_multi(),
        hits,
        hits_max,
        mana,
        mana_max,
        stamina,
        stamina_max,
        notoriety: e.notoriety(),
        name: e.name(),
        direction: e.direction(),
        is_mounted: e.is_mounted(),
        is_player: e.is_player(),
    }
}

/// Where the deeds of controllers are told: a list of events, and those who watch
/// the world. Either may be switched off.
pub struct Outlet {
    pub publishing: bool,
    pub events: Vec<WorldEvent>,
    pub observing: bool,
    pub observers: ObserverRegistry,
}

/// What an [`Outlet`] amounts to.
#[verifier::ext_equal]
pub struct OutletView {
    pub publishing: bool,
    pub events: Seq<WorldEvent>,
    pub observing: bool,
    pub watchers: Map<u32, ObserverView>,
    pub dropped: u64,
}

impl View for Outlet {
    type V = OutletView;

    open spec fn view(&self) -> OutletView {
        OutletView {
            publishing: self.publishing,
            events: self.events@,
            observing: self.observing,
            watchers: self.observers@,
            dropped: self.observers.events_dropped,
        }
    }
}

/// How far one sees who watches a rectangle from its middle: the lesser half width.
pub open spec fn radius_of(r: TileRect) -> u16 {
    if (r.x_max - r.x_min) / 2 <= (r.y_max - r.y_min) / 2 {
        ((r.x_max - r.x_min) / 2) as u16
    } else {
        ((r.y_max - r.y_min) / 2) as u16
    }
}

impl OutletView {
    /// Nobody is told.
    pub open spec fn none() -> OutletView {
        OutletView {
            publishing: false,
            events: Seq::empty(),
            observing: false,
            watchers: Map::empty(),
            dropped: 0,
        }
    }

    /// Events are added to a list; nobody else is told.
    pub open spec fn list(events: Seq<WorldEvent>) -> OutletView {
        OutletView { publishing: true, events, ..OutletView::none() }
    }

    /// Events are added to a list, and those who watch the world are at hand.
    pub open spec fn all(events: Seq<WorldEvent>, observers: ObserverRegistry) -> OutletView {
        OutletView {
            publishing: true,
            events,
            observing: true,
            watchers: observers@,
            dropped: observers.events_dropped,
        }
    }

    /// After one more event.
    pub open spec fn told(self, e: WorldEvent) -> OutletView {
        if self.publishing {
            OutletView { events: self.events.push(e), ..self }
        } else {
            self
        }
    }

    /// Whether an entity's controller watches the world.
    pub open spec fn watches(self, id: u32) -> bool {
        self.watchers.contains_key(id) && self.watchers[id].target is Buffer
    }

    /// After an entity went somewhere: what its controller watches goes along.
    pub open spec fn followed(self, id: u32, x: u16, y: u16) -> OutletView {
        if self.observing && self.watches(id) {
            OutletView {
                watchers: self.watchers.insert(
                    id,
                    ObserverView {
                        view_rect: TileRect::view_spec(
                            x,
                            y,
                            radius_of(self.watchers[id].view_rect),
                        ),
                        ..self.watchers[id]
                    },
                ),
                ..self
            }
        } else {
            self
        }
    }
}

impl Outlet {
    /// The observers are in order, and no controller watches a rectangle turned
    /// inside out.
    pub open spec fn wf(&self) -> bool {
        &&& self.observers.wf()
        &&& forall|id: u32| #[trigger]
            self.observers.is_controller(id) ==> self.observers@[id].view_rect.proper()
    }

    /// An outlet that tells nobody.
    pub fn none() -> (o: Outlet)
        ensures
            o.wf(),
            o@ == OutletView::none(),
    {
        Outlet {
            publishing: false,
            events: Vec::new(),
            observing: false,
            observers: ObserverRegistry::new(),
        }
    }

    /// Tells of an event.
    pub fn tell(&mut self, e: WorldEvent)
        requires
            old(self).wf(),
        ensures
            final(self).wf(),
            final(self)@ == old(self)@.told(e),
    {
        if self.publishing {
            self.events.push(e);
        }
    }

    /// Lets what an entity's controller watches go along with it.
    pub fn follow(&mut self, serial: u32, x: u16, y: u16)
        requires
            old(self).wf(),
        ensures
            final(self).wf(),
            final(self)@ == old(self)@.followed(serial, x, y),
    {
        if !self.observing {
            return;
        }
        let ghost before = *self;
        if let Some(radius) = self.observers.get_controller_subscription_radius(serial) {
            self.observers.update_controller_watch(serial, TileRect::from_view(x, y, radius));
            proof {
                assert forall|id: u32| #[trigger] self.observers.is_controller(id) implies self.observers@[id].view_rect.proper() by {
                    if id != serial {
                        assert(before.observers.is_controller(id));
                    }
                }
            }
        }
    }
}

/// How high one stands after a step on foot, if the way is free.
pub open spec fn step_ends<
    E: Entity,
    S: EntityStore<E>,
    D: StaticDataProvider,
    C: ZoneContainers,
    P: ZoneItemProps,
>(zone: Zone<E, S, D, C, P>, pos: Pos3D, h: Heading, r: Option<i8>) -> bool {
    if zone.nothing_at(pos.x, pos.y) {
        r == Some(pos.z)
    } else {
        zone.ground_rules().leads_to(pos.x, pos.y, pos.z, h, r)
    }
}

/// Whether all tiles that a step looks at can be asked about.
pub open spec fn step_covered<
    E: Entity,
    S: EntityStore<E>,
    D: StaticDataProvider,
    C: ZoneContainers,
    P: ZoneItemProps,
>(zone: Zone<E, S, D, C, P>, pos: Pos3D, h: Heading) -> bool {
    !zone.nothing_at(pos.x, pos.y) ==> zone.ground_rules().all_covered(pos.x, pos.y, h)
}

/// A zone as controllers have it, and where their deeds are told.
pub struct ZoneAccess<
    'a,
    E: Entity,
    S: EntityStore<E>,
    D: StaticDataProvider,
    C: ZoneContainers,
    P: ZoneItemProps,
> {
    pub zone: &'a mut Zone<E, S, D, C, P>,
    pub outlet: &'a mut Outlet,
}

impl<
    'a,
    E: Entity,
    S: EntityStore<E>,
    D: StaticDataProvider,
    C: ZoneContainers,
    P: ZoneItemProps,
> ZoneAccess<'a, E, S, D, C, P> {
    /// The zone as it is.
    pub open spec fn here(&self) -> Zone<E, S, D, C, P> {
        *self.zone
    }

    /// What is told so far.
    pub open spec fn out(&self) -> OutletView {
        self.outlet@
    }

    pub open spec fn wf(&self) -> bool {
        self.zone.wf() && self.outlet.wf()
    }

    /// What is seen of an entity.
    pub fn get_entity(&self, serial: u32) -> (r: Option<EntityInfo>)
        ensures
            r is Some <==> self.here().entities().contains_key(serial),
            r matches Some(i) ==> i.shows(self.here().entities()[serial].state()),
    {
        match self.zone.get(serial) {
            Some(e) => Some(info_of(e)),
            None => None,
        }
    }

    /// What is seen of all entities within an area, each once.
    pub fn query_area(&self, area: &TileRect) -> (r: Vec<EntityInfo>)
        requires
            self.wf(),
        ensures
            exists|ids: Seq<u32>| #[trigger]
                ids.no_duplicates() && ids.len() == r@.len() && (forall|id: u32| #[trigger]
                    ids.contains(id) <==> self.here().entities().contains_key(id) && area.has(
                        self.here().entities()[id].state().pos.x as int,
                        self.here().entities()[id].state().pos.y as int,
                    )) && (forall|i: int|
                    0 <= i < ids.len() ==> (#[trigger] r@[i]).shows(
                        self.here().entities()[ids[i]].state(),
                    )),
    {
        let found = self.zone.query_area(area);
        let mut r: Vec<EntityInfo> = Vec::new();
        let mut i: usize = 0;
        while i < found.len()
            invariant
                i <= found@.len(),
                r@.len() == i,
                forall|j: int| 0 <= j < i ==> (#[trigger] r@[j]).shows(found@[j].state()),
            decreases found@.len() - i,
        {
            r.push(info_of(&found[i]));
            i += 1;
        }
        proof {
            let ids = choose|ids: Seq<u32>| #[trigger]
                ids.no_duplicates() && ids.len() == found@.len() && (forall|id: u32| #[trigger]
                    ids.contains(id) <==> self.here().entities().contains_key(id) && area.has(
                        self.here().entities()[id].state().pos.x as int,
                        self.here().entities()[id].state().pos.y as int,
                    )) && (forall|i: int|
                    0 <= i < ids.len() ==> (#[trigger] found@[i]).state()
                        == self.here().entities()[ids[i]].state());
            assert(ids.no_duplicates());
            assert forall|j: int| 0 <= j < ids.len() implies (#[trigger] r@[j]).shows(
                self.here().entities()[ids[j]].state(),
            ) by {
                assert(found@[j].state() == self.here().entities()[ids[j]].state());
            }
        }
        r
    }

    /// The standing height after a step on foot, if the way is free.
    pub fn test_step(&self, x: u16, y: u16, z: i8, direction: Heading) -> (r: Option<i8>)
        requires
            self.wf(),
            step_covered(self.here(), (Pos3D { x, y, z }), direction),
        ensures
            step_ends(self.here(), (Pos3D { x, y, z }), direction, r),
    {
        self.zone.test_step(x, y, z, direction)
    }

    /// The standing height nearest to a hint, where one can stand.
    pub fn resolve_standing_z(&self, x: u16, y: u16, z_hint: i8, direction: Heading) -> (r: Option<
        i8,
    >)
        requires
            self.wf(),
            !self.here().nothing_at(x, y) ==> self.here().tiles().covers(x, y),
        ensures
            self.here().nothing_at(x, y) ==> r == Some(z_hint),
            !self.here().nothing_at(x, y) ==> {
                let shapes = self.here().tiles().stack(x, y, direction).push(TileShape::cap_spec());
                r == best_perch(shapes, z_hint as int, 0, false, shapes.len() as int)
            },
    {
        self.zone.resolve_standing_z(x, y, z_hint, direction)
    }

    pub fn map_id(&self) -> (m: u8)
        ensures
            m == self.here().map_id,
    {
        self.zone.map_id
    }

    /// Whether nothing stops sight between two points.
    pub fn has_los(&self, x1: u16, y1: u16, z1: i16, x2: u16, y2: u16, z2: i16) -> (b: bool)
        requires
            self.wf(),
            !self.here().nothing_anywhere() ==> ray_fits(x1, y1, z1, x2, y2, z2),
            !self.here().nothing_anywhere() ==> self.here().sight_rules().all_covered(
                LosRay::between(x1, y1, z1, x2, y2, z2).pending(),
            ),
        ensures
            self.here().nothing_anywhere() ==> b,
            !self.here().nothing_anywhere() ==> b == self.here().sight_rules().clear(
                x1,
                y1,
                z1,
                x2,
                y2,
                z2,
            ),
    {
        self.zone.has_los(x1, y1, z1, x2, y2, z2)
    }

    /// The backpack of an entity, if it is there and has one.
    pub fn get_backpack_serial(&self, serial: u32) -> (r: Option<u32>)
        ensures
            r == if self.here().entities().contains_key(serial) {
                self.here().entities()[serial].state().backpack
            } else {
                None
            },
    {
        match self.zone.get(serial) {
            Some(e) => e.backpack_serial(),
            None => None,
        }
    }

    /// The first item of a container with this graphic that is not used up, and how
    /// much there is of it.
    pub fn find_item_in_container(&self, container_serial: u32, graphic: u16) -> (r: Option<
        (u32, u16),
    >)
        ensures
            r == if self.here().containers.stored().contains_key(container_serial) {
                first_of(self.here().containers.stored()[container_serial].items, graphic)
            } else {
                None
            },
    {
        match self.zone.containers.get(container_serial) {
            Some(info) => {
                let ghost items = info@.items;
                let mut i: usize = 0;
                assert(items.skip(0) =~= items);
                while i < info.items.len()
                    invariant
                        i <= info.items@.len(),
                        items == info.items@,
                        self.here().containers.stored().contains_key(container_serial),
                        items == self.here().containers.stored()[container_serial].items,
                        first_of(items, graphic) == first_of(items.skip(i as int), graphic),
                    decreases info.items@.len() - i,
                {
                    assert(items.skip(i as int)[0] == items[i as int]);
                    assert(items.skip(i as int).skip(1) =~= items.skip(i + 1));
                    if info.items[i].graphic == graphic && info.items[i].amount > 0 {
                        return Some((info.items[i].serial, info.items[i].amount));
                    }
                    i += 1;
                }
                None
            },
            None => None,
        }
    }
}

/// The first item with this graphic that is not used up.
pub open spec fn first_of(items: Seq<ContainerItem>, graphic: u16) -> Option<(u32, u16)>
    decreases items.len(),
{
    if items.len() == 0 {
        None
    } else if items[0].graphic == graphic && items[0].amount > 0 {
        Some((items[0].serial, items[0].amount))
    } else {
        first_of(items.skip(1), graphic)
    }
}

/// A place with the way one faces there.
pub open spec fn facing_at(pos: Pos3D, raw: u8) -> MobilePos {
    MobilePos { x: pos.x, y: pos.y, z: pos.z, facing: Facing { raw } }
}

/// The way an entity faces; those who face nowhere count as facing north.
pub open spec fn raw_facing(e: EntityState) -> u8 {
    match e.direction {
        Some(d) => d,
        None => 0,
    }
}

/// Whether only one entity of a zone changed, in its place.
pub open spec fn changed_in_place<
    E: Entity,
    S: EntityStore<E>,
    D: StaticDataProvider,
    C: ZoneContainers,
    P: ZoneItemProps,
>(before: Zone<E, S, D, C, P>, after: Zone<E, S, D, C, P>, serial: u32) -> bool {
    &&& before.entities().contains_key(serial)
    &&& after.entities().contains_key(serial)
    &&& after.entities() == before.entities().insert(serial, after.entities()[serial])
    &&& after.same_frame(&before)
    &&& after.snapshot == before.snapshot
    &&& after.registry == before.registry
}

/// Whether an entity of a zone was moved and turned, without a trace but its place.
pub open spec fn moved_and_turned<
    E: Entity,
    S: EntityStore<E>,
    D: StaticDataProvider,
    C: ZoneContainers,
    P: ZoneItemProps,
>(
    before: Zone<E, S, D, C, P>,
    after: Zone<E, S, D, C, P>,
    serial: u32,
    pos: Pos3D,
    raw: u8,
) -> bool {
    &&& changed_in_place(before, after, serial)
    &&& after.entities()[serial].state().pos == pos
    &&& exists|m: E| #[trigger]
        m.state() == before.entities()[serial].moved(pos) && after.entities()[serial].state()
            == m.turned(raw)
}

/// Whether an entity of a zone was taken up and put down somewhere else.
pub open spec fn put_down<
    E: Entity,
    S: EntityStore<E>,
    D: StaticDataProvider,
    C: ZoneContainers,
    P: ZoneItemProps,
>(before: Zone<E, S, D, C, P>, after: Zone<E, S, D, C, P>, serial: u32, pos: Pos3D) -> bool {
    &&& before.entities().contains_key(serial)
    &&& after.entities().contains_key(serial)
    &&& after.entities()[serial].state() == before.entities()[serial].moved(pos)
    &&& Zone::updated(before, after, serial, after.entities()[serial])
}

/// Takes an entity up and puts it down somewhere else.
fn put_at<
    E: Entity,
    S: EntityStore<E>,
    D: StaticDataProvider,
    C: ZoneContainers,
    P: ZoneItemProps,
>(zone: &mut Zone<E, S, D, C, P>, serial: u32, pos: Pos3D) -> (found: bool)
    requires
        old(zone).wf(),
    ensures
        final(zone).wf(),
        found == old(zone).entities().contains_key(serial),
        found ==> put_down(*old(zone), *final(zone), serial, pos),
        !found ==> *final(zone) == *old(zone),
{
    if zone.get(serial).is_none() {
        return false;
    }
    let ghost before = *zone;
    let ghost e0 = zone.entities()[serial];
    let mut entity = match zone.remove(serial) {
        Some(e) => e,
        None => {
            return false;
        },
    };
    entity.set_pos(pos);
    let ghost mid = *zone;
    zone.spawn(serial, entity);
    proof {
        assert(before.entities().remove(serial).insert(serial, entity) =~= before.entities().insert(
            serial,
            entity,
        ));
        assert forall|x: u16, y: u16| #[trigger] zone.snapshot.at(x, y) == {
            let left = before.obstacles_without(e0, serial, x, y);
            if entity.state().multi || entity.state().mobile {
                left
            } else {
                crate::continuum::zone::obstructed(
                    left,
                    serial as u64,
                    crate::continuum::zone::forms_on(before.forms_of(entity), x, y),
                )
            }
        } by {
            assert(zone.snapshot.at(x, y) == mid.obstacles_with(entity, serial, x, y));
            assert(mid.snapshot.at(x, y) == before.obstacles_without(e0, serial, x, y));
        }
    }
    true
}

impl<
    'a,
    E: Entity,
    S: EntityStore<E>,
    D: StaticDataProvider,
    C: ZoneContainers,
    P: ZoneItemProps,
> ZoneAccess<'a, E, S, D, C, P> {
    /// What becomes of a teleport.
    pub open spec fn teleported(
        &self,
        after: &Self,
        serial: u32,
        x: u16,
        y: u16,
        z: i8,
        r: Result<(), ControllerError>,
    ) -> bool {
        let pos = Pos3D { x, y, z };
        if self.here().entities().contains_key(serial) {
            let e = self.here().entities()[serial].state();
            &&& r is Ok
            &&& put_down(self.here(), after.here(), serial, pos)
            &&& after.out() == self.out().told(
                WorldEvent::EntityMoved {
                    map_id: self.here().map_id,
                    serial,
                    old_pos: facing_at(e.pos, raw_facing(e)),
                    new_pos: facing_at(pos, raw_facing(e)),
                    entity: after.here().entities()[serial].state().snapshot,
                    is_teleport: true,
                },
            ).followed(serial, x, y)
        } else {
            &&& r == Err::<(), ControllerError>(ControllerError::EntityNotFound(serial))
            &&& after.here() == self.here()
            &&& after.out() == self.out()
        }
    }

    /// Puts an entity somewhere else, whatever is in the way. What its controller
    /// watches goes along.
    pub fn teleport_entity(&mut self, serial: u32, x: u16, y: u16, z: i8) -> (r: Result<
        (),
        ControllerError,
    >)
        requires
            old(self).wf(),
        ensures
            final(self).wf(),
            *final(final(self).zone) == *final(old(self).zone),
            *final(final(self).outlet) == *final(old(self).outlet),
            old(self).teleported(final(self), serial, x, y, z, r),
    {
        let (old_pos, raw) = match self.zone.get(serial) {
            Some(e) => (
                e.pos(),
                match e.direction() {
                    Some(d) => d,
                    None => 0,
                },
            ),
            None => {
                return Err(ControllerError::EntityNotFound(serial));
            },
        };
        put_at(self.zone, serial, Pos3D::new(x, y, z));
        let snapshot = match self.zone.get(serial) {
            Some(e) => e.snapshot(),
            None => None,
        };
        let facing = Facing::new(raw);
        let map_id: u8 = self.zone.map_id;
        self.outlet.tell(
            WorldEvent::EntityMoved {
                map_id,
                serial,
                old_pos: MobilePos { x: old_pos.x, y: old_pos.y, z: old_pos.z, facing },
                new_pos: MobilePos { x, y, z, facing },
                entity: snapshot,
                is_teleport: true,
            },
        );
        self.outlet.follow(serial, x, y);
        Ok(())
    }

    /// Moves an entity one step, if the way is free. Mobiles turn and keep running
    /// if they run. What its controller watches goes along.
    pub fn move_entity(&mut self, serial: u32, direction: Facing) -> (r: Result<
        Pos3D,
        ControllerError,
    >)
        requires
            old(self).wf(),
            old(self).here().entities().contains_key(serial) ==> step_covered(
                old(self).here(),
                old(self).here().entities()[serial].state().pos,
                direction.heading_spec(),
            ),
        ensures
            final(self).wf(),
            *final(final(self).zone) == *final(old(self).zone),
            *final(final(self).outlet) == *final(old(self).outlet),
            old(self).stepped_from(final(self), serial, direction, r),
    {
        let ghost before = *self.zone;
        let ghost out0 = self.outlet@;
        let (cur, mobile) = match self.zone.get(serial) {
            Some(e) => (e.pos(), e.is_mobile()),
            None => {
                return Err(ControllerError::EntityNotFound(serial));
            },
        };
        let heading = direction.heading();
        let (dx, dy) = heading.delta();
        let new_x: u16 = step_coord(cur.x, dx);
        let new_y: u16 = step_coord(cur.y, dy);
        let new_z: i8 = match self.zone.test_step(cur.x, cur.y, cur.z, heading) {
            Some(z) => z,
            None => {
                assert(step_ends(before, cur, heading, None));
                return Err(ControllerError::MovementBlocked { serial, x: new_x, y: new_y });
            },
        };
        assert(step_ends(before, cur, heading, Some(new_z)));
        let pos = Pos3D::new(new_x, new_y, new_z);
        if mobile {
            self.zone.move_entity(serial, new_x, new_y, new_z, Some(direction.raw()));
        } else {
            put_at(self.zone, serial, pos);
        }
        let snapshot = match self.zone.get(serial) {
            Some(e) => e.snapshot(),
            None => None,
        };
        let map_id: u8 = self.zone.map_id;
        self.outlet.tell(
            WorldEvent::EntityMoved {
                map_id,
                serial,
                old_pos: MobilePos { x: cur.x, y: cur.y, z: cur.z, facing: direction },
                new_pos: MobilePos { x: new_x, y: new_y, z: new_z, facing: direction },
                entity: snapshot,
                is_teleport: false,
            },
        );
        self.outlet.follow(serial, new_x, new_y);
        Ok(pos)
    }

    /// What became of a step.
    pub open spec fn stepped_from(
        &self,
        after: &Self,
        serial: u32,
        direction: Facing,
        r: Result<Pos3D, ControllerError>,
    ) -> bool {
        if self.here().entities().contains_key(serial) {
            let e = self.here().entities()[serial].state();
            let h = direction.heading_spec();
            let x = stepped(e.pos.x, h.dx());
            let y = stepped(e.pos.y, h.dy());
            match r {
                Ok(pos) => {
                    &&& pos.x == x
                    &&& pos.y == y
                    &&& step_ends(self.here(), e.pos, h, Some(pos.z))
                    &&& if e.mobile {
                        moved_and_turned(self.here(), after.here(), serial, pos, direction.raw)
                    } else {
                        put_down(self.here(), after.here(), serial, pos)
                    }
                    &&& after.out() == self.out().told(
                        WorldEvent::EntityMoved {
                            map_id: self.here().map_id,
                            serial,
                            old_pos: facing_at(e.pos, direction.raw),
                            new_pos: facing_at(pos, direction.raw),
                            entity: after.here().entities()[serial].state().snapshot,
                            is_teleport: false,
                        },
                    ).followed(serial, x, y)
                },
                Err(err) => {
                    &&& err == (ControllerError::MovementBlocked { serial, x, y })
                    &&& step_ends(self.here(), e.pos, h, None)
                    &&& after.here() == self.here()
                    &&& after.out() == self.out()
                },
            }
        } else {
            &&& r == Err::<Pos3D, ControllerError>(ControllerError::EntityNotFound(serial))
            &&& after.here() == self.here()
            &&& after.out() == self.out()
        }
    }

    /// What becomes of a turn.
    pub open spec fn turned_in_place(
        &self,
        after: &Self,
        serial: u32,
        direction: Facing,
        r: Result<(), ControllerError>,
    ) -> bool {
        if self.here().entities().contains_key(serial) {
            let e = self.here().entities()[serial].state();
            &&& r is Ok
            &&& moved_and_turned(
                self.here(),
                after.here(),
                serial,
                e.pos,
                direction.raw,
            )
            &&& after.out() == self.out().told(
                WorldEvent::EntityMoved {
                    map_id: self.here().map_id,
                    serial,
                    old_pos: facing_at(e.pos, direction.raw),
                    new_pos: facing_at(e.pos, direction.raw),
                    entity: after.here().entities()[serial].state().snapshot,
                    is_teleport: true,
                },
            )
        } else {
            &&& r == Err::<(), ControllerError>(ControllerError::EntityNotFound(serial))
            &&& after.here() == self.here()
            &&& after.out() == self.out()
        }
    }

    /// Turns an entity where it is.
    pub fn set_direction(&mut self, serial: u32, direction: Facing) -> (r: Result<
        (),
        ControllerError,
    >)
        requires
            old(self).wf(),
        ensures
            final(self).wf(),
            *final(final(self).zone) == *final(old(self).zone),
            *final(final(self).outlet) == *final(old(self).outlet),
            old(self).turned_in_place(final(self), serial, direction, r),
    {
        let cur = match self.zone.get(serial) {
            Some(e) => e.pos(),
            None => {
                return Err(ControllerError::EntityNotFound(serial));
            },
        };
        self.zone.move_entity(serial, cur.x, cur.y, cur.z, Some(direction.raw()));
        let snapshot = match self.zone.get(serial) {
            Some(e) => e.snapshot(),
            None => None,
        };
        let map_id: u8 = self.zone.map_id;
        let place = MobilePos { x: cur.x, y: cur.y, z: cur.z, facing: direction };
        self.outlet.tell(
            WorldEvent::EntityMoved {
                map_id,
                serial,
                old_pos: place,
                new_pos: place,
                entity: snapshot,
                is_teleport: true,
            },
        );
        Ok(())
    }

    /// What becomes of a removal.
    pub open spec fn taken_out(
        &self,
        after: &Self,
        serial: u32,
        r: Result<(), ControllerError>,
    ) -> bool {
        if self.here().entities().contains_key(serial) {
            &&& r is Ok
            &&& after.here().entities() == self.here().entities().remove(serial)
            &&& after.here().same_frame(&self.here())
            &&& forall|x: u16, y: u16| #[trigger]
                after.here().snapshot.at(x, y) == self.here().obstacles_without(
                    self.here().entities()[serial],
                    serial,
                    x,
                    y,
                )
            &&& if self.here().entities()[serial].state().multi {
                EntityRegistry::forgotten(
                    self.here().registry,
                    after.here().registry,
                    serial,
                )
            } else {
                after.here().registry == self.here().registry
            }
            &&& after.out() == self.out().told(
                WorldEvent::EntityRemoved {
                    map_id: self.here().map_id,
                    serial,
                    last_pos: self.here().entities()[serial].state().pos,
                },
            )
        } else {
            &&& r == Err::<(), ControllerError>(ControllerError::EntityNotFound(serial))
            &&& after.here() == self.here()
            &&& after.out() == self.out()
        }
    }

    /// Takes an entity out of the zone.
    pub fn remove_entity(&mut self, serial: u32) -> (r: Result<(), ControllerError>)
        requires
            old(self).wf(),
        ensures
            final(self).wf(),
            *final(final(self).zone) == *final(old(self).zone),
            *final(final(self).outlet) == *final(old(self).outlet),
            old(self).taken_out(final(self), serial, r),
    {
        let last_pos = match self.zone.get(serial) {
            Some(e) => e.pos(),
            None => {
                return Err(ControllerError::EntityNotFound(serial));
            },
        };
        let _gone = self.zone.remove(serial);
        let map_id: u8 = self.zone.map_id;
        self.outlet.tell(WorldEvent::EntityRemoved { map_id, serial, last_pos });
        Ok(())
    }
}

/// A pair, or one in place of a missing one.
pub open spec fn pair_or(v: Option<(u16, u16)>, other: (u16, u16)) -> (u16, u16) {
    match v {
        Some(p) => p,
        None => other,
    }
}

/// The greatest value of a pair, zero if there is none.
pub open spec fn greatest_or_zero(v: Option<(u16, u16)>) -> u16 {
    match v {
        Some(p) => p.1,
        None => 0,
    }
}

fn pair_or_else(v: Option<(u16, u16)>, other: (u16, u16)) -> (p: (u16, u16))
    ensures
        p == pair_or(v, other),
{
    match v {
        Some(p) => p,
        None => other,
    }
}

/// What is told of mana and stamina after a change.
pub open spec fn vitals_event(
    map_id: u8,
    serial: u32,
    e: EntityState,
    mana: (u16, u16),
    stamina: (u16, u16),
) -> WorldEvent {
    WorldEvent::ManaStaminaChanged {
        map_id,
        serial,
        mana: pair_or(e.mana, mana).0,
        max_mana: pair_or(e.mana, mana).1,
        stamina: pair_or(e.stamina, stamina).0,
        max_stamina: pair_or(e.stamina, stamina).1,
        x: e.pos.x,
        y: e.pos.y,
    }
}

impl<
    'a,
    E: Entity,
    S: EntityStore<E>,
    D: StaticDataProvider,
    C: ZoneContainers,
    P: ZoneItemProps,
> ZoneAccess<'a, E, S, D, C, P> {
    /// Whether nothing changed.
    pub open spec fn untouched(&self, after: &Self) -> bool {
        after.here() == self.here() && after.out() == self.out()
    }

    /// What becomes of damage.
    pub open spec fn damaged_by(
        &self,
        after: &Self,
        serial: u32,
        amount: u16,
        source_serial: u32,
        r: Result<(u16, bool), ControllerError>,
    ) -> bool {
        let e = self.here().entities()[serial];
        if !self.here().entities().contains_key(serial) {
            &&& r == Err::<(u16, bool), ControllerError>(
                ControllerError::EntityNotFound(serial),
            )
            &&& self.untouched(after)
        } else if !e.state().mobile {
            &&& r matches Err(ControllerError::Custom(text)) && text@
                == no_mobile_wording(serial)
            &&& self.untouched(after)
        } else {
            let left = e.damaged(amount);
            let e1 = after.here().entities()[serial].state();
            &&& r == Ok::<(u16, bool), ControllerError>((left.value, left.value == 0))
            &&& changed_in_place(self.here(), after.here(), serial)
            &&& e1 == left.state
            &&& after.out() == self.out().told(
                WorldEvent::DamageDealt {
                    map_id: self.here().map_id,
                    serial,
                    source_serial,
                    amount,
                    new_hits: left.value,
                    max_hits: greatest_or_zero(e1.hits),
                    x: e1.pos.x,
                    y: e1.pos.y,
                },
            )
        }
    }

    /// Damages a mobile. Returns its hit points, and whether none are left.
    pub fn deal_damage(&mut self, serial: u32, amount: u16, source_serial: u32) -> (r: Result<
        (u16, bool),
        ControllerError,
    >)
        requires
            old(self).wf(),
        ensures
            final(self).wf(),
            *final(final(self).zone) == *final(old(self).zone),
            *final(final(self).outlet) == *final(old(self).outlet),
            old(self).damaged_by(final(self), serial, amount, source_serial, r),
    {
        let ghost before = *self.zone;
        match self.zone.get(serial) {
            Some(e) => {
                if !e.is_mobile() {
                    return Err(no_mobile(serial));
                }
            },
            None => {
                return Err(ControllerError::EntityNotFound(serial));
            },
        }
        match self.zone.store.get_mut(serial) {
            Some(e) => {
                let new_hits: u16 = e.apply_damage(amount);
                let pos = e.pos();
                let (_, max_hits) = pair_or_else(e.hits(), (0, 0));
                let map_id: u8 = self.zone.map_id;
                proof {
                    assert forall|id: u32| #[trigger] self.zone.placed(id) by {
                        assert(before.placed(id));
                    }
                }
                self.outlet.tell(
                    WorldEvent::DamageDealt {
                        map_id,
                        serial,
                        source_serial,
                        amount,
                        new_hits,
                        max_hits,
                        x: pos.x,
                        y: pos.y,
                    },
                );
                Ok((new_hits, new_hits == 0))
            },
            None => Err(ControllerError::EntityNotFound(serial)),
        }
    }

    /// What becomes of healing.
    pub open spec fn healed_by(
        &self,
        after: &Self,
        serial: u32,
        amount: u16,
        r: Result<u16, ControllerError>,
    ) -> bool {
        let e = self.here().entities()[serial];
        if !self.here().entities().contains_key(serial) {
            &&& r == Err::<u16, ControllerError>(ControllerError::EntityNotFound(serial))
            &&& self.untouched(after)
        } else if !e.state().mobile {
            &&& r matches Err(ControllerError::Custom(text)) && text@
                == no_mobile_wording(serial)
            &&& self.untouched(after)
        } else {
            let now = e.healed(amount);
            let e1 = after.here().entities()[serial].state();
            &&& r == Ok::<u16, ControllerError>(now.value)
            &&& changed_in_place(self.here(), after.here(), serial)
            &&& e1 == now.state
            &&& after.out() == self.out().told(
                WorldEvent::MobileHealed {
                    map_id: self.here().map_id,
                    serial,
                    amount,
                    new_hits: now.value,
                    max_hits: greatest_or_zero(e1.hits),
                    x: e1.pos.x,
                    y: e1.pos.y,
                },
            )
        }
    }

    /// Heals a mobile. Returns its hit points.
    pub fn heal_entity(&mut self, serial: u32, amount: u16) -> (r: Result<u16, ControllerError>)
        requires
            old(self).wf(),
        ensures
            final(self).wf(),
            *final(final(self).zone) == *final(old(self).zone),
            *final(final(self).outlet) == *final(old(self).outlet),
            old(self).healed_by(final(self), serial, amount, r),
    {
        let ghost before = *self.zone;
        match self.zone.get(serial) {
            Some(e) => {
                if !e.is_mobile() {
                    return Err(no_mobile(serial));
                }
            },
            None => {
                return Err(ControllerError::EntityNotFound(serial));
            },
        }
        match self.zone.store.get_mut(serial) {
            Some(e) => {
                let new_hits: u16 = e.apply_heal(amount);
                let pos = e.pos();
                let (_, max_hits) = pair_or_else(e.hits(), (0, 0));
                let map_id: u8 = self.zone.map_id;
                proof {
                    assert forall|id: u32| #[trigger] self.zone.placed(id) by {
                        assert(before.placed(id));
                    }
                }
                self.outlet.tell(
                    WorldEvent::MobileHealed {
                        map_id,
                        serial,
                        amount,
                        new_hits,
                        max_hits,
                        x: pos.x,
                        y: pos.y,
                    },
                );
                Ok(new_hits)
            },
            None => Err(ControllerError::EntityNotFound(serial)),
        }
    }

    /// What becomes of a change of mana.
    pub open spec fn mana_changed(
        &self,
        after: &Self,
        serial: u32,
        delta: i32,
        r: Result<u16, ControllerError>,
    ) -> bool {
        let e = self.here().entities()[serial];
        if !self.here().entities().contains_key(serial) {
            &&& r == Err::<u16, ControllerError>(ControllerError::EntityNotFound(serial))
            &&& self.untouched(after)
        } else {
            let now = e.mana_shifted(delta);
            &&& r == Ok::<u16, ControllerError>(now.value)
            &&& changed_in_place(self.here(), after.here(), serial)
            &&& after.here().entities()[serial].state() == now.state
            &&& after.out() == self.out().told(
                vitals_event(
                    self.here().map_id,
                    serial,
                    now.state,
                    (now.value, now.value),
                    (0, 0),
                ),
            )
        }
    }

    /// Changes the mana of an entity. Returns what there is.
    pub fn modify_mana(&mut self, serial: u32, delta: i32) -> (r: Result<u16, ControllerError>)
        requires
            old(self).wf(),
        ensures
            final(self).wf(),
            *final(final(self).zone) == *final(old(self).zone),
            *final(final(self).outlet) == *final(old(self).outlet),
            old(self).mana_changed(final(self), serial, delta, r),
    {
        let ghost before = *self.zone;
        if self.zone.get(serial).is_none() {
            return Err(ControllerError::EntityNotFound(serial));
        }
        match self.zone.store.get_mut(serial) {
            Some(e) => {
                let new_mana: u16 = e.modify_mana(delta);
                let pos = e.pos();
                let (mana, max_mana) = pair_or_else(e.mana(), (new_mana, new_mana));
                let (stamina, max_stamina) = pair_or_else(e.stamina(), (0, 0));
                let map_id: u8 = self.zone.map_id;
                proof {
                    assert forall|id: u32| #[trigger] self.zone.placed(id) by {
                        assert(before.placed(id));
                    }
                }
                self.outlet.tell(
                    WorldEvent::ManaStaminaChanged {
                        map_id,
                        serial,
                        mana,
                        max_mana,
                        stamina,
                        max_stamina,
                        x: pos.x,
                        y: pos.y,
                    },
                );
                Ok(new_mana)
            },
            None => Err(ControllerError::EntityNotFound(serial)),
        }
    }

    /// What becomes of a change of stamina.
    pub open spec fn stamina_changed(
        &self,
        after: &Self,
        serial: u32,
        delta: i32,
        r: Result<u16, ControllerError>,
    ) -> bool {
        let e = self.here().entities()[serial];
        if !self.here().entities().contains_key(serial) {
            &&& r == Err::<u16, ControllerError>(ControllerError::EntityNotFound(serial))
            &&& self.untouched(after)
        } else {
            let now = e.stamina_shifted(delta);
            &&& r == Ok::<u16, ControllerError>(now.value)
            &&& changed_in_place(self.here(), after.here(), serial)
            &&& after.here().entities()[serial].state() == now.state
            &&& after.out() == self.out().told(
                vitals_event(
                    self.here().map_id,
                    serial,
                    now.state,
                    (0, 0),
                    (now.value, now.value),
                ),
            )
        }
    }

    /// Changes the stamina of an entity. Returns what there is.
    pub fn modify_stamina(&mut self, serial: u32, delta: i32) -> (r: Result<u16, ControllerError>)
        requires
            old(self).wf(),
        ensures
            final(self).wf(),
            *final(final(self).zone) == *final(old(self).zone),
            *final(final(self).outlet) == *final(old(self).outlet),
            old(self).stamina_changed(final(self), serial, delta, r),
    {
        let ghost before = *self.zone;
        if self.zone.get(serial).is_none() {
            return Err(ControllerError::EntityNotFound(serial));
        }
        match self.zone.store.get_mut(serial) {
            Some(e) => {
                let new_stamina: u16 = e.modify_stamina(delta);
                let pos = e.pos();
                let (mana, max_mana) = pair_or_else(e.mana(), (0, 0));
                let (stamina, max_stamina) = pair_or_else(e.stamina(), (new_stamina, new_stamina));
                let map_id: u8 = self.zone.map_id;
                proof {
                    assert forall|id: u32| #[trigger] self.zone.placed(id) by {
                        assert(before.placed(id));
                    }
                }
                self.outlet.tell(
                    WorldEvent::ManaStaminaChanged {
                        map_id,
                        serial,
                        mana,
                        max_mana,
                        stamina,
                        max_stamina,
                        x: pos.x,
                        y: pos.y,
                    },
                );
                Ok(new_stamina)
            },
            None => Err(ControllerError::EntityNotFound(serial)),
        }
    }

    /// Whether a mobile is there that has so much mana.
    pub open spec fn can_spend(&self, serial: u32, amount: u16) -> bool {
        &&& self.here().entities().contains_key(serial)
        &&& self.here().entities()[serial].state().mobile
        &&& pair_or(self.here().entities()[serial].state().mana, (0, 0)).0 >= amount
    }

    /// What becomes of an attempt to spend mana.
    pub open spec fn mana_spent(
        &self,
        after: &Self,
        serial: u32,
        amount: u16,
        r: Option<u16>,
    ) -> bool {
        if self.can_spend(serial, amount) {
            let now = self.here().entities()[serial].mana_shifted((-amount) as i32);
            &&& r == Some(now.value)
            &&& changed_in_place(self.here(), after.here(), serial)
            &&& after.here().entities()[serial].state() == now.state
            &&& after.out() == self.out().told(
                vitals_event(
                    self.here().map_id,
                    serial,
                    now.state,
                    (now.value, now.value),
                    (0, 0),
                ),
            )
        } else {
            &&& r is None
            &&& self.untouched(after)
        }
    }

    /// Takes mana from a mobile that has enough. Returns what there is then.
    pub fn consume_mana(&mut self, serial: u32, amount: u16) -> (r: Option<u16>)
        requires
            old(self).wf(),
        ensures
            final(self).wf(),
            *final(final(self).zone) == *final(old(self).zone),
            *final(final(self).outlet) == *final(old(self).outlet),
            old(self).mana_spent(final(self), serial, amount, r),
    {
        match self.zone.get(serial) {
            Some(e) => {
                if !e.is_mobile() {
                    return None;
                }
                let (mana, _) = pair_or_else(e.mana(), (0, 0));
                if mana < amount {
                    return None;
                }
            },
            None => {
                return None;
            },
        }
        match self.modify_mana(serial, -(amount as i32)) {
            Ok(v) => Some(v),
            Err(_) => None,
        }
    }
}

/// How many containers are gone through at most to find out where one is.
pub const MAX_HOPS: u8 = 16;

/// Whether `r` is where a container is: at the place of the entity with its serial, or
/// where the container is that it is in, or with one who wears it; nowhere else, and
/// nowhere after `n` containers.
pub open spec fn lies_at<
    E: Entity,
    S: EntityStore<E>,
    D: StaticDataProvider,
    C: ZoneContainers,
    P: ZoneItemProps,
>(zone: Zone<E, S, D, C, P>, c: u32, n: nat, r: Option<(u16, u16)>) -> bool
    decreases n,
{
    if n == 0 {
        r is None
    } else if zone.entities().contains_key(c) {
        let pos = zone.entities()[c].state().pos;
        r == Some((pos.x, pos.y))
    } else if zone.containers.places().contains_key(c) {
        lies_at(zone, zone.containers.places()[c], (n - 1) as nat, r)
    } else {
        match r {
            Some(p) => exists|id: u32|
                {
                    &&& #[trigger] zone.entities().contains_key(id)
                    &&& zone.entities()[id].state().equipment.contains(c)
                    &&& p == (
                        zone.entities()[id].state().pos.x,
                        zone.entities()[id].state().pos.y,
                    )
                },
            None => forall|id: u32| #[trigger]
                zone.entities().contains_key(id) ==> !zone.entities()[id].state().equipment.contains(
                    c,
                ),
        }
    }
}

fn list_has(l: &Vec<u32>, x: u32) -> (b: bool)
    ensures
        b == l@.contains(x),
{
    let mut i: usize = 0;
    while i < l.len()
        invariant
            i <= l@.len(),
            forall|j: int| 0 <= j < i ==> l@[j] != x,
        decreases l@.len() - i,
    {
        if l[i] == x {
            return true;
        }
        i += 1;
    }
    false
}

/// Where one is who wears an item.
fn wearer_place<
    E: Entity,
    S: EntityStore<E>,
    D: StaticDataProvider,
    C: ZoneContainers,
    P: ZoneItemProps,
>(zone: &Zone<E, S, D, C, P>, item: u32) -> (r: Option<(u16, u16)>)
    ensures
        match r {
            Some(p) => exists|id: u32|
                {
                    &&& #[trigger] zone.entities().contains_key(id)
                    &&& zone.entities()[id].state().equipment.contains(item)
                    &&& p == (
                        zone.entities()[id].state().pos.x,
                        zone.entities()[id].state().pos.y,
                    )
                },
            None => forall|id: u32| #[trigger]
                zone.entities().contains_key(id) ==> !zone.entities()[id].state().equipment.contains(
                    item,
                ),
        },
{
    let ids = zone.store.ids();
    let mut i: usize = 0;
    while i < ids.len()
        invariant
            i <= ids@.len(),
            forall|id: u32| #[trigger] ids@.contains(id) <==> zone.entities().contains_key(id),
            forall|j: int|
                0 <= j < i ==> !zone.entities()[#[trigger] ids@[j]].state().equipment.contains(item),
        decreases ids@.len() - i,
    {
        let ghost id = ids@[i as int];
        assert(ids@.contains(id));
        if let Some(e) = zone.store.get(ids[i]) {
            let worn = e.equipment_serials();
            if list_has(&worn, item) {
                let pos = e.pos();
                assert(zone.entities().contains_key(id));
                return Some((pos.x, pos.y));
            }
        }
        i += 1;
    }
    assert forall|id: u32| #[trigger] zone.entities().contains_key(id) implies !zone.entities()[id].state().equipment.contains(
        item,
    ) by {
        assert(ids@.contains(id));
        let j = choose|j: int| 0 <= j < ids@.len() && ids@[j] == id;
        assert(!zone.entities()[ids@[j]].state().equipment.contains(item));
    }
    None
}

/// Where a container is.
fn container_place<
    E: Entity,
    S: EntityStore<E>,
    D: StaticDataProvider,
    C: ZoneContainers,
    P: ZoneItemProps,
>(zone: &Zone<E, S, D, C, P>, c: u32, n: u8) -> (r: Option<(u16, u16)>)
    ensures
        lies_at(*zone, c, n as nat, r),
    decreases n,
{
    if n == 0 {
        return None;
    }
    if let Some(e) = zone.get(c) {
        let pos = e.pos();
        return Some((pos.x, pos.y));
    }
    match zone.containers.find_container_of_item(c) {
        Some(parent) => container_place(zone, parent, n - 1),
        None => wearer_place(zone, c),
    }
}

/// What is left of a stack after so much of it was used; a use of nothing counts
/// as a use of one.
pub open spec fn left_over(had: u16, amount: u16) -> u16 {
    let used: u16 = if amount == 0 {
        1
    } else {
        amount
    };
    if had >= used {
        (had - used) as u16
    } else {
        0
    }
}

/// The items of a container after some of a stack was used.
pub open spec fn items_after_use(items: Seq<ContainerItem>, serial: u32, left: u16) -> Seq<
    ContainerItem,
> {
    if left == 0 {
        minus(items, set![serial])
    } else {
        let i = first_index(items, serial);
        items.update(i, ContainerItem { amount: left, ..items[i] })
    }
}

/// What is told of a stack of which some was used.
pub open spec fn use_change(item: ContainerItem, left: u16) -> ContainerContentChange {
    if left == 0 {
        ContainerContentChange::ItemRemoved { item_serial: item.serial }
    } else {
        ContainerContentChange::ItemUpdated {
            item_serial: item.serial,
            graphic: item.graphic,
            amount: left,
            x: item.x,
            y: item.y,
            color: item.color,
        }
    }
}

/// Law: to use some of a stack keeps true where the storage places its items; a stack
/// that is used up is placed nowhere, any other where it was.
pub proof fn use_keeps_index(
    m: Map<u32, ContainerView>,
    places: Map<u32, u32>,
    serial: u32,
    left: u16,
)
    requires
        index_true(m, places),
        places.contains_key(serial),
    ensures
        ({
            let cs = places[serial];
            let after = m.insert(
                cs,
                ContainerView { items: items_after_use(m[cs].items, serial, left), ..m[cs] },
            );
            if left == 0 {
                index_true(after, places.remove(serial)) && !held_somewhere(after, serial)
            } else {
                index_true(after, places)
            }
        }),
{
    let cs = places[serial];
    assert(entry_true(m, places, serial, cs));
    if left == 0 {
        removal_keeps_index(m, places, serial);
    } else {
        let items = m[cs].items;
        let used = items_after_use(items, serial, left);
        let after = m.insert(cs, ContainerView { items: used, ..m[cs] });
        lemma_has_first(items, serial);
        assert forall|s: u32| has_serial(used, s) <==> has_serial(items, s) by {
            if has_serial(used, s) {
                let i = choose|i: int| 0 <= i < used.len() && (#[trigger] used[i]).serial == s;
                assert(items[i].serial == s);
            }
            if has_serial(items, s) {
                let i = choose|i: int| 0 <= i < items.len() && (#[trigger] items[i]).serial == s;
                assert(used[i].serial == s);
            }
        }
        assert forall|s: u32, c: u32| #[trigger] entry_true(after, places, s, c) by {
            assert(entry_true(m, places, s, c));
            assert(has_serial(used, s) <==> has_serial(items, s));
        }
    }
}

impl<
    'a,
    E: Entity,
    S: EntityStore<E>,
    D: StaticDataProvider,
    C: ZoneContainers,
    P: ZoneItemProps,
> ZoneAccess<'a, E, S, D, C, P> {
    /// The stack of an item, where its container is known and holds it.
    pub open spec fn stack_of(&self, serial: u32) -> Option<ContainerItem> {
        let places = self.here().containers.places();
        let stored = self.here().containers.stored();
        if places.contains_key(serial) && stored.contains_key(places[serial]) && has_serial(
            stored[places[serial]].items,
            serial,
        ) {
            let items = stored[places[serial]].items;
            Some(items[first_index(items, serial)])
        } else {
            None
        }
    }

    /// What becomes of the zone and of what is told when some of a stack is used. A
    /// stack of which nothing is left has no place any more.
    pub open spec fn used_up(&self, after: &Self, serial: u32, item: ContainerItem, left: u16) -> bool {
        let cs = self.here().containers.places()[serial];
        let c = self.here().containers.stored()[cs];
        &&& after.here() == (Zone { containers: after.here().containers, ..self.here() })
        &&& after.here().containers.places() == if left == 0 {
            self.here().containers.places().remove(serial)
        } else {
            self.here().containers.places()
        }
        &&& after.here().containers.keeps() == self.here().containers.keeps()
        &&& after.here().containers.indexes() == self.here().containers.indexes()
        &&& after.here().containers.stored() == self.here().containers.stored().insert(
            cs,
            ContainerView { items: items_after_use(c.items, serial, left), ..c },
        )
        &&& self.told_of_change(after, cs, use_change(item, left))
    }

    /// Whether one event more is told, of a change in a container, at the place where
    /// it is or at the corner of the map if that is not known.
    pub open spec fn told_of_change(
        &self,
        after: &Self,
        cs: u32,
        change: ContainerContentChange,
    ) -> bool {
        if self.out().publishing {
            &&& after.out().events.len() == self.out().events.len() + 1
            &&& after.out() == (OutletView { events: after.out().events, ..self.out() })
            &&& after.out().events.drop_last() == self.out().events
            &&& after.out().events.last() matches WorldEvent::ContainerContentsUpdated {
                map_id,
                container_serial,
                x,
                y,
                changes,
            }
            &&& map_id == self.here().map_id
            &&& container_serial == cs
            &&& changes@ == seq![change]
            &&& (lies_at(after.here(), cs, MAX_HOPS as nat, Some((x, y))) || (lies_at(
                after.here(),
                cs,
                MAX_HOPS as nat,
                None,
            ) && x == 0 && y == 0))
        } else {
            after.out() == self.out()
        }
    }

    /// What becomes of an attempt to use some of a stack.
    pub open spec fn item_used(
        &self,
        after: &Self,
        item_serial: u32,
        amount: u16,
        expected_graphic: Option<u16>,
        r: Option<(u16, u16)>,
    ) -> bool {
        match self.stack_of(item_serial) {
            Some(item) if expected_graphic is None || expected_graphic == Some(item.graphic) => {
                let left = left_over(item.amount, amount);
                &&& r == Some((left, item.graphic))
                &&& self.used_up(after, item_serial, item, left)
            },
            _ => r is None && self.untouched(after),
        }
    }

    /// Uses some of a stack in a container. Returns how much is left, and the
    /// graphic; `None` if there is no such stack, or it is not of the graphic that was
    /// expected.
    pub fn consume_item(
        &mut self,
        item_serial: u32,
        amount: u16,
        expected_graphic: Option<u16>,
    ) -> (r: Option<(u16, u16)>)
        requires
            old(self).wf(),
        ensures
            final(self).wf(),
            *final(final(self).zone) == *final(old(self).zone),
            *final(final(self).outlet) == *final(old(self).outlet),
            old(self).item_used(final(self), item_serial, amount, expected_graphic, r),
    {
        let ghost before = *self.zone;
        let cs: u32 = match self.zone.containers.find_container_of_item(item_serial) {
            Some(c) => c,
            None => {
                return None;
            },
        };
        let item: ContainerItem = match self.zone.containers.get(cs) {
            Some(info) => match info.find_item(item_serial) {
                Some(i) => *i,
                None => {
                    return None;
                },
            },
            None => {
                return None;
            },
        };
        proof {
            let items = before.containers.stored()[cs].items;
            lemma_has_first(items, item_serial);
            assert(item.serial == item_serial);
        }
        if let Some(g) = expected_graphic {
            if item.graphic != g {
                return None;
            }
        }
        let used: u16 = if amount == 0 {
            1
        } else {
            amount
        };
        let left: u16 = if item.amount >= used {
            item.amount - used
        } else {
            0
        };
        let change: ContainerContentChange;
        if left == 0 {
            self.zone.containers.remove_item_from(cs, item_serial);
            change = ContainerContentChange::ItemRemoved { item_serial };
        } else {
            if let Some(info) = self.zone.containers.get_mut(cs) {
                if let Some(i) = info.find_item_mut(item_serial) {
                    i.amount = left;
                }
            }
            change = ContainerContentChange::ItemUpdated {
                item_serial,
                graphic: item.graphic,
                amount: left,
                x: item.x,
                y: item.y,
                color: item.color,
            };
        }
        proof {
            assert forall|id: u32| #[trigger] self.zone.placed(id) by {
                assert(before.placed(id));
            }
        }
        self.emit_container_content_change(cs, change);
        Some((left, item.graphic))
    }

    /// Tells of a change in a container.
    fn emit_container_content_change(&mut self, cs: u32, change: ContainerContentChange)
        requires
            old(self).wf(),
        ensures
            final(self).wf(),
            *final(final(self).zone) == *final(old(self).zone),
            *final(final(self).outlet) == *final(old(self).outlet),
            final(self).here() == old(self).here(),
            old(self).told_of_change(final(self), cs, change),
    {
        if !self.outlet.publishing {
            return;
        }
        let (x, y) = match container_place(&*self.zone, cs, MAX_HOPS) {
            Some(p) => p,
            None => (0, 0),
        };
        let mut changes: Vec<ContainerContentChange> = Vec::new();
        changes.push(change);
        let map_id: u8 = self.zone.map_id;
        let ghost before = self.outlet.events@;
        self.outlet.tell(
            WorldEvent::ContainerContentsUpdated { map_id, container_serial: cs, x, y, changes },
        );
        assert(changes@ =~= seq![change]);
        assert(self.outlet.events@.drop_last() =~= before);
    }
}

/// The place of an entity, the corner of the map if it is not there.
pub open spec fn place_of<
    E: Entity,
    S: EntityStore<E>,
    D: StaticDataProvider,
    C: ZoneContainers,
    P: ZoneItemProps,
>(zone: Zone<E, S, D, C, P>, serial: u32) -> (u16, u16) {
    if zone.entities().contains_key(serial) {
        (zone.entities()[serial].state().pos.x, zone.entities()[serial].state().pos.y)
    } else {
        (0, 0)
    }
}

impl<
    'a,
    E: Entity,
    S: EntityStore<E>,
    D: StaticDataProvider,
    C: ZoneContainers,
    P: ZoneItemProps,
> ZoneAccess<'a, E, S, D, C, P> {
    /// Lets a sound be heard.
    pub fn play_sound(
        &mut self,
        sound_id: u16,
        x: u16,
        y: u16,
        z: i16,
    )
        requires
            old(self).wf(),
        ensures
            final(self).wf(),
            *final(final(self).zone) == *final(old(self).zone),
            *final(final(self).outlet) == *final(old(self).outlet),
            final(self).here() == old(self).here(),
            final(self).out() == old(self).out().told(
                WorldEvent::SoundPlayed {
                    map_id: old(self).here().map_id,
                    sound_id,
                    x,
                    y,
                    z,
                },
            ),
    {
        let map_id: u8 = self.zone.map_id;
        self.outlet.tell(
            WorldEvent::SoundPlayed {
                map_id,
                sound_id,
                x,
                y,
                z,
            },
        );
    }

    /// Lets an effect be seen.
    pub fn play_effect(
        &mut self,
        direction_type: u8,
        source_serial: u32,
        target_serial: u32,
        graphic: u16,
        x: u16,
        y: u16,
        z: i8,
        target_x: u16,
        target_y: u16,
        target_z: i8,
        speed: u8,
        duration: u8,
        fixed_direction: bool,
        explode: bool,
    )
        requires
            old(self).wf(),
        ensures
            final(self).wf(),
            *final(final(self).zone) == *final(old(self).zone),
            *final(final(self).outlet) == *final(old(self).outlet),
            final(self).here() == old(self).here(),
            final(self).out() == old(self).out().told(
                WorldEvent::EffectPlayed {
                    map_id: old(self).here().map_id,
                    direction_type,
                    source_serial,
                    target_serial,
                    graphic,
                    x,
                    y,
                    z,
                    target_x,
                    target_y,
                    target_z,
                    speed,
                    duration,
                    fixed_direction,
                    explode,
                },
            ),
    {
        let map_id: u8 = self.zone.map_id;
        self.outlet.tell(
            WorldEvent::EffectPlayed {
                map_id,
                direction_type,
                source_serial,
                target_serial,
                graphic,
                x,
                y,
                z,
                target_x,
                target_y,
                target_z,
                speed,
                duration,
                fixed_direction,
                explode,
            },
        );
    }

    /// Moves the body of a mobile.
    pub fn animate(
        &mut self,
        serial: u32,
        action: u16,
        frame_count: u8,
        repeat_count: u16,
        reverse: bool,
        repeat: bool,
        frame_delay: u8,
        x: u16,
        y: u16,
    )
        requires
            old(self).wf(),
        ensures
            final(self).wf(),
            *final(final(self).zone) == *final(old(self).zone),
            *final(final(self).outlet) == *final(old(self).outlet),
            final(self).here() == old(self).here(),
            final(self).out() == old(self).out().told(
                WorldEvent::AnimationPlayed {
                    map_id: old(self).here().map_id,
                    serial,
                    action,
                    frame_count,
                    repeat_count,
                    reverse,
                    repeat,
                    frame_delay,
                    x,
                    y,
                },
            ),
    {
        let map_id: u8 = self.zone.map_id;
        self.outlet.tell(
            WorldEvent::AnimationPlayed {
                map_id,
                serial,
                action,
                frame_count,
                repeat_count,
                reverse,
                repeat,
                frame_delay,
                x,
                y,
            },
        );
    }

    /// Lets an entity speak.
    pub fn say(
        &mut self,
        serial: u32,
        graphic: u16,
        speech_type: u8,
        color: u16,
        font: u16,
        name: String,
        message: String,
        x: u16,
        y: u16,
    )
        requires
            old(self).wf(),
        ensures
            final(self).wf(),
            *final(final(self).zone) == *final(old(self).zone),
            *final(final(self).outlet) == *final(old(self).outlet),
            final(self).here() == old(self).here(),
            final(self).out() == old(self).out().told(
                WorldEvent::Speech {
                    map_id: old(self).here().map_id,
                    serial,
                    graphic,
                    speech_type,
                    color,
                    font,
                    name,
                    message,
                    x,
                    y,
                },
            ),
    {
        let map_id: u8 = self.zone.map_id;
        self.outlet.tell(
            WorldEvent::Speech {
                map_id,
                serial,
                graphic,
                speech_type,
                color,
                font,
                name,
                message,
                x,
                y,
            },
        );
    }

    /// Shows one player a gump, at the place of the entity that it comes from.
    pub fn send_targeted_gump(
        &mut self,
        target_player: u32,
        source_serial: u32,
        gump_id: u32,
        gump_x: u32,
        gump_y: u32,
        layout: String,
        text_lines: Vec<String>,
        blocking: bool,
    )
        requires
            old(self).wf(),
        ensures
            final(self).wf(),
            *final(final(self).zone) == *final(old(self).zone),
            *final(final(self).outlet) == *final(old(self).outlet),
            final(self).here() == old(self).here(),
            final(self).out() == old(self).out().told(
                WorldEvent::TargetedGump {
                    map_id: old(self).here().map_id,
                    target_player,
                    source_serial,
                    gump_id,
                    gump_x,
                    gump_y,
                    layout,
                    text_lines,
                    pos_x: place_of(old(self).here(), source_serial).0,
                    pos_y: place_of(old(self).here(), source_serial).1,
                    blocking,
                },
            ),
    {
        let (px, py) = match self.zone.get(source_serial) {
            Some(e) => {
                let pos = e.pos();
                (pos.x, pos.y)
            },
            None => (0, 0),
        };
        let map_id: u8 = self.zone.map_id;
        self.outlet.tell(
            WorldEvent::TargetedGump {
                map_id,
                target_player,
                source_serial,
                gump_id,
                gump_x,
                gump_y,
                layout,
                text_lines,
                pos_x: px,
                pos_y: py,
                blocking,
            },
        );
    }

    /// Sends one player a message.
    pub fn send_targeted_message(
        &mut self,
        target_player: u32,
        message: String,
        color: u16,
    )
        requires
            old(self).wf(),
        ensures
            final(self).wf(),
            *final(final(self).zone) == *final(old(self).zone),
            *final(final(self).outlet) == *final(old(self).outlet),
            final(self).here() == old(self).here(),
            final(self).out() == old(self).out().told(
                WorldEvent::TargetedMessage {
                    map_id: old(self).here().map_id,
                    target_player,
                    message,
                    color,
                    pos_x: 0,
                    pos_y: 0,
                },
            ),
    {
        let map_id: u8 = self.zone.map_id;
        self.outlet.tell(
            WorldEvent::TargetedMessage {
                map_id,
                target_player,
                message,
                color,
                pos_x: 0,
                pos_y: 0,
            },
        );
    }

    /// Closes a gump of one player.
    pub fn close_targeted_gump(
        &mut self,
        target_player: u32,
        gump_id: u32,
    )
        requires
            old(self).wf(),
        ensures
            final(self).wf(),
            *final(final(self).zone) == *final(old(self).zone),
            *final(final(self).outlet) == *final(old(self).outlet),
            final(self).here() == old(self).here(),
            final(self).out() == old(self).out().told(
                WorldEvent::TargetedCloseGump {
                    map_id: old(self).here().map_id,
                    target_player,
                    gump_id,
                    pos_x: 0,
                    pos_y: 0,
                },
            ),
    {
        let map_id: u8 = self.zone.map_id;
        self.outlet.tell(
            WorldEvent::TargetedCloseGump {
                map_id,
                target_player,
                gump_id,
                pos_x: 0,
                pos_y: 0,
            },
        );
    }

    /// Lets one player pick a target.
    pub fn send_target_cursor(
        &mut self,
        target_player: u32,
        cursor_id: u32,
        cursor_type: u8,
    )
        requires
            old(self).wf(),
        ensures
            final(self).wf(),
            *final(final(self).zone) == *final(old(self).zone),
            *final(final(self).outlet) == *final(old(self).outlet),
            final(self).here() == old(self).here(),
            final(self).out() == old(self).out().told(
                WorldEvent::TargetedTargetCursor {
                    map_id: old(self).here().map_id,
                    target_player,
                    cursor_id,
                    cursor_type,
                },
            ),
    {
        let map_id: u8 = self.zone.map_id;
        self.outlet.tell(
            WorldEvent::TargetedTargetCursor {
                map_id,
                target_player,
                cursor_id,
                cursor_type,
            },
        );
    }

    /// Asks that one player be moved to another map.
    pub fn send_cross_world_teleport(
        &mut self,
        target_player: u32,
        map_id: u8,
        x: u16,
        y: u16,
        z: i8,
    )
        requires
            old(self).wf(),
        ensures
            final(self).wf(),
            *final(final(self).zone) == *final(old(self).zone),
            *final(final(self).outlet) == *final(old(self).outlet),
            final(self).here() == old(self).here(),
            final(self).out() == old(self).out().told(
                WorldEvent::TargetedCrossWorldTeleport {
                    target_player,
                    map_id,
                    x,
                    y,
                    z,
                },
            ),
    {
        self.outlet.tell(
            WorldEvent::TargetedCrossWorldTeleport {
                target_player,
                map_id,
                x,
                y,
                z,
            },
        );
    }

    /// The properties of an item.
    pub fn get_item_props_any(&self, serial: u32) -> (r: Option<&P::Value>)
        ensures
            r is Some <==> self.here().item_props.stored().contains_key(serial),
            r matches Some(v) ==> *v == self.here().item_props.stored()[serial],
    {
        self.zone.item_props.get(serial)
    }

    /// What becomes of properties that are set.
    pub open spec fn props_set(
        &self,
        after: &Self,
        serial: u32,
        props: Option<P::Value>,
    ) -> bool {
        &&& after.out() == self.out()
        &&& after.here() == (Zone {
            item_props: after.here().item_props,
            ..self.here()
        })
        &&& after.here().item_props.keeps() == self.here().item_props.keeps()
        &&& after.here().item_props.stored() == match props {
            Some(v) => if self.here().item_props.keeps() {
                self.here().item_props.stored().insert(serial, v)
            } else {
                self.here().item_props.stored()
            },
            None => self.here().item_props.stored().remove(serial),
        }
    }

    /// Sets the properties of an item, or takes them away.
    pub fn set_item_props_any(&mut self, serial: u32, props: Option<P::Value>)
        requires
            old(self).wf(),
        ensures
            final(self).wf(),
            *final(final(self).zone) == *final(old(self).zone),
            *final(final(self).outlet) == *final(old(self).outlet),
            old(self).props_set(final(self), serial, props),
    {
        let ghost before = *self.zone;
        match props {
            Some(v) => {
                self.zone.item_props.insert(serial, v);
            },
            None => {
                let _old = self.zone.item_props.remove(serial);
            },
        }
        proof {
            assert forall|id: u32| #[trigger] self.zone.placed(id) by {
                assert(before.placed(id));
            }
        }
    }

    /// What becomes of a wish to hear.
    pub open spec fn now_hears(
        &self,
        after: &Self,
        entity_serial: u32,
        radius: u16,
    ) -> bool {
        &&& after.here() == self.here()
        &&& after.out() == if self.out().observing
            && self.here().entities().contains_key(entity_serial) {
            let pos = self.here().entities()[entity_serial].state().pos;
            OutletView {
                watchers: self.out().watchers.insert(
                    entity_serial,
                    ObserverView {
                        target: TargetView::Buffer(Seq::empty()),
                        view_rect: TileRect::view_spec(pos.x, pos.y, radius),
                        map_id: self.here().map_id,
                    },
                ),
                ..self.out()
            }
        } else {
            self.out()
        }
    }

    /// Lets the controller of an entity hear of what happens around it. What it heard
    /// of before and has not taken is dropped.
    pub fn subscribe_world_events(&mut self, entity_serial: u32, radius: u16)
        requires
            old(self).wf(),
        ensures
            final(self).wf(),
            *final(final(self).zone) == *final(old(self).zone),
            *final(final(self).outlet) == *final(old(self).outlet),
            old(self).now_hears(final(self), entity_serial, radius),
    {
        if !self.outlet.observing {
            return;
        }
        let ghost before = *self.outlet;
        if let Some(e) = self.zone.get(entity_serial) {
            let pos = e.pos();
            let map_id: u8 = self.zone.map_id;
            let rect = TileRect::from_view(pos.x, pos.y, radius);
            self.outlet.observers.subscribe_controller(entity_serial, map_id, rect);
            proof {
                assert forall|id: u32| #[trigger]
                    self.outlet.observers.is_controller(id) implies self.outlet.observers@[id].view_rect.proper() by {
                    if id != entity_serial {
                        assert(before.observers.is_controller(id));
                    }
                }
            }
        }
    }

    /// What becomes of a wish to hear no more.
    pub open spec fn hears_no_more(
        &self,
        after: &Self,
        entity_serial: u32,
    ) -> bool {
        &&& after.here() == self.here()
        &&& after.out() == if self.out().observing && self.out().watches(
            entity_serial,
        ) {
            OutletView {
                watchers: self.out().watchers.remove(entity_serial),
                ..self.out()
            }
        } else {
            self.out()
        }
    }

    /// Lets the controller of an entity hear no more.
    pub fn unsubscribe_world_events(&mut self, entity_serial: u32)
        requires
            old(self).wf(),
        ensures
            final(self).wf(),
            *final(final(self).zone) == *final(old(self).zone),
            *final(final(self).outlet) == *final(old(self).outlet),
            old(self).hears_no_more(final(self), entity_serial),
    {
        if !self.outlet.observing {
            return;
        }
        let ghost before = *self.outlet;
        self.outlet.observers.unsubscribe_controller(entity_serial);
        proof {
            assert forall|id: u32| #[trigger]
                self.outlet.observers.is_controller(id) implies self.outlet.observers@[id].view_rect.proper() by {
                assert(before.observers.is_controller(id));
            }
        }
    }
}

} // verus!

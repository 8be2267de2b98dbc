//! Objects that were seen, remembered per world beyond the view.
//!
//! The shapes of remembered multi-objects and items take part in movement even
//! when they are out of sight. Each serial is remembered in one world at a time.

use std::collections::HashMap;
use std::sync::Arc;

use vstd::prelude::*;

use super::multi_def::{
    bounding_box, visible, visible_offsets, visible_parts, MultiDef, MultiExtent, PartEntry,
};
use super::multi_spatial::SpatialIndex;
use super::shape_provider::ShapeProvider;
use super::tile_rect::TileRect;
use crate::collections::{map_get_mut, map_keys, share};
use crate::coords::Pos3D;
use crate::diorama::staleness::{unconfirmed, StalenessTracker, DEFAULT_THRESHOLD_NANOS};
use crate::time::{Duration, Moment};
use crate::vessel::entity::{Entity, EntityState};
use crate::vessel::static_data::{MultiPart, StaticDataProvider};
use crate::vessel::tile_shape::TileShape;

verus! {

broadcast use vstd::std_specs::hash::group_hash_axioms;

/// Which kinds of entities are remembered.
#[derive(Debug, Clone, Copy, PartialEq, Eq, Structural)]
pub enum CacheMode {
    /// Nothing is remembered.
    Disabled,
    /// Houses and boats.
    MultisOnly,
    /// Items, houses and boats, no mobiles.
    ItemsAndMultis,
    /// All.
    All,
}

impl Default for CacheMode {
    fn default() -> (m: CacheMode)
        ensures
            m == CacheMode::MultisOnly,
    {
        CacheMode::MultisOnly
    }
}

/// Which kinds of entities a sweep removes, and after how long.
#[derive(Debug, Clone, Copy, PartialEq, Eq, Structural)]
pub struct StalenessConfig {
    pub items: bool,
    pub multis: bool,
    pub mobiles: bool,
    pub threshold: Duration,
}

impl Default for StalenessConfig {
    fn default() -> (c: StalenessConfig)
        ensures
            c == (StalenessConfig {
                items: false,
                multis: true,
                mobiles: false,
                threshold: Duration { nanos: DEFAULT_THRESHOLD_NANOS },
            }),
    {
        StalenessConfig {
            items: false,
            multis: true,
            mobiles: false,
            threshold: Duration { nanos: DEFAULT_THRESHOLD_NANOS },
        }
    }
}

impl StalenessConfig {
    /// Whether a sweep removes an entity of this kind.
    pub open spec fn sweeps(self, e: EntityState) -> bool {
        if e.mobile {
            self.mobiles
        } else if e.multi {
            self.multis
        } else {
            self.items
        }
    }
}

/// What is remembered of one world.
pub struct WorldStore<E: Entity, S: SpatialIndex> {
    pub entities: HashMap<u32, E>,
    /// Rectangles of the entities that have shapes.
    pub spatial: S,
    /// Rectangles of multi-objects.
    pub multi_bbox: HashMap<u32, TileRect>,
}

impl<E: Entity, S: SpatialIndex> WorldStore<E, S> {
    pub open spec fn wf(&self) -> bool {
        &&& self.spatial.wf()
        &&& forall|s: u32| #[trigger] self.spatial.knows(s) ==> self.entities@.contains_key(s)
        &&& forall|s: u32| #[trigger]
            self.multi_bbox@.contains_key(s) ==> self.entities@.contains_key(s)
    }

    fn new() -> (w: Self)
        ensures
            w.wf(),
            w.entities@ == Map::<u32, E>::empty(),
            w.multi_bbox@ == Map::<u32, TileRect>::empty(),
            forall|s: u32| !#[trigger] w.spatial.knows(s),
    {
        WorldStore { entities: HashMap::new(), spatial: S::empty(), multi_bbox: HashMap::new() }
    }
}

/// A coordinate moved by an offset, held on the map.
pub open spec fn shifted(c: u16, d: i16) -> u16 {
    if c + d < 0 {
        0
    } else if c + d > u16::MAX {
        u16::MAX
    } else {
        (c + d) as u16
    }
}

/// The rectangle that a multi-object at `(x, y)` spans.
pub open spec fn bbox_of(x: u16, y: u16, e: MultiExtent) -> TileRect {
    TileRect {
        x_min: shifted(x, e.x_min),
        y_min: shifted(y, e.y_min),
        x_max: shifted(x, e.x_max),
        y_max: shifted(y, e.y_max),
    }
}

/// The least rectangle around both.
pub open spec fn hull(a: TileRect, b: TileRect) -> TileRect {
    TileRect {
        x_min: if a.x_min <= b.x_min {
            a.x_min
        } else {
            b.x_min
        },
        y_min: if a.y_min <= b.y_min {
            a.y_min
        } else {
            b.y_min
        },
        x_max: if a.x_max >= b.x_max {
            a.x_max
        } else {
            b.x_max
        },
        y_max: if a.y_max >= b.y_max {
            a.y_max
        } else {
            b.y_max
        },
    }
}

pub(crate) fn shift(c: u16, d: i16) -> (r: u16)
    ensures
        r == shifted(c, d),
{
    let t: i32 = c as i32 + d as i32;
    if t < 0 {
        0
    } else if t > 0xFFFF {
        0xFFFF
    } else {
        t as u16
    }
}

fn compute_bbox(x: u16, y: u16, extent: MultiExtent) -> (r: TileRect)
    ensures
        r == bbox_of(x, y, extent),
{
    TileRect {
        x_min: shift(x, extent.x_min),
        y_min: shift(y, extent.y_min),
        x_max: shift(x, extent.x_max),
        y_max: shift(y, extent.y_max),
    }
}

fn join_rects(a: TileRect, b: TileRect) -> (r: TileRect)
    ensures
        r == hull(a, b),
{
    TileRect {
        x_min: if a.x_min <= b.x_min {
            a.x_min
        } else {
            b.x_min
        },
        y_min: if a.y_min <= b.y_min {
            a.y_min
        } else {
            b.y_min
        },
        x_max: if a.x_max >= b.x_max {
            a.x_max
        } else {
            b.x_max
        },
        y_max: if a.y_max >= b.y_max {
            a.y_max
        } else {
            b.y_max
        },
    }
}

/// The extent of a list of parts.
pub open spec fn extent_of(parts: Seq<MultiPart>) -> MultiExtent {
    match bounding_box(parts) {
        Some(e) => e,
        None => MultiExtent { x_min: 0, x_max: 0, y_min: 0, y_max: 0 },
    }
}

/// Whether a definition is that of a list of parts.
pub open spec fn is_def(d: MultiDef, parts: Seq<MultiPart>) -> bool {
    &&& forall|dx: i16, dy: i16| #[trigger] d.parts(dx, dy) == visible_parts(parts, dx, dy)
    &&& d.extent == extent_of(parts)
    &&& d.total() == visible(parts).len()
    &&& d.tiles@.dom().len() == visible_offsets(parts).len()
    &&& d.total() <= usize::MAX
}

/// A height raised by the offset of a part, within the range of heights.
pub open spec fn part_height(z: i8, dz: i16) -> i8 {
    let d: int = if dz < i8::MIN {
        i8::MIN as int
    } else if dz > i8::MAX {
        i8::MAX as int
    } else {
        dz as int
    };
    if z + d < i8::MIN {
        i8::MIN
    } else if z + d > i8::MAX {
        i8::MAX
    } else {
        (z + d) as i8
    }
}

pub(crate) fn raise(z: i8, dz: i16) -> (r: i8)
    ensures
        r == part_height(z, dz),
{
    let d: i16 = if dz < -128 {
        -128
    } else if dz > 127 {
        127
    } else {
        dz
    };
    let t: i16 = z as i16 + d;
    if t < -128 {
        -128
    } else if t > 127 {
        127
    } else {
        t as i8
    }
}

/// The shapes of parts at height `z`, those of known graphics, in order.
pub open spec fn part_shapes<D: StaticDataProvider>(
    sd: &D,
    z: i8,
    parts: Seq<PartEntry>,
) -> Seq<TileShape>
    decreases parts.len(),
{
    if parts.len() == 0 {
        Seq::empty()
    } else {
        let head = part_shapes(sd, z, parts.drop_last());
        match sd.static_form(part_height(z, parts.last().z), parts.last().tile_id) {
            Some(s) => head.push(s),
            None => head,
        }
    }
}

/// Offset of a tile from an origin, in 16 bits.
pub open spec fn offset(c: u16, origin: u16) -> i16 {
    ((c as i32 - origin as i32) as i32) as i16
}

/// The shapes of a definition at `pos` on tile `(x, y)`.
pub open spec fn def_shapes<D: StaticDataProvider>(
    sd: &D,
    pos: Pos3D,
    d: MultiDef,
    x: u16,
    y: u16,
) -> Seq<TileShape> {
    let dx = offset(x, pos.x);
    let dy = offset(y, pos.y);
    if d.extent.holds(dx as int, dy as int) {
        part_shapes(sd, pos.z, d.parts(dx, dy))
    } else {
        Seq::empty()
    }
}

/// Whether a definition at `pos` has parts on tile `(x, y)`.
pub open spec fn def_occupies(pos: Pos3D, d: MultiDef, x: u16, y: u16) -> bool {
    let dx = offset(x, pos.x);
    let dy = offset(y, pos.y);
    d.extent.holds(dx as int, dy as int) && d.parts(dx, dy).len() > 0
}

fn has_parts_on(pos: Pos3D, def: &MultiDef, x: u16, y: u16) -> (b: bool)
    ensures
        b == def_occupies(pos, *def, x, y),
{
    let dx: i16 = (x as i32 - pos.x as i32) as i16;
    let dy: i16 = (y as i32 - pos.y as i32) as i16;
    def.contains(dx, dy) && def.parts_at(dx, dy).len() > 0
}

/// Remembered entities with their shapes.
pub struct EntityRegistry<E: Entity, S: SpatialIndex, D: StaticDataProvider> {
    pub current_world: u8,
    pub cache_mode: CacheMode,
    pub staleness_config: StalenessConfig,
    pub static_data: Option<Arc<D>>,
    pub stores: HashMap<u8, WorldStore<E, S>>,
    /// Serial to the world in which it is remembered.
    pub serial_index: HashMap<u32, u8>,
    /// Graphic to the definition of its multi-object.
    pub multi_defs: HashMap<u16, Arc<MultiDef>>,
    /// Serial to the parts that a player designed.
    pub custom_defs: HashMap<u32, Arc<MultiDef>>,
    pub staleness: StalenessTracker,
}

impl<E: Entity, S: SpatialIndex, D: StaticDataProvider> EntityRegistry<E, S, D> {
    /// Whether the index is right about a serial and a world.
    pub open spec fn homed(&self, s: u32, w: u8) -> bool {
        (self.serial_index@.contains_key(s) && self.serial_index@[s] == w) <==> (
        self.stores@.contains_key(w) && self.stores@[w].entities@.contains_key(s))
    }

    /// Each serial is remembered in one world, by the index; the stores are in
    /// order, and the definitions are those of their graphics.
    pub open spec fn wf(&self) -> bool {
        &&& forall|w: u8| #[trigger] self.stores@.contains_key(w) ==> self.stores@[w].wf()
        &&& forall|s: u32, w: u8| #[trigger] self.homed(s, w)
        &&& self.static_data matches Some(sd) ==> sd.wf()
        &&& forall|g: u16| #[trigger]
            self.multi_defs@.contains_key(g) ==> self.static_data is Some && is_def(
                *self.multi_defs@[g],
                (self.static_data->0).parts_of(g),
            )
    }

    /// What is remembered of a serial in a world.
    pub open spec fn cached(&self, w: u8, s: u32) -> Option<EntityState> {
        if self.stores@.contains_key(w) && self.stores@[w].entities@.contains_key(s) {
            Some(self.stores@[w].entities@[s].state())
        } else {
            None
        }
    }

    /// Whether the serial has shapes in a world.
    pub open spec fn shaped(&self, w: u8, s: u32) -> bool {
        self.stores@.contains_key(w) && self.stores@[w].spatial.knows(s)
    }

    /// Whether a query for the rectangle finds the serial in a world.
    pub open spec fn found_in(&self, w: u8, s: u32, rect: TileRect) -> bool {
        self.stores@.contains_key(w) && self.stores@[w].spatial.finds_in(s, rect)
    }

    /// Whether a query at a tile finds the serial in a world.
    pub open spec fn found_at(&self, w: u8, s: u32, x: u16, y: u16) -> bool {
        self.stores@.contains_key(w) && self.stores@[w].spatial.finds(s, x, y)
    }

    /// The rectangle of a multi-object in a world.
    pub open spec fn bbox(&self, w: u8, s: u32) -> Option<TileRect> {
        if self.stores@.contains_key(w) && self.stores@[w].multi_bbox@.contains_key(s) {
            Some(self.stores@[w].multi_bbox@[s])
        } else {
            None
        }
    }

    /// A registry that remembers nothing yet.
    pub fn new(static_data: Option<Arc<D>>, world: u8, cache_mode: CacheMode) -> (r: Self)
        requires
            static_data matches Some(sd) ==> sd.wf(),
        ensures
            r.wf(),
            r.current_world == world,
            r.cache_mode == cache_mode,
            r.static_data == static_data,
            forall|w: u8, s: u32| (#[trigger] r.cached(w, s)) is None,
            r.stores@ == Map::<u8, WorldStore<E, S>>::empty(),
            r.serial_index@ == Map::<u32, u8>::empty(),
            r.multi_defs@ == Map::<u16, Arc<MultiDef>>::empty(),
            r.custom_defs@ == Map::<u32, Arc<MultiDef>>::empty(),
            r.staleness_config == (StalenessConfig {
                items: false,
                multis: true,
                mobiles: false,
                threshold: Duration { nanos: DEFAULT_THRESHOLD_NANOS },
            }),
            !r.staleness.armed,
            r.staleness.confirmed@ == Set::<u32>::empty(),
            r.staleness.threshold == r.staleness_config.threshold,
    {
        EntityRegistry {
            current_world: world,
            cache_mode,
            staleness_config: StalenessConfig::default(),
            static_data,
            stores: HashMap::new(),
            serial_index: HashMap::new(),
            multi_defs: HashMap::new(),
            custom_defs: HashMap::new(),
            staleness: StalenessTracker::new(Duration { nanos: DEFAULT_THRESHOLD_NANOS }),
        }
    }

    pub fn cache_mode(&self) -> (m: CacheMode)
        ensures
            m == self.cache_mode,
    {
        self.cache_mode
    }

    pub fn set_cache_mode(&mut self, mode: CacheMode)
        ensures
            *final(self) == (EntityRegistry { cache_mode: mode, ..*old(self) }),
    {
        self.cache_mode = mode;
    }

    /// Sets what a sweep removes. Confirmations so far are dropped.
    pub fn set_staleness_config(&mut self, config: StalenessConfig)
        ensures
            final(self).staleness_config == config,
            !final(self).staleness.armed,
            final(self).staleness.threshold == config.threshold,
            final(self).staleness.confirmed@ == Set::<u32>::empty(),
            *final(self) == (EntityRegistry {
                staleness_config: config,
                staleness: final(self).staleness,
                ..*old(self)
            }),
    {
        self.staleness = StalenessTracker::new(config.threshold);
        self.staleness_config = config;
    }

    pub fn static_data(&self) -> (r: Option<&Arc<D>>)
        ensures
            r is Some <==> self.static_data is Some,
            r matches Some(d) ==> *d == self.static_data->0,
    {
        self.static_data.as_ref()
    }

    pub fn current_world(&self) -> (w: u8)
        ensures
            w == self.current_world,
    {
        self.current_world
    }

    /// What new map data leaves: all entities, without definitions and shapes.
    pub open spec fn remapped(before: Self, after: Self, sd: Option<Arc<D>>) -> bool {
        &&& after.static_data == sd
        &&& after.multi_defs@ == Map::<u16, Arc<MultiDef>>::empty()
        &&& after.custom_defs@ == Map::<u32, Arc<MultiDef>>::empty()
        &&& after.current_world == before.current_world
        &&& after.cache_mode == before.cache_mode
        &&& after.serial_index == before.serial_index
        &&& after.staleness_config == before.staleness_config
        &&& after.staleness == before.staleness
        &&& forall|w: u8, s: u32| #[trigger] after.cached(w, s) == before.cached(w, s)
        &&& forall|w: u8, s: u32| !#[trigger] after.shaped(w, s)
        &&& forall|w: u8, s: u32| (#[trigger] after.bbox(w, s)) is None
        &&& forall|w: u8, s: u32, x: u16, y: u16| !#[trigger] after.found_at(w, s, x, y)
        &&& forall|w: u8, s: u32, r: TileRect| !#[trigger] after.found_in(w, s, r)
    }

    /// Replaces the map data. Definitions and shapes are dropped; entities stay
    /// and get their shapes when they are inserted again.
    pub fn set_static_data(&mut self, sd: Option<Arc<D>>)
        requires
            old(self).wf(),
            sd matches Some(d) ==> d.wf(),
        ensures
            final(self).wf(),
            EntityRegistry::remapped(*old(self), *final(self), sd),
    {
        let ghost before = *self;
        self.static_data = sd;
        self.multi_defs.clear();
        self.custom_defs.clear();
        let worlds = map_keys(&self.stores);
        let mut i: usize = 0;
        while i < worlds.len()
            invariant
                i <= worlds@.len(),
                worlds@.no_duplicates(),
                forall|w: u8| #[trigger] worlds@.contains(w) <==> before.stores@.contains_key(w),
                self.static_data == sd,
                self.multi_defs@ == Map::<u16, Arc<MultiDef>>::empty(),
                self.custom_defs@ == Map::<u32, Arc<MultiDef>>::empty(),
                self.current_world == before.current_world,
                self.cache_mode == before.cache_mode,
                self.serial_index == before.serial_index,
                self.staleness_config == before.staleness_config,
                self.staleness == before.staleness,
                before.wf(),
                self.stores@.dom() == before.stores@.dom(),
                forall|w: u8| #[trigger]
                    self.stores@.contains_key(w) ==> {
                        &&& self.stores@[w].wf()
                        &&& self.stores@[w].entities == before.stores@[w].entities
                    },
                forall|j: int|
                    0 <= j < i ==> {
                        let st = self.stores@[#[trigger] worlds@[j]];
                        &&& st.multi_bbox@ == Map::<u32, TileRect>::empty()
                        &&& forall|s: u32| !#[trigger] st.spatial.knows(s)
                    },
            decreases worlds@.len() - i,
        {
            let w: u8 = worlds[i];
            assert(worlds@.contains(w));
            let ghost mid = self.stores@;
            match map_get_mut(&mut self.stores, w) {
                Some(store) => {
                    store.spatial.clear();
                    store.multi_bbox.clear();
                },
                None => {},
            }
            proof {
                assert forall|j: int| 0 <= j < i + 1 implies {
                    let st = self.stores@[#[trigger] worlds@[j]];
                    &&& st.multi_bbox@ == Map::<u32, TileRect>::empty()
                    &&& forall|s: u32| !#[trigger] st.spatial.knows(s)
                } by {
                    if j < i {
                        assert(worlds@[j] != w);
                        assert(self.stores@[worlds@[j]] == mid[worlds@[j]]);
                    }
                }
                assert(self.stores@.dom() =~= before.stores@.dom());
            }
            i += 1;
        }
        proof {
            assert forall|s: u32, w: u8| #[trigger] self.homed(s, w) by {
                assert(before.homed(s, w));
            }
            assert forall|w: u8, s: u32| !#[trigger] self.shaped(w, s) by {
                if self.stores@.contains_key(w) {
                    assert(worlds@.contains(w));
                    let j = choose|j: int| 0 <= j < worlds@.len() && worlds@[j] == w;
                    assert(!self.stores@[worlds@[j]].spatial.knows(s));
                }
            }
            assert forall|w: u8, s: u32| (#[trigger] self.bbox(w, s)) is None by {
                if self.stores@.contains_key(w) {
                    assert(worlds@.contains(w));
                    let j = choose|j: int| 0 <= j < worlds@.len() && worlds@[j] == w;
                    assert(self.stores@[worlds@[j]].multi_bbox@ == Map::<u32, TileRect>::empty());
                }
            }
            assert forall|w: u8, s: u32, x: u16, y: u16| !#[trigger] self.found_at(w, s, x, y) by {
                if self.stores@.contains_key(w) {
                    self.stores@[w].spatial.lemma_found_is_known();
                    assert(!self.shaped(w, s));
                }
            }
            assert forall|w: u8, s: u32, r: TileRect| !#[trigger] self.found_in(w, s, r) by {
                if self.stores@.contains_key(w) {
                    self.stores@[w].spatial.lemma_found_is_known();
                    assert(!self.shaped(w, s));
                }
            }
        }
    }

    /// What a switch to another world leaves.
    pub open spec fn switched(before: Self, after: Self, world: u8) -> bool {
        if world == before.current_world {
            after == before
        } else {
            &&& after == (EntityRegistry {
                current_world: world,
                staleness: after.staleness,
                ..before
            })
            &&& EntityRegistry::<E, S, D>::rearmed(before.staleness, after.staleness)
        }
    }

    /// Whether confirmations are collected anew; only the moment from which is open.
    pub open spec fn rearmed(before: StalenessTracker, after: StalenessTracker) -> bool {
        &&& after == (StalenessTracker {
            armed: true,
            confirmed: after.confirmed,
            last_activity: after.last_activity,
            ..before
        })
        &&& after.confirmed@ == Set::<u32>::empty()
    }

    /// Whether an entity is confirmed where confirmations are collected; only the
    /// moment of that is open.
    pub open spec fn noted(before: StalenessTracker, after: StalenessTracker, s: u32) -> bool {
        if before.armed {
            &&& after == (StalenessTracker {
                confirmed: after.confirmed,
                last_activity: after.last_activity,
                ..before
            })
            &&& after.confirmed@ == before.confirmed@.insert(s)
        } else {
            after == before
        }
    }

    /// Whether confirmations are no longer collected.
    pub open spec fn rested(before: StalenessTracker, after: StalenessTracker) -> bool {
        &&& after == (StalenessTracker { armed: false, confirmed: after.confirmed, ..before })
        &&& after.confirmed@ == Set::<u32>::empty()
    }

    /// Switches to another world. What is remembered stays; confirmations are
    /// collected for what comes into play there.
    pub fn set_world(&mut self, world: u8)
        requires
            old(self).wf(),
        ensures
            final(self).wf(),
            final(self).current_world == world,
            EntityRegistry::switched(*old(self), *final(self), world),
    {
        if world == self.current_world {
            return;
        }
        self.current_world = world;
        self.staleness.arm();
        proof {
            assert forall|s: u32, w: u8| #[trigger] self.homed(s, w) by {
                assert(old(self).homed(s, w));
            }
        }
    }

    /// The definition of a multi-object's graphic, made on first use. `None`
    /// where there is no map data.
    pub fn resolve_multi_def(&mut self, graphic: u16) -> (r: Option<Arc<MultiDef>>)
        requires
            old(self).wf(),
        ensures
            final(self).wf(),
            r is Some <==> old(self).static_data is Some,
            r matches Some(d) ==> is_def(*d, (old(self).static_data->0).parts_of(graphic))
                && final(self).multi_defs@ == old(self).multi_defs@.insert(graphic, d),
            r is None ==> final(self).multi_defs@ == old(self).multi_defs@,
            old(self).multi_defs@.contains_key(graphic) ==> final(self).multi_defs@
                == old(self).multi_defs@,
            *final(self) == (EntityRegistry { multi_defs: final(self).multi_defs, ..*old(self) }),
    {
        let ghost before = *self;
        if let Some(def) = self.multi_defs.get(&graphic) {
            assert(before.multi_defs@.insert(graphic, *def) =~= before.multi_defs@);
            return Some(share(def));
        }
        let def = match &self.static_data {
            Some(sd) => Arc::new(MultiDef::from_parts(sd.multi_parts(graphic))),
            None => {
                return None;
            },
        };
        self.multi_defs.insert(graphic, share(&def));
        proof {
            assert forall|s: u32, w: u8| #[trigger] self.homed(s, w) by {
                assert(before.homed(s, w));
            }
        }
        Some(def)
    }

    /// Whether an entity gets shapes when it is inserted: items always, multi-objects
    /// where there is map data, mobiles never.
    pub open spec fn gets_shapes(&self, e: EntityState) -> bool {
        if e.multi {
            self.static_data is Some
        } else {
            !e.mobile
        }
    }

    /// The rectangle that an inserted entity gets.
    pub open spec fn rect_for(&self, e: EntityState) -> TileRect {
        if e.multi {
            bbox_of(
                e.pos.x,
                e.pos.y,
                extent_of((self.static_data->0).parts_of(e.graphic)),
            )
        } else {
            TileRect::point_spec(e.pos.x, e.pos.y)
        }
    }

    /// What inserting an entity leaves.
    pub open spec fn inserted(before: Self, after: Self, e: EntityState, world: u8) -> bool {
        if before.cache_mode is Disabled {
            after == before
        } else {
            &&& after.current_world == before.current_world
            &&& after.cache_mode == before.cache_mode
            &&& after.static_data == before.static_data
            &&& after.staleness_config == before.staleness_config
            &&& forall|w: u8, s: u32| #[trigger]
                after.cached(w, s) == if s == e.serial {
                    if w == world {
                        Some(e)
                    } else {
                        None
                    }
                } else {
                    before.cached(w, s)
                }
            &&& forall|w: u8, s: u32| #[trigger]
                after.shaped(w, s) <==> if s == e.serial {
                    w == world && before.gets_shapes(e)
                } else {
                    before.shaped(w, s)
                }
            &&& forall|w: u8, s: u32| #[trigger]
                after.bbox(w, s) == if s == e.serial {
                    if w == world && e.multi && before.gets_shapes(e) {
                        Some(before.rect_for(e))
                    } else {
                        None
                    }
                } else {
                    before.bbox(w, s)
                }
            &&& forall|w: u8, s: u32, r: TileRect| #[trigger]
                after.found_in(w, s, r) <==> if s == e.serial {
                    w == world && before.gets_shapes(e) && S::near_rect(before.rect_for(e), r)
                } else {
                    before.found_in(w, s, r)
                }
            &&& forall|w: u8, s: u32, x: u16, y: u16| #[trigger]
                after.found_at(w, s, x, y) <==> if s == e.serial {
                    w == world && before.gets_shapes(e) && S::near(before.rect_for(e), x, y)
                } else {
                    before.found_at(w, s, x, y)
                }
            &&& after.custom_defs@ == before.custom_defs@.remove(e.serial)
            &&& if e.multi && before.static_data is Some && !before.multi_defs@.contains_key(
                e.graphic,
            ) {
                &&& after.multi_defs@.contains_key(e.graphic)
                &&& is_def(
                    *after.multi_defs@[e.graphic],
                    (before.static_data->0).parts_of(e.graphic),
                )
                &&& after.multi_defs@ == before.multi_defs@.insert(
                    e.graphic,
                    after.multi_defs@[e.graphic],
                )
            } else {
                after.multi_defs@ == before.multi_defs@
            }
            &&& after.serial_index@ == before.serial_index@.insert(e.serial, world)
            &&& EntityRegistry::<E, S, D>::noted(before.staleness, after.staleness, e.serial)
        }
    }

    /// What forgetting an entity leaves.
    pub open spec fn forgotten(before: Self, after: Self, serial: u32) -> bool {
        &&& after.current_world == before.current_world
        &&& after.cache_mode == before.cache_mode
        &&& after.static_data == before.static_data
        &&& after.staleness_config == before.staleness_config
        &&& after.staleness == before.staleness
        &&& after.multi_defs == before.multi_defs
        &&& after.serial_index@ == before.serial_index@.remove(serial)
        &&& after.custom_defs@ == before.custom_defs@.remove(serial)
        &&& forall|w: u8, s: u32| #[trigger]
            after.cached(w, s) == if s == serial {
                None
            } else {
                before.cached(w, s)
            }
        &&& forall|w: u8, s: u32| #[trigger]
            after.shaped(w, s) <==> before.shaped(w, s) && s != serial
        &&& forall|w: u8, s: u32| #[trigger]
            after.bbox(w, s) == if s == serial {
                None
            } else {
                before.bbox(w, s)
            }
        &&& forall|w: u8, s: u32, r: TileRect| #[trigger]
            after.found_in(w, s, r) <==> before.found_in(w, s, r) && s != serial
        &&& forall|w: u8, s: u32, x: u16, y: u16| #[trigger]
            after.found_at(w, s, x, y) <==> before.found_at(w, s, x, y) && s != serial
    }

    /// Remembers an entity in a world, and nowhere else, unless nothing is to be
    /// remembered.
    pub fn insert(&mut self, entity: &E, world: u8)
        requires
            old(self).wf(),
        ensures
            final(self).wf(),
            final(self).current_world == old(self).current_world,
            final(self).cache_mode == old(self).cache_mode,
            final(self).static_data == old(self).static_data,
            EntityRegistry::inserted(*old(self), *final(self), entity.state(), world),
    {
        if self.cache_mode == CacheMode::Disabled {
            return;
        }
        let ghost before = *self;
        let serial: u32 = entity.serial();
        self.remove(serial);
        let ghost cleared = *self;
        let multi = entity.is_multi();
        let pos = entity.pos();
        let rect: Option<TileRect> = if multi {
            match self.resolve_multi_def(entity.graphic()) {
                Some(def) => Some(compute_bbox(pos.x, pos.y, def.extent)),
                None => None,
            }
        } else if !entity.is_mobile() {
            Some(TileRect::point(pos.x, pos.y))
        } else {
            None
        };
        let mut store: WorldStore<E, S> = match self.stores.remove(&world) {
            Some(st) => st,
            None => WorldStore::new(),
        };
        let ghost store0 = store;
        proof {
            assert(cleared.homed(serial, world));
            assert(cleared.cached(world, serial) is None);
            assert(!store0.entities@.contains_key(serial));
            assert(store0.wf());
            assert(!store0.spatial.knows(serial));
        }
        if let Some(r) = rect {
            store.spatial.insert(serial, r);
            if multi {
                store.multi_bbox.insert(serial, r);
            }
        }
        store.entities.insert(serial, entity.duplicate());
        let ghost store1 = store;
        self.stores.insert(world, store);
        self.serial_index.insert(serial, world);
        self.staleness.confirm(serial);
        proof {
            let e = entity.state();
            assert(self.serial_index@ =~= before.serial_index@.insert(serial, world));
            assert(store1.wf()) by {
                assert forall|s: u32| #[trigger] store1.spatial.knows(s) implies store1.entities@.contains_key(s) by {
                    if s != serial {
                        assert(store0.spatial.knows(s));
                    }
                }
                assert forall|s: u32| #[trigger] store1.multi_bbox@.contains_key(s) implies store1.entities@.contains_key(s) by {
                    if s != serial {
                        assert(store0.multi_bbox@.contains_key(s));
                    }
                }
            }
            assert forall|s: u32, w: u8| #[trigger] self.homed(s, w) by {
                assert(cleared.homed(s, w));
                if s == serial {
                    assert(cleared.cached(w, serial) is None);
                }
            }
            assert forall|w: u8, s: u32| #[trigger] self.cached(w, s) == if s == e.serial {
                if w == world {
                    Some(e)
                } else {
                    None
                }
            } else {
                before.cached(w, s)
            } by {
                assert(cleared.cached(w, s) == if s == serial {
                    None
                } else {
                    before.cached(w, s)
                });
            }
            assert forall|w: u8, s: u32| #[trigger] self.shaped(w, s) <==> if s == e.serial {
                w == world && before.gets_shapes(e)
            } else {
                before.shaped(w, s)
            } by {
                assert(cleared.shaped(w, s) <==> before.shaped(w, s) && s != serial);
                if w == world {
                    assert(store1.spatial.knows(s) <==> store0.spatial.knows(s) || (s == serial
                        && rect is Some));
                    assert(store0.spatial.knows(s) <==> cleared.shaped(w, s));
                }
            }
            assert forall|w: u8, s: u32, r: TileRect| #[trigger] self.found_in(w, s, r) <==> if s
                == e.serial {
                w == world && before.gets_shapes(e) && S::near_rect(before.rect_for(e), r)
            } else {
                before.found_in(w, s, r)
            } by {
                assert(cleared.found_in(w, s, r) <==> before.found_in(w, s, r) && s != serial);
                if w == world {
                    store0.spatial.lemma_found_is_known();
                    assert(store0.spatial.finds_in(s, r) <==> cleared.found_in(w, s, r));
                }
            }
            assert forall|w: u8, s: u32, x: u16, y: u16| #[trigger] self.found_at(w, s, x, y)
                <==> if s == e.serial {
                w == world && before.gets_shapes(e) && S::near(before.rect_for(e), x, y)
            } else {
                before.found_at(w, s, x, y)
            } by {
                assert(cleared.found_at(w, s, x, y) <==> before.found_at(w, s, x, y) && s
                    != serial);
                if w == world {
                    store0.spatial.lemma_found_is_known();
                    assert(store0.spatial.finds(s, x, y) <==> cleared.found_at(w, s, x, y));
                }
            }
            assert forall|w: u8, s: u32| #[trigger] self.bbox(w, s) == if s == e.serial {
                if w == world && e.multi && before.gets_shapes(e) {
                    Some(before.rect_for(e))
                } else {
                    None
                }
            } else {
                before.bbox(w, s)
            } by {
                assert(cleared.bbox(w, s) == if s == serial {
                    None
                } else {
                    before.bbox(w, s)
                });
            }
        }
    }

    /// Forgets an entity, in whatever world it is remembered.
    pub fn remove(&mut self, serial: u32)
        requires
            old(self).wf(),
        ensures
            final(self).wf(),
            EntityRegistry::forgotten(*old(self), *final(self), serial),
    {
        let ghost before = *self;
        let home: Option<u8> = match self.serial_index.get(&serial) {
            Some(w) => Some(*w),
            None => None,
        };
        self.serial_index.remove(&serial);
        self.custom_defs.remove(&serial);
        match home {
            Some(world) => {
                let taken = self.stores.remove(&world);
                if let Some(st) = taken {
                    let mut store = st;
                    let ghost store0 = store;
                    store.spatial.remove(serial);
                    store.multi_bbox.remove(&serial);
                    store.entities.remove(&serial);
                    let ghost store1 = store;
                    let empty = store.entities.len() == 0;
                    if !empty {
                        self.stores.insert(world, store);
                    }
                    proof {
                        assert(store0 == before.stores@[world]);
                        assert(store1.wf());
                        store1.spatial.lemma_found_is_known();
                        if empty {
                            assert(store1.entities@.dom() =~= Set::<u32>::empty());
                        }
                        assert forall|s: u32, w: u8| #[trigger] self.homed(s, w) by {
                            assert(before.homed(s, w));
                            if w == world && empty {
                                assert(!store1.entities@.contains_key(s));
                            }
                        }
                        assert forall|w: u8, s: u32| #[trigger] self.shaped(w, s)
                            <==> before.shaped(w, s) && s != serial by {
                            assert(before.homed(serial, w));
                            if w == world && empty {
                                assert(!store1.entities@.contains_key(s));
                            }
                        }
                        assert forall|w: u8, s: u32| #[trigger] self.bbox(w, s) == if s == serial {
                            None
                        } else {
                            before.bbox(w, s)
                        } by {
                            assert(before.homed(serial, w));
                            if w == world && empty {
                                assert(!store1.entities@.contains_key(s));
                            }
                        }
                        assert forall|w: u8, s: u32| #[trigger] self.cached(w, s) == if s == serial {
                            None
                        } else {
                            before.cached(w, s)
                        } by {
                            assert(before.homed(serial, w));
                            if w == world && empty {
                                assert(!store1.entities@.contains_key(s));
                            }
                        }
                        assert forall|w: u8, s: u32, x: u16, y: u16| #[trigger]
                            self.found_at(w, s, x, y) <==> before.found_at(w, s, x, y) && s
                                != serial by {
                            assert(before.homed(serial, w));
                            if w != world && before.stores@.contains_key(w) {
                                before.stores@[w].spatial.lemma_found_is_known();
                                assert(before.stores@[w].wf());
                                if before.found_at(w, serial, x, y) {
                                    assert(before.stores@[w].spatial.knows(serial));
                                }
                            }
                            if w == world {
                                assert(store1.spatial.finds(s, x, y) <==> store0.spatial.finds(
                                    s,
                                    x,
                                    y,
                                ) && s != serial);
                                if empty {
                                    assert(!store1.entities@.contains_key(s));
                                    if store1.spatial.finds(s, x, y) {
                                        assert(store1.spatial.knows(s));
                                    }
                                }
                            }
                        }
                        assert forall|w: u8, s: u32, r: TileRect| #[trigger] self.found_in(w, s, r)
                            <==> before.found_in(w, s, r) && s != serial by {
                            assert(before.homed(serial, w));
                            if w != world && before.stores@.contains_key(w) {
                                before.stores@[w].spatial.lemma_found_is_known();
                                assert(before.stores@[w].wf());
                                if before.found_in(w, serial, r) {
                                    assert(before.stores@[w].spatial.knows(serial));
                                }
                            }
                            if w == world {
                                assert(store1.spatial.finds_in(s, r) <==> store0.spatial.finds_in(
                                    s,
                                    r,
                                ) && s != serial);
                                if empty {
                                    assert(!store1.entities@.contains_key(s));
                                    if store1.spatial.finds_in(s, r) {
                                        assert(store1.spatial.knows(s));
                                    }
                                }
                            }
                        }
                    }
                } else {
                    proof {
                        assert(before.homed(serial, world));
                    }
                }
            },
            None => {
                proof {
                    assert(before.serial_index@.remove(serial) =~= before.serial_index@);
                    assert forall|s: u32, w: u8| #[trigger] self.homed(s, w) by {
                        assert(before.homed(s, w));
                    }
                    assert forall|w: u8| #[trigger] before.stores@.contains_key(w) implies {
                        &&& !before.stores@[w].spatial.knows(serial)
                        &&& !before.stores@[w].entities@.contains_key(serial)
                        &&& !before.stores@[w].multi_bbox@.contains_key(serial)
                    } by {
                        assert(before.homed(serial, w));
                        assert(before.stores@[w].wf());
                    }
                    assert forall|w: u8, s: u32, r: TileRect| #[trigger] self.found_in(w, s, r)
                        <==> before.found_in(w, s, r) && s != serial by {
                        if before.stores@.contains_key(w) {
                            before.stores@[w].spatial.lemma_found_is_known();
                        }
                    }
                    assert forall|w: u8, s: u32, x: u16, y: u16| #[trigger]
                        self.found_at(w, s, x, y) <==> before.found_at(w, s, x, y) && s
                            != serial by {
                        if before.stores@.contains_key(w) {
                            before.stores@[w].spatial.lemma_found_is_known();
                        }
                    }
                    assert forall|w: u8, s: u32| #[trigger] self.shaped(w, s) <==> before.shaped(
                        w,
                        s,
                    ) && s != serial by {
                        assert(before.homed(serial, w));
                    }
                    assert forall|w: u8, s: u32| #[trigger] self.bbox(w, s) == if s == serial {
                        None
                    } else {
                        before.bbox(w, s)
                    } by {
                        assert(before.homed(serial, w));
                    }
                    assert forall|w: u8, s: u32| #[trigger] self.cached(w, s) == if s == serial {
                        None
                    } else {
                        before.cached(w, s)
                    } by {
                        assert(before.homed(serial, w));
                    }
                }
            },
        }
    }
}


impl<E: Entity, S: SpatialIndex, D: StaticDataProvider> EntityRegistry<E, S, D> {
    /// The rectangle of a multi-object with parts that a player designed: around
    /// those and around the parts of its graphic, where these are known.
    pub open spec fn custom_rect(&self, e: EntityState, parts: Seq<MultiPart>) -> TileRect {
        let custom = bbox_of(e.pos.x, e.pos.y, extent_of(parts));
        if self.multi_defs@.contains_key(e.graphic) {
            hull(bbox_of(e.pos.x, e.pos.y, self.multi_defs@[e.graphic].extent), custom)
        } else {
            custom
        }
    }

    /// What parts that a player designed leave, once laid over the multi-object
    /// that is remembered under a serial in a world.
    pub open spec fn customized(
        before: Self,
        after: Self,
        serial: u32,
        parts: Seq<MultiPart>,
        world: u8,
    ) -> bool {
        match before.cached(world, serial) {
            None => after == before,
            Some(e) => {
                &&& after == (EntityRegistry {
                    stores: after.stores,
                    custom_defs: after.custom_defs,
                    ..before
                })
                &&& forall|w: u8, s: u32| #[trigger] after.cached(w, s) == before.cached(w, s)
                &&& after.custom_defs@.contains_key(serial)
                &&& is_def(*after.custom_defs@[serial], parts)
                &&& after.custom_defs@ == before.custom_defs@.insert(
                    serial,
                    after.custom_defs@[serial],
                )
                &&& forall|w: u8, s: u32| #[trigger]
                    after.bbox(w, s) == if w == world && s == serial {
                        Some(before.custom_rect(e, parts))
                    } else {
                        before.bbox(w, s)
                    }
                &&& forall|w: u8, s: u32| #[trigger]
                    after.shaped(w, s) <==> before.shaped(w, s) || (w == world && s == serial)
                &&& forall|w: u8, s: u32, x: u16, y: u16| #[trigger]
                    after.found_at(w, s, x, y) <==> if w == world && s == serial {
                        S::near(before.custom_rect(e, parts), x, y)
                    } else {
                        before.found_at(w, s, x, y)
                    }
                &&& forall|w: u8, s: u32, r: TileRect| #[trigger]
                    after.found_in(w, s, r) <==> if w == world && s == serial {
                        S::near_rect(before.custom_rect(e, parts), r)
                    } else {
                        before.found_in(w, s, r)
                    }
            },
        }
    }

    /// Lays parts that a player designed over a remembered multi-object. Nothing
    /// happens where the serial is not remembered in the world.
    pub fn add_custom(&mut self, serial: u32, parts: &[MultiPart], world: u8)
        requires
            old(self).wf(),
        ensures
            final(self).wf(),
            EntityRegistry::customized(*old(self), *final(self), serial, parts@, world),
    {
        let ghost before = *self;
        let (pos, graphic) = match self.stores.get(&world) {
            Some(store) => match store.entities.get(&serial) {
                Some(e) => (e.pos(), e.graphic()),
                None => {
                    return;
                },
            },
            None => {
                return;
            },
        };
        let custom = Arc::new(MultiDef::from_parts(parts));
        let over = compute_bbox(pos.x, pos.y, custom.extent);
        let rect = match self.multi_defs.get(&graphic) {
            Some(def) => join_rects(compute_bbox(pos.x, pos.y, def.extent), over),
            None => over,
        };
        match map_get_mut(&mut self.stores, world) {
            Some(store) => {
                let ghost store0 = *store;
                assert(store0 == before.stores@[world]);
                assert(store0.wf());
                store.spatial.remove(serial);
                store.spatial.insert(serial, rect);
                store.multi_bbox.insert(serial, rect);
                assert(store.wf());
            },
            None => {},
        }
        self.custom_defs.insert(serial, custom);
        proof {
            let store0 = before.stores@[world];
            let store1 = self.stores@[world];
            assert forall|s: u32, w: u8| #[trigger] self.homed(s, w) by {
                assert(before.homed(s, w));
            }
            assert forall|w: u8, s: u32| #[trigger] self.shaped(w, s) <==> before.shaped(w, s) || (w
                == world && s == serial) by {
                if w == world {
                    assert(store1.spatial.knows(s) <==> store0.spatial.knows(s) || s == serial);
                }
            }
            assert forall|w: u8, s: u32, x: u16, y: u16| #[trigger] self.found_at(w, s, x, y)
                <==> if w == world && s == serial {
                S::near(rect, x, y)
            } else {
                before.found_at(w, s, x, y)
            } by {
                if w == world {
                    assert(store1.spatial.finds(s, x, y) <==> (store0.spatial.finds(s, x, y) && s
                        != serial) || (s == serial && S::near(rect, x, y)));
                }
            }
            assert forall|w: u8, s: u32, r: TileRect| #[trigger] self.found_in(w, s, r) <==> if w
                == world && s == serial {
                S::near_rect(rect, r)
            } else {
                before.found_in(w, s, r)
            } by {
                if w == world {
                    assert(store1.spatial.finds_in(s, r) <==> (store0.spatial.finds_in(s, r) && s
                        != serial) || (s == serial && S::near_rect(rect, r)));
                }
            }
            assert(self.custom_defs@ =~= before.custom_defs@.insert(
                serial,
                self.custom_defs@[serial],
            ));
        }
    }

    /// Notes that a mobile is hidden. It stays remembered as it is.
    pub fn mark_hidden(&mut self, _serial: u32)
        ensures
            *final(self) == *old(self),
    {
    }

    /// What forgetting all entities of a world leaves.
    pub open spec fn world_cleared(before: Self, after: Self, world: u8) -> bool {
        &&& after.current_world == before.current_world
        &&& after.cache_mode == before.cache_mode
        &&& after.static_data == before.static_data
        &&& after.multi_defs == before.multi_defs
        &&& after.staleness_config == before.staleness_config
        &&& after.stores@ == before.stores@.remove(world)
        &&& forall|w: u8, s: u32| #[trigger]
            after.cached(w, s) == if w == world {
                None
            } else {
                before.cached(w, s)
            }
        &&& forall|s: u32| #[trigger]
            after.custom_defs@.contains_key(s) <==> before.custom_defs@.contains_key(s)
                && before.cached(world, s) is None
        &&& forall|s: u32| #[trigger]
            after.custom_defs@.contains_key(s) ==> after.custom_defs@[s] == before.custom_defs@[s]
        &&& if world == before.current_world {
            EntityRegistry::<E, S, D>::rested(before.staleness, after.staleness)
        } else {
            after.staleness == before.staleness
        }
    }

    /// Forgets all entities of a world. In the current world, confirmations are
    /// no longer collected.
    pub fn clear_world(&mut self, world: u8)
        requires
            old(self).wf(),
        ensures
            final(self).wf(),
            EntityRegistry::world_cleared(*old(self), *final(self), world),
    {
        let ghost before = *self;
        let taken = self.stores.remove(&world);
        if let Some(store) = taken {
            let serials = map_keys(&store.entities);
            let mut i: usize = 0;
            while i < serials.len()
                invariant
                    i <= serials@.len(),
                    before.stores@.contains_key(world),
                    store == before.stores@[world],
                    forall|s: u32| #[trigger]
                        serials@.contains(s) <==> store.entities@.contains_key(s),
                    self.stores@ == before.stores@.remove(world),
                    self.current_world == before.current_world,
                    self.cache_mode == before.cache_mode,
                    self.static_data == before.static_data,
                    self.multi_defs == before.multi_defs,
                    self.staleness_config == before.staleness_config,
                    self.staleness == before.staleness,
                    forall|s: u32| #[trigger]
                        self.serial_index@.contains_key(s) <==> before.serial_index@.contains_key(s)
                            && !serials@.take(i as int).contains(s),
                    forall|s: u32| #[trigger]
                        self.serial_index@.contains_key(s) ==> self.serial_index@[s]
                            == before.serial_index@[s],
                    forall|s: u32| #[trigger]
                        self.custom_defs@.contains_key(s) <==> before.custom_defs@.contains_key(s)
                            && !serials@.take(i as int).contains(s),
                    forall|s: u32| #[trigger]
                        self.custom_defs@.contains_key(s) ==> self.custom_defs@[s]
                            == before.custom_defs@[s],
                decreases serials@.len() - i,
            {
                let s: u32 = serials[i];
                self.serial_index.remove(&s);
                self.custom_defs.remove(&s);
                proof {
                    let pre = serials@.take(i as int);
                    assert(serials@.take(i + 1) =~= pre.push(s));
                    assert forall|c: u32| pre.push(s).contains(c) <==> pre.contains(c) || c == s by {
                        lemma_push_u32(pre, s, c);
                    }
                }
                i += 1;
            }
            proof {
                assert(serials@.take(i as int) =~= serials@);
                assert forall|s: u32| #[trigger] self.serial_index@.contains_key(s)
                    <==> before.serial_index@.contains_key(s) && before.cached(
                    world,
                    s,
                ) is None by {
                    assert(serials@.contains(s) <==> store.entities@.contains_key(s));
                }
            }
        } else {
            proof {
                assert(before.stores@.remove(world) =~= before.stores@);
            }
        }
        assert forall|s: u32| #[trigger] self.serial_index@.contains_key(s)
            <==> before.serial_index@.contains_key(s) && before.cached(world, s) is None by {}
        assert forall|s: u32| #[trigger]
            self.serial_index@.contains_key(s) implies self.serial_index@[s]
            == before.serial_index@[s] by {}
        let ghost index = self.serial_index@;
        let ghost stores = self.stores@;
        if world == self.current_world {
            self.staleness.disarm();
        }
        proof {
            assert forall|s: u32, w: u8| #[trigger] self.homed(s, w) by {
                assert(before.homed(s, w));
                assert(before.homed(s, world));
                assert(index.contains_key(s) <==> before.serial_index@.contains_key(s)
                    && before.cached(world, s) is None);
                assert(stores == before.stores@.remove(world));
                assert(stores.contains_key(w) <==> before.stores@.contains_key(w) && w != world);
            }
        }
    }

    /// Forgets all entities. Definitions of multi-objects stay.
    pub fn clear_all(&mut self)
        requires
            old(self).wf(),
        ensures
            final(self).wf(),
            final(self).current_world == old(self).current_world,
            final(self).cache_mode == old(self).cache_mode,
            final(self).static_data == old(self).static_data,
            final(self).multi_defs == old(self).multi_defs,
            final(self).staleness_config == old(self).staleness_config,
            final(self).stores@ == Map::<u8, WorldStore<E, S>>::empty(),
            final(self).serial_index@ == Map::<u32, u8>::empty(),
            final(self).custom_defs@ == Map::<u32, Arc<MultiDef>>::empty(),
            forall|w: u8, s: u32| (#[trigger] final(self).cached(w, s)) is None,
            EntityRegistry::<E, S, D>::rested(old(self).staleness, final(self).staleness),
    {
        self.stores.clear();
        self.serial_index.clear();
        self.custom_defs.clear();
        self.staleness.disarm();
    }

    /// Forgets all entities and all definitions.
    pub fn clear_all_with_defs(&mut self)
        requires
            old(self).wf(),
        ensures
            final(self).wf(),
            final(self).current_world == old(self).current_world,
            final(self).cache_mode == old(self).cache_mode,
            final(self).static_data == old(self).static_data,
            final(self).staleness_config == old(self).staleness_config,
            final(self).stores@ == Map::<u8, WorldStore<E, S>>::empty(),
            final(self).serial_index@ == Map::<u32, u8>::empty(),
            final(self).multi_defs@ == Map::<u16, Arc<MultiDef>>::empty(),
            final(self).custom_defs@ == Map::<u32, Arc<MultiDef>>::empty(),
            forall|w: u8, s: u32| (#[trigger] final(self).cached(w, s)) is None,
            EntityRegistry::<E, S, D>::rested(old(self).staleness, final(self).staleness),
    {
        self.clear_all();
        self.multi_defs.clear();
    }

    /// Starts to collect confirmations.
    pub fn arm_staleness(&mut self)
        requires
            old(self).wf(),
        ensures
            final(self).wf(),
            *final(self) == (EntityRegistry { staleness: final(self).staleness, ..*old(self) }),
            EntityRegistry::<E, S, D>::rearmed(old(self).staleness, final(self).staleness),
    {
        self.staleness.arm();
        proof {
            assert forall|s: u32, w: u8| #[trigger] self.homed(s, w) by {
                assert(old(self).homed(s, w));
            }
        }
    }

    /// Takes the confirmation that an entity is still there.
    pub fn confirm(&mut self, serial: u32)
        requires
            old(self).wf(),
        ensures
            final(self).wf(),
            *final(self) == (EntityRegistry { staleness: final(self).staleness, ..*old(self) }),
            EntityRegistry::<E, S, D>::noted(old(self).staleness, final(self).staleness, serial),
    {
        self.staleness.confirm(serial);
        proof {
            assert forall|s: u32, w: u8| #[trigger] self.homed(s, w) by {
                assert(old(self).homed(s, w));
            }
        }
    }

    /// Whether a sweep is due. It depends on the time whether it is while
    /// confirmations are collected, unless no time needs to pass; otherwise it is not.
    pub fn should_sweep(&self) -> (b: bool)
        ensures
            b ==> self.staleness.armed,
            self.staleness.armed && self.staleness.threshold.nanos == 0 ==> b,
    {
        self.staleness.should_sweep()
    }

    /// Whether a sweep of the rectangle removes the serial: it is found there in
    /// the current world, is of a kind that is swept, and was not confirmed.
    pub open spec fn is_stale(&self, rect: TileRect, s: u32) -> bool {
        &&& self.found_in(self.current_world, s, rect)
        &&& self.cached(self.current_world, s) is Some
        &&& self.staleness_config.sweeps(self.cached(self.current_world, s)->0)
        &&& !self.staleness.confirmed@.contains(s)
    }

    /// What a sweep that was due leaves, and how many entities it removed.
    pub open spec fn swept(before: Self, after: Self, rect: TileRect, n: usize) -> bool {
        &&& after.wf()
        &&& EntityRegistry::<E, S, D>::rested(before.staleness, after.staleness)
        &&& after.current_world == before.current_world
        &&& after.cache_mode == before.cache_mode
        &&& after.static_data == before.static_data
        &&& forall|w: u8, s: u32| #[trigger]
            after.cached(w, s) == if w == before.current_world && before.is_stale(rect, s) {
                None
            } else {
                before.cached(w, s)
            }
        &&& after.staleness_config == before.staleness_config
        &&& after.multi_defs == before.multi_defs
        &&& forall|w: u8, s: u32, x: u16, y: u16| #[trigger]
            after.found_at(w, s, x, y) <==> before.found_at(w, s, x, y) && !(w
                == before.current_world && before.is_stale(rect, s))
        &&& forall|w: u8, s: u32, r: TileRect| #[trigger]
            after.found_in(w, s, r) <==> before.found_in(w, s, r) && !(w == before.current_world
                && before.is_stale(rect, s))
        &&& forall|w: u8, s: u32| #[trigger]
            after.shaped(w, s) <==> before.shaped(w, s) && !(w == before.current_world
                && before.is_stale(rect, s))
        &&& forall|w: u8, s: u32| #[trigger]
            after.bbox(w, s) == if w == before.current_world && before.is_stale(rect, s) {
                None
            } else {
                before.bbox(w, s)
            }
        &&& forall|s: u32| #[trigger]
            after.custom_defs@.contains_key(s) <==> before.custom_defs@.contains_key(s)
                && !before.is_stale(rect, s)
        &&& forall|s: u32| #[trigger]
            after.custom_defs@.contains_key(s) ==> after.custom_defs@[s] == before.custom_defs@[s]
        &&& exists|gone: Seq<u32>| #[trigger]
            gone.no_duplicates() && n == gone.len() && forall|s: u32| #[trigger]
                gone.contains(s) <==> before.is_stale(rect, s)
    }

    /// Sweeps the rectangle if a sweep is due at time `now`. Returns the number
    /// of entities removed.
    pub fn sweep_stale_at(&mut self, view_rect: &TileRect, now: Moment) -> (n: usize)
        requires
            old(self).wf(),
        ensures
            final(self).wf(),
            ({
                let due = old(self).staleness.armed && (if now.nanos >= old(self).staleness.last_activity.nanos {
                    now.nanos - old(self).staleness.last_activity.nanos
                } else {
                    0
                }) >= old(self).staleness.threshold.nanos;
                &&& !due ==> n == 0 && *final(self) == *old(self)
                &&& due ==> EntityRegistry::swept(*old(self), *final(self), *view_rect, n)
            }),
    {
        if !self.staleness.should_sweep_at(now) {
            return 0;
        }
        self.sweep_now(view_rect)
    }

    fn sweep_now(&mut self, view_rect: &TileRect) -> (n: usize)
        requires
            old(self).wf(),
        ensures
            EntityRegistry::swept(*old(self), *final(self), *view_rect, n),
    {
        let ghost before = *self;
        let world: u8 = self.current_world;
        let mut picked: Vec<u32> = Vec::new();
        match self.stores.get(&world) {
            Some(store) => {
                let near = store.spatial.query_rect(view_rect);
                let mut i: usize = 0;
                proof {
                    assert(store.wf());
                }
                while i < near.len()
                    invariant
                        i <= near@.len(),
                        near@.no_duplicates(),
                        before == *self,
                        world == self.current_world,
                        self.stores@.contains_key(world),
                        *store == self.stores@[world],
                        store.wf(),
                        forall|s: u32| #[trigger]
                            near@.contains(s) <==> store.spatial.finds_in(s, *view_rect),
                        forall|s: u32| #[trigger]
                            near@.contains(s) ==> store.spatial.knows(s),
                        picked@.no_duplicates(),
                        forall|s: u32| #[trigger]
                            picked@.contains(s) <==> near@.take(i as int).contains(s)
                                && before.staleness_config.sweeps(store.entities@[s].state()),
                    decreases near@.len() - i,
                {
                    let s: u32 = near[i];
                    let ghost pre = picked@;
                    assert(near@.contains(s));
                    assert(store.spatial.knows(s));
                    let sweep = match store.entities.get(&s) {
                        Some(e) => {
                            if e.is_mobile() {
                                self.staleness_config.mobiles
                            } else if e.is_multi() {
                                self.staleness_config.multis
                            } else {
                                self.staleness_config.items
                            }
                        },
                        None => true,
                    };
                    proof {
                        assert(near@.take(i + 1) =~= near@.take(i as int).push(s));
                        assert(!near@.take(i as int).contains(s));
                        assert(!pre.contains(s));
                        lemma_push_no_dup(pre, s);
                    }
                    if sweep {
                        picked.push(s);
                    }
                    proof {
                        assert(sweep == before.staleness_config.sweeps(store.entities@[s].state()));
                        assert forall|c: u32| #[trigger] picked@.contains(c) <==> near@.take(
                            i + 1,
                        ).contains(c) && before.staleness_config.sweeps(
                            store.entities@[c].state(),
                        ) by {
                            lemma_push_u32(near@.take(i as int), s, c);
                            lemma_push_u32(pre, s, c);
                            assert(pre.contains(c) <==> near@.take(i as int).contains(c)
                                && before.staleness_config.sweeps(store.entities@[c].state()));
                        }
                    }
                    i += 1;
                }
                assert(near@.take(i as int) =~= near@);
            },
            None => {},
        }
        let stale = self.staleness.sweep(&picked);
        let n: usize = stale.len();
        proof {
            lemma_unconfirmed(picked@, before.staleness.confirmed@);
            assert forall|s: u32, w: u8| #[trigger] self.homed(s, w) by {
                assert(before.homed(s, w));
            }
            assert forall|s: u32| #[trigger] stale@.contains(s) <==> before.is_stale(
                *view_rect,
                s,
            ) by {
                if before.stores@.contains_key(world) {
                    before.stores@[world].spatial.lemma_found_is_known();
                    assert(before.stores@[world].wf());
                    assert(picked@.contains(s) ==> before.stores@[world].spatial.finds_in(
                        s,
                        *view_rect,
                    ));
                    if before.found_in(world, s, *view_rect) {
                        assert(before.stores@[world].spatial.knows(s));
                    }
                }
            }
        }
        let mut k: usize = 0;
        while k < stale.len()
            invariant
                k <= stale@.len(),
                self.wf(),
                EntityRegistry::<E, S, D>::rested(before.staleness, self.staleness),
                self.current_world == before.current_world,
                self.cache_mode == before.cache_mode,
                self.static_data == before.static_data,
                stale@.no_duplicates(),
                forall|s: u32| #[trigger]
                    stale@.contains(s) <==> before.is_stale(*view_rect, s),
                before.wf(),
                forall|w: u8, s: u32| #[trigger]
                    self.cached(w, s) == if stale@.take(k as int).contains(s) {
                        None
                    } else {
                        before.cached(w, s)
                    },
                self.staleness_config == before.staleness_config,
                self.multi_defs == before.multi_defs,
                forall|w: u8, s: u32, x: u16, y: u16| #[trigger]
                    self.found_at(w, s, x, y) <==> before.found_at(w, s, x, y) && !stale@.take(
                        k as int,
                    ).contains(s),
                forall|w: u8, s: u32, r: TileRect| #[trigger]
                    self.found_in(w, s, r) <==> before.found_in(w, s, r) && !stale@.take(
                        k as int,
                    ).contains(s),
                forall|w: u8, s: u32| #[trigger]
                    self.shaped(w, s) <==> before.shaped(w, s) && !stale@.take(k as int).contains(
                        s,
                    ),
                forall|w: u8, s: u32| #[trigger]
                    self.bbox(w, s) == if stale@.take(k as int).contains(s) {
                        None
                    } else {
                        before.bbox(w, s)
                    },
                forall|s: u32| #[trigger]
                    self.custom_defs@.contains_key(s) <==> before.custom_defs@.contains_key(s)
                        && !stale@.take(k as int).contains(s),
                forall|s: u32| #[trigger]
                    self.custom_defs@.contains_key(s) ==> self.custom_defs@[s]
                        == before.custom_defs@[s],
            decreases stale@.len() - k,
        {
            let ghost mid = *self;
            let s: u32 = stale[k];
            self.remove(s);
            proof {
                assert(stale@.take(k + 1) =~= stale@.take(k as int).push(s));
                assert forall|w: u8, c: u32| #[trigger] self.cached(w, c) == if stale@.take(
                    k + 1,
                ).contains(c) {
                    None
                } else {
                    before.cached(w, c)
                } by {
                    lemma_push_u32(stale@.take(k as int), s, c);
                    assert(mid.cached(w, c) == if stale@.take(k as int).contains(c) {
                        None
                    } else {
                        before.cached(w, c)
                    });
                }
                assert forall|w: u8, c: u32, x: u16, y: u16| #[trigger]
                    self.found_at(w, c, x, y) <==> before.found_at(w, c, x, y) && !stale@.take(
                        k + 1,
                    ).contains(c) by {
                    lemma_push_u32(stale@.take(k as int), s, c);
                    assert(mid.found_at(w, c, x, y) <==> before.found_at(w, c, x, y)
                        && !stale@.take(k as int).contains(c));
                }
                assert forall|w: u8, c: u32, r: TileRect| #[trigger] self.found_in(w, c, r)
                    <==> before.found_in(w, c, r) && !stale@.take(k + 1).contains(c) by {
                    lemma_push_u32(stale@.take(k as int), s, c);
                    assert(mid.found_in(w, c, r) <==> before.found_in(w, c, r) && !stale@.take(
                        k as int,
                    ).contains(c));
                }
                assert forall|w: u8, c: u32| #[trigger] self.shaped(w, c) <==> before.shaped(w, c)
                    && !stale@.take(k + 1).contains(c) by {
                    lemma_push_u32(stale@.take(k as int), s, c);
                    assert(mid.shaped(w, c) <==> before.shaped(w, c) && !stale@.take(
                        k as int,
                    ).contains(c));
                }
                assert forall|w: u8, c: u32| #[trigger] self.bbox(w, c) == if stale@.take(
                    k + 1,
                ).contains(c) {
                    None
                } else {
                    before.bbox(w, c)
                } by {
                    lemma_push_u32(stale@.take(k as int), s, c);
                    assert(mid.bbox(w, c) == if stale@.take(k as int).contains(c) {
                        None
                    } else {
                        before.bbox(w, c)
                    });
                }
                assert forall|c: u32| #[trigger] self.custom_defs@.contains_key(c)
                    <==> before.custom_defs@.contains_key(c) && !stale@.take(k + 1).contains(
                    c,
                ) by {
                    lemma_push_u32(stale@.take(k as int), s, c);
                    assert(mid.custom_defs@.contains_key(c) <==> before.custom_defs@.contains_key(c)
                        && !stale@.take(k as int).contains(c));
                }
                assert forall|c: u32| #[trigger] self.custom_defs@.contains_key(c) implies
                    self.custom_defs@[c] == before.custom_defs@[c] by {
                    assert(mid.custom_defs@.contains_key(c));
                }
            }
            k += 1;
        }
        proof {
            assert(stale@.take(k as int) =~= stale@);
            assert forall|w: u8, s: u32| #[trigger] self.cached(w, s) == if w == world
                && before.is_stale(*view_rect, s) {
                None
            } else {
                before.cached(w, s)
            } by {
                assert(stale@.contains(s) <==> before.is_stale(*view_rect, s));
                if stale@.contains(s) && w != world {
                    assert(before.homed(s, w));
                    assert(before.homed(s, world));
                    assert(before.cached(world, s) is Some);
                }
            }
            assert forall|w: u8, s: u32, x: u16, y: u16| #[trigger] self.found_at(w, s, x, y)
                <==> before.found_at(w, s, x, y) && !(w == world && before.is_stale(
                *view_rect,
                s,
            )) by {
                assert(stale@.contains(s) <==> before.is_stale(*view_rect, s));
                if stale@.contains(s) && w != world && before.found_at(w, s, x, y) {
                    assert(before.homed(s, w));
                    assert(before.homed(s, world));
                    assert(before.cached(world, s) is Some);
                    before.stores@[w].spatial.lemma_found_is_known();
                    assert(before.stores@[w].wf());
                    assert(before.stores@[w].spatial.knows(s));
                }
            }
            assert forall|w: u8, s: u32| stale@.contains(s) && w != world implies {
                &&& !#[trigger] before.shaped(w, s)
                &&& before.bbox(w, s) is None
            } by {
                assert(before.is_stale(*view_rect, s));
                assert(before.homed(s, w));
                assert(before.homed(s, world));
                assert(before.cached(world, s) is Some);
                if before.stores@.contains_key(w) {
                    assert(before.stores@[w].wf());
                }
            }
            assert forall|w: u8, s: u32, r: TileRect| #[trigger] self.found_in(w, s, r)
                <==> before.found_in(w, s, r) && !(w == world && before.is_stale(
                *view_rect,
                s,
            )) by {
                assert(stale@.contains(s) <==> before.is_stale(*view_rect, s));
                if stale@.contains(s) && w != world && before.found_in(w, s, r) {
                    before.stores@[w].spatial.lemma_found_is_known();
                    assert(before.stores@[w].wf());
                    assert(before.shaped(w, s));
                }
            }
            assert forall|w: u8, s: u32| #[trigger] self.shaped(w, s) <==> before.shaped(w, s)
                && !(w == world && before.is_stale(*view_rect, s)) by {
                assert(stale@.contains(s) <==> before.is_stale(*view_rect, s));
            }
            assert forall|w: u8, s: u32| #[trigger] self.bbox(w, s) == if w == world
                && before.is_stale(*view_rect, s) {
                None
            } else {
                before.bbox(w, s)
            } by {
                assert(stale@.contains(s) <==> before.is_stale(*view_rect, s));
                if stale@.contains(s) && w != world {
                    assert(!before.shaped(w, s));
                }
            }
            assert forall|s: u32| #[trigger] self.custom_defs@.contains_key(s)
                <==> before.custom_defs@.contains_key(s) && !before.is_stale(*view_rect, s) by {
                assert(stale@.contains(s) <==> before.is_stale(*view_rect, s));
            }
        }
        n
    }

    /// Sweeps the rectangle if a sweep is due. Returns the number of entities
    /// removed. Whether it is due depends on the time.
    pub fn sweep_stale(&mut self, view_rect: &TileRect) -> (n: usize)
        requires
            old(self).wf(),
        ensures
            final(self).wf(),
            (n == 0 && *final(self) == *old(self)) || (old(self).staleness.armed
                && EntityRegistry::swept(*old(self), *final(self), *view_rect, n)),
            !old(self).staleness.armed ==> n == 0 && *final(self) == *old(self),
            old(self).staleness.armed && old(self).staleness.threshold.nanos == 0
                ==> EntityRegistry::swept(*old(self), *final(self), *view_rect, n),
    {
        if !self.staleness.should_sweep() {
            return 0;
        }
        self.sweep_now(view_rect)
    }

    /// An entity of the current world.
    pub fn get(&self, serial: u32) -> (r: Option<&E>)
        ensures
            r is Some <==> self.cached(self.current_world, serial) is Some,
            r matches Some(e) ==> e.state() == self.cached(self.current_world, serial)->0,
    {
        self.get_in_world(serial, self.current_world)
    }

    /// An entity of a given world.
    pub fn get_in_world(&self, serial: u32, world: u8) -> (r: Option<&E>)
        ensures
            r is Some <==> self.cached(world, serial) is Some,
            r matches Some(e) ==> e.state() == self.cached(world, serial)->0,
    {
        match self.stores.get(&world) {
            Some(store) => store.entities.get(&serial),
            None => None,
        }
    }

    /// An entity and its world, whichever that is.
    pub fn get_any(&self, serial: u32) -> (r: Option<(u8, &E)>)
        requires
            self.wf(),
        ensures
            r is Some <==> exists|w: u8| (#[trigger] self.cached(w, serial)) is Some,
            r matches Some(p) ==> self.cached(p.0, serial) is Some && p.1.state() == self.cached(
                p.0,
                serial,
            )->0,
    {
        match self.serial_index.get(&serial) {
            Some(w) => {
                assert(self.homed(serial, *w));
                match self.get_in_world(serial, *w) {
                    Some(e) => Some((*w, e)),
                    None => None,
                }
            },
            None => {
                assert forall|w: u8| (#[trigger] self.cached(w, serial)) is None by {
                    assert(self.homed(serial, w));
                }
                None
            },
        }
    }

    /// The serials that are found for a rectangle in the current world.
    pub fn serials_in_rect(&self, rect: &TileRect) -> (r: Vec<u32>)
        ensures
            forall|s: u32| #[trigger]
                r@.contains(s) <==> self.found_in(self.current_world, s, *rect),
    {
        self.serials_in_rect_world(self.current_world, rect)
    }

    /// The serials that are found for a rectangle in a given world.
    pub fn serials_in_rect_world(&self, world: u8, rect: &TileRect) -> (r: Vec<u32>)
        ensures
            forall|s: u32| #[trigger] r@.contains(s) <==> self.found_in(world, s, *rect),
    {
        match self.stores.get(&world) {
            Some(store) => store.spatial.query_rect(rect),
            None => Vec::new(),
        }
    }

    /// Whether an entity of the current world is within a rectangle: a multi-object
    /// by its own rectangle, any other by its place.
    pub open spec fn within(&self, serial: u32, rect: TileRect) -> bool {
        match self.bbox(self.current_world, serial) {
            Some(r) => r.meets(rect),
            None => match self.cached(self.current_world, serial) {
                Some(e) => rect.has(e.pos.x as int, e.pos.y as int),
                None => false,
            },
        }
    }

    /// Whether an entity of the current world is within a rectangle.
    pub fn serial_in_rect(&self, serial: u32, rect: &TileRect) -> (b: bool)
        ensures
            b == self.within(serial, *rect),
    {
        match self.stores.get(&self.current_world) {
            Some(store) => {
                if let Some(bbox) = store.multi_bbox.get(&serial) {
                    return bbox.overlaps(rect);
                }
                match store.entities.get(&serial) {
                    Some(e) => {
                        let pos = e.pos();
                        rect.contains_pos(&pos)
                    },
                    None => false,
                }
            },
            None => false,
        }
    }

    /// Number of entities of the current world.
    pub fn len(&self) -> (n: usize)
        ensures
            n == if self.stores@.contains_key(self.current_world) {
                self.stores@[self.current_world].entities@.dom().len()
            } else {
                0
            },
    {
        match self.stores.get(&self.current_world) {
            Some(store) => store.entities.len(),
            None => 0,
        }
    }

    /// Whether nothing of the current world is remembered.
    pub fn is_empty(&self) -> (b: bool)
        ensures
            b <==> forall|s: u32| (#[trigger] self.cached(self.current_world, s)) is None,
    {
        let n: usize = self.len();
        proof {
            if self.stores@.contains_key(self.current_world) {
                let dom = self.stores@[self.current_world].entities@.dom();
                if n == 0 {
                    assert(dom =~= Set::<u32>::empty());
                } else {
                    let s = dom.choose();
                    assert(dom.contains(s)) by {
                        if forall|k: u32| !dom.contains(k) {
                            assert(dom =~= Set::<u32>::empty());
                        }
                    }
                    assert(self.cached(self.current_world, s) is Some);
                }
            }
        }
        n == 0
    }

    /// Number of entities of all worlds.
    pub fn total_len(&self) -> (n: usize)
        requires
            self.wf(),
        ensures
            n == self.serial_index@.dom().len(),
            forall|s: u32| #[trigger]
                self.serial_index@.contains_key(s) <==> exists|w: u8|
                    (#[trigger] self.cached(w, s)) is Some,
    {
        proof {
            assert forall|s: u32| #[trigger] self.serial_index@.contains_key(s) <==> exists|w: u8|
                (#[trigger] self.cached(w, s)) is Some by {
                if self.serial_index@.contains_key(s) {
                    let w = self.serial_index@[s];
                    assert(self.homed(s, w));
                    assert(self.cached(w, s) is Some);
                }
                if exists|w: u8| (#[trigger] self.cached(w, s)) is Some {
                    let w = choose|w: u8| (#[trigger] self.cached(w, s)) is Some;
                    assert(self.homed(s, w));
                }
            }
        }
        self.serial_index.len()
    }

    /// Number of definitions of multi-objects.
    pub fn cached_defs(&self) -> (n: usize)
        ensures
            n == self.multi_defs@.dom().len(),
    {
        self.multi_defs.len()
    }

    /// Number of worlds of which something is remembered.
    pub fn world_count(&self) -> (n: usize)
        ensures
            n == self.stores@.dom().len(),
    {
        self.stores.len()
    }

    /// What the parts of a remembered multi-object's graphic span, as
    /// `(x_min, y_min, x_max, y_max)`.
    pub fn foundation_extent(&self, serial: u32) -> (r: Option<(i16, i16, i16, i16)>)
        requires
            self.wf(),
        ensures
            r is Some <==> exists|w: u8|
                (#[trigger] self.cached(w, serial)) is Some && self.multi_defs@.contains_key(
                    (self.cached(w, serial)->0).graphic,
                ),
            r matches Some(x) ==> exists|w: u8|
                (#[trigger] self.cached(w, serial)) is Some && {
                    let e = self.multi_defs@[(self.cached(w, serial)->0).graphic].extent;
                    x == (e.x_min, e.y_min, e.x_max, e.y_max)
                },
    {
        match self.get_any(serial) {
            Some((w, e)) => {
                proof {
                    assert forall|v: u8| (#[trigger] self.cached(v, serial)) is Some implies v
                        == w by {
                        assert(self.homed(serial, v));
                        assert(self.homed(serial, w));
                    }
                }
                match self.multi_defs.get(&e.graphic()) {
                    Some(def) => {
                        let x = def.extent;
                        Some((x.x_min, x.y_min, x.x_max, x.y_max))
                    },
                    None => None,
                }
            },
            None => None,
        }
    }

    /// The shapes of one remembered entity on tile `(x, y)`.
    pub open spec fn entity_shapes(&self, sd: &D, e: EntityState, serial: u32, x: u16, y: u16) -> Seq<
        TileShape,
    > {
        if e.multi {
            (if self.multi_defs@.contains_key(e.graphic) {
                def_shapes(sd, e.pos, *self.multi_defs@[e.graphic], x, y)
            } else {
                Seq::empty()
            }) + (if self.custom_defs@.contains_key(serial) {
                def_shapes(sd, e.pos, *self.custom_defs@[serial], x, y)
            } else {
                Seq::empty()
            })
        } else if !e.mobile {
            match sd.static_form(e.pos.z, e.graphic) {
                Some(s) => seq![s],
                None => Seq::empty(),
            }
        } else {
            Seq::empty()
        }
    }

    /// The shapes of the listed entities of the current world on tile `(x, y)`.
    pub open spec fn listed_shapes(&self, sd: &D, list: Seq<u32>, x: u16, y: u16) -> Seq<TileShape>
        decreases list.len(),
    {
        if list.len() == 0 {
            Seq::empty()
        } else {
            let head = self.listed_shapes(sd, list.drop_last(), x, y);
            match self.cached(self.current_world, list.last()) {
                Some(e) => head + self.entity_shapes(sd, e, list.last(), x, y),
                None => head,
            }
        }
    }

    /// Adds the shapes of a definition at `pos` on tile `(x, y)`.
    fn push_def(sd: &D, pos: Pos3D, def: &MultiDef, x: u16, y: u16, out: &mut Vec<TileShape>)
        requires
            sd.wf(),
        ensures
            final(out)@ == old(out)@ + def_shapes(sd, pos, *def, x, y),
    {
        let ghost start = out@;
        let dx: i16 = (x as i32 - pos.x as i32) as i16;
        let dy: i16 = (y as i32 - pos.y as i32) as i16;
        if !def.contains(dx, dy) {
            assert(start + Seq::<TileShape>::empty() =~= start);
            return;
        }
        let parts = def.parts_at(dx, dy);
        let mut i: usize = 0;
        assert(parts@.take(0) =~= Seq::<PartEntry>::empty());
        assert(out@ =~= start + part_shapes(sd, pos.z, parts@.take(0)));
        while i < parts.len()
            invariant
                i <= parts@.len(),
                sd.wf(),
                out@ == start + part_shapes(sd, pos.z, parts@.take(i as int)),
            decreases parts@.len() - i,
        {
            proof {
                assert(parts@.take(i + 1).drop_last() =~= parts@.take(i as int));
            }
            let z: i8 = raise(pos.z, parts[i].z);
            if let Some(s) = sd.static_shape(z, parts[i].tile_id) {
                out.push(s);
            }
            assert(out@ =~= start + part_shapes(sd, pos.z, parts@.take(i + 1)));
            i += 1;
        }
        assert(parts@.take(i as int) =~= parts@);
    }

    /// Adds the shapes of the entities near tile `(x, y)`.
    fn query_shapes_in_store(
        &self,
        store: &WorldStore<E, S>,
        sd: &D,
        x: u16,
        y: u16,
    ) -> (out: Vec<TileShape>)
        requires
            sd.wf(),
            self.stores@.contains_key(self.current_world),
            *store == self.stores@[self.current_world],
        ensures
            out@ == self.listed_shapes(sd, store.spatial.point_list(x, y), x, y),
    {
        let near = store.spatial.query_point(x, y);
        let mut out: Vec<TileShape> = Vec::new();
        let mut i: usize = 0;
        assert(near@.take(0) =~= Seq::<u32>::empty());
        while i < near.len()
            invariant
                i <= near@.len(),
                sd.wf(),
                self.stores@.contains_key(self.current_world),
                *store == self.stores@[self.current_world],
                out@ == self.listed_shapes(sd, near@.take(i as int), x, y),
            decreases near@.len() - i,
        {
            let s: u32 = near[i];
            let ghost head = out@;
            proof {
                assert(near@.take(i + 1).drop_last() =~= near@.take(i as int));
            }
            if let Some(e) = store.entities.get(&s) {
                let pos = e.pos();
                if e.is_multi() {
                    if let Some(def) = self.multi_defs.get(&e.graphic()) {
                        EntityRegistry::<E, S, D>::push_def(sd, pos, &**def, x, y, &mut out);
                    }
                    if let Some(def) = self.custom_defs.get(&s) {
                        EntityRegistry::<E, S, D>::push_def(sd, pos, &**def, x, y, &mut out);
                    }
                } else if !e.is_mobile() {
                    if let Some(shape) = sd.static_shape(pos.z, e.graphic()) {
                        out.push(shape);
                    }
                }
                assert(out@ =~= head + self.entity_shapes(sd, e.state(), s, x, y));
            }
            i += 1;
        }
        assert(near@.take(i as int) =~= near@);
        out
    }
}

impl<E: Entity, S: SpatialIndex, D: StaticDataProvider> EntityRegistry<E, S, D> {
    /// Whether parts of a multi-object, of its graphic or of a design, are on tile
    /// `(x, y)`.
    pub open spec fn occupies(&self, e: EntityState, serial: u32, x: u16, y: u16) -> bool {
        ||| self.multi_defs@.contains_key(e.graphic) && def_occupies(
            e.pos,
            *self.multi_defs@[e.graphic],
            x,
            y,
        )
        ||| self.custom_defs@.contains_key(serial) && def_occupies(
            e.pos,
            *self.custom_defs@[serial],
            x,
            y,
        )
    }

    /// Whether a serial is that of a multi-object of the current world that occupies
    /// tile `(x, y)`.
    pub open spec fn occupant(&self, s: u32, x: u16, y: u16) -> bool {
        &&& self.found_at(self.current_world, s, x, y)
        &&& self.cached(self.current_world, s) matches Some(e)
        &&& e.multi
        &&& self.occupies(e, s, x, y)
    }
}

impl<E: Entity, S: SpatialIndex, D: StaticDataProvider> ShapeProvider for EntityRegistry<E, S, D> {
    open spec fn multi_at(&self, x: u16, y: u16) -> bool {
        exists|s: u32| #[trigger] self.occupant(s, x, y)
    }

    fn has_multi_at(&self, x: u16, y: u16) -> (b: bool) {
        let store = match self.stores.get(&self.current_world) {
            Some(store) => store,
            None => {
                return false;
            },
        };
        let near = store.spatial.query_point(x, y);
        let mut i: usize = 0;
        while i < near.len()
            invariant
                i <= near@.len(),
                self.stores@.contains_key(self.current_world),
                *store == self.stores@[self.current_world],
                forall|s: u32| #[trigger] near@.contains(s) <==> store.spatial.finds(s, x, y),
                forall|j: int| 0 <= j < i ==> !self.occupant(#[trigger] near@[j], x, y),
            decreases near@.len() - i,
        {
            let s: u32 = near[i];
            assert(near@.contains(s));
            if let Some(e) = store.entities.get(&s) {
                if e.is_multi() {
                    let pos = e.pos();
                    let natural = match self.multi_defs.get(&e.graphic()) {
                        Some(def) => has_parts_on(pos, &**def, x, y),
                        None => false,
                    };
                    let designed = match self.custom_defs.get(&s) {
                        Some(def) => has_parts_on(pos, &**def, x, y),
                        None => false,
                    };
                    if natural || designed {
                        assert(self.occupant(s, x, y));
                        return true;
                    }
                }
            }
            i += 1;
        }
        assert forall|s: u32| !#[trigger] self.occupant(s, x, y) by {
            if self.occupant(s, x, y) {
                assert(near@.contains(s));
                let j = choose|j: int| 0 <= j < near@.len() && near@[j] == s;
                assert(!self.occupant(near@[j], x, y));
            }
        }
        false
    }

    open spec fn shapes(&self, x: u16, y: u16) -> Seq<TileShape> {
        if self.static_data is Some && self.stores@.contains_key(self.current_world) {
            self.listed_shapes(
                &*self.static_data->0,
                self.stores@[self.current_world].spatial.point_list(x, y),
                x,
                y,
            )
        } else {
            Seq::empty()
        }
    }

    open spec fn shapes_ok(&self) -> bool {
        self.wf()
    }

    /// Nothing in the current world got a rectangle when it was inserted.
    open spec fn holds_nothing(&self) -> bool {
        forall|s: u32| !#[trigger] self.shaped(self.current_world, s)
    }

    fn get_shapes_at(&self, x: u16, y: u16) -> (s: Vec<TileShape>) {
        match &self.static_data {
            Some(sd) => match self.stores.get(&self.current_world) {
                Some(store) => self.query_shapes_in_store(store, &**sd, x, y),
                None => Vec::new(),
            },
            None => Vec::new(),
        }
    }

    fn shapes_empty(&self) -> (b: bool) {
        let b = match self.stores.get(&self.current_world) {
            Some(store) => store.spatial.is_empty(),
            None => true,
        };
        proof {
            if b {
                assert forall|s: u32| !#[trigger] self.shaped(self.current_world, s) by {
                    if self.stores@.contains_key(self.current_world) {
                        assert(!self.stores@[self.current_world].spatial.knows(s));
                    }
                }
            } else {
                let s = choose|s: u32| #[trigger]
                    self.stores@[self.current_world].spatial.knows(s);
                assert(self.shaped(self.current_world, s));
            }
            if b && self.stores@.contains_key(self.current_world) {
                let store = self.stores@[self.current_world];
                assert(store.wf());
                assert forall|x: u16, y: u16| (#[trigger] self.shapes(x, y)).len() == 0 by {
                    store.spatial.lemma_empty_lists(x, y);
                    assert(store.spatial.point_list(x, y) =~= Seq::<u32>::empty());
                }
            }
        }
        b
    }
}

proof fn lemma_push_u32(s: Seq<u32>, x: u32, c: u32)
    ensures
        s.push(x).contains(c) <==> s.contains(c) || c == x,
{
    let p = s.push(x);
    if s.contains(c) {
        let i = choose|i: int| 0 <= i < s.len() && s[i] == c;
        assert(p[i] == c);
    }
    if c == x {
        assert(p[s.len() as int] == c);
    }
    if p.contains(c) {
        let i = choose|i: int| 0 <= i < p.len() && p[i] == c;
        if i < s.len() {
            assert(s[i] == c);
        }
    }
}

proof fn lemma_push_no_dup(s: Seq<u32>, x: u32)
    requires
        s.no_duplicates(),
        !s.contains(x),
    ensures
        s.push(x).no_duplicates(),
{
    let p = s.push(x);
    assert forall|i: int, j: int| 0 <= i < p.len() && 0 <= j < p.len() && i != j implies p[i]
        != p[j] by {
        if i == s.len() {
            assert(s[j] != x);
        } else if j == s.len() {
            assert(s[i] != x);
        }
    }
}

proof fn lemma_unconfirmed(list: Seq<u32>, confirmed: Set<u32>)
    requires
        list.no_duplicates(),
    ensures
        unconfirmed(list, confirmed).no_duplicates(),
        forall|s: u32| #[trigger]
            unconfirmed(list, confirmed).contains(s) <==> list.contains(s) && !confirmed.contains(s),
    decreases list.len(),
{
    reveal(Seq::filter);
    if list.len() > 0 {
        let init = list.drop_last();
        let last = list.last();
        assert(init.no_duplicates());
        lemma_unconfirmed(init, confirmed);
        let u = unconfirmed(init, confirmed);
        assert(list =~= init.push(last));
        assert(!init.contains(last)) by {
            if init.contains(last) {
                let i = choose|i: int| 0 <= i < init.len() && init[i] == last;
                assert(list[i] == list[list.len() - 1]);
            }
        }
        if !confirmed.contains(last) {
            assert(!u.contains(last));
            lemma_push_no_dup(u, last);
        }
        assert forall|s: u32| #[trigger] unconfirmed(list, confirmed).contains(s)
            <==> list.contains(s) && !confirmed.contains(s) by {
            lemma_push_u32(init, last, s);
            lemma_push_u32(u, last, s);
        }
    }
}

/// Law: each serial is remembered in one world at a time.
pub proof fn remembered_in_one_world<E: Entity, S: SpatialIndex, D: StaticDataProvider>(
    r: &EntityRegistry<E, S, D>,
    s: u32,
    w: u8,
    v: u8,
)
    requires
        r.wf(),
        r.cached(w, s) is Some,
        r.cached(v, s) is Some,
    ensures
        w == v,
{
    assert(r.homed(s, w));
    assert(r.homed(s, v));
}

} // verus!

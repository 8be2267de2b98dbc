//! What one session knows: its world, the objects in view, those remembered, and
//! the packets to be sent again to whoever joins.

use std::sync::Arc;

use bytes::Bytes;
use vstd::prelude::*;

use super::staleness::DEFAULT_THRESHOLD_NANOS;
use super::visible_world::{
    lemma_outside, lemma_removed_leaves, lemma_removed_next, EntityView, VisibleView, VisibleWorld,
    WorldEntity,
};
use crate::collections::{lists_serials, serials_up};
use crate::ecumene::diff_overlay::{land_after, objects_after, DiffOverlay, LoadedDiff};
use crate::ecumene::entity_registry::{CacheMode, EntityRegistry, StalenessConfig};
use crate::ecumene::multi_spatial::{BBoxSpatialIndex, SpatialIndex};
use crate::ecumene::remembered_shapes::{inserted_stands_in_the_way, stands};
use crate::ecumene::shape_provider::ShapeProvider;
use crate::ecumene::tile_rect::TileRect;
use crate::packets::{GeneralInfo, HouseTile, MapDiffEntry, ObjectInfoSA, ServerPacket};
use crate::raw_bytes::{bytes_of, copy_bytes};
use crate::time::Duration;
use crate::vessel::entity::Entity;
use crate::vessel::static_data::{MultiPart, StaticDataProvider};
use crate::vessel::tile_shape::TileShape;

verus! {

/// What a session remembers.
pub type SessionRegistry<D> = EntityRegistry<WorldEntity, BBoxSpatialIndex, D>;

/// What one session knows.
pub struct SessionView<D: StaticDataProvider> {
    /// Index of the map that the player is on.
    pub current_world: u8,
    pub visible: VisibleWorld,
    /// Objects that are remembered beyond the view.
    pub registry: SessionRegistry<D>,
    /// Patches of the map that the server announced.
    pub diff_overlay: DiffOverlay,
    /// Where the map files are, if there are any.
    pub data_dir: Option<String>,
    /// The last announcement of features, to be sent again.
    pub last_enable_features: Option<Bytes>,
    /// The last announcement of patches, to be sent again.
    pub last_enable_map_diff: Option<Bytes>,
}

/// What the session needs before it can go on.
pub enum SessionRequest {
    Nothing,
    /// Patches are to be read from the map files, so many per world.
    LoadDiffs { entries: Vec<(u32, u32)> },
    /// The tiles of a house are to be unpacked on this foundation.
    DecodeHouse { serial: u32, world: u8, x_min: i16, y_min: i16, x_max: i16, y_max: i16 },
}

/// Whether an object is remembered in this mode.
pub open spec fn caches(mode: CacheMode, e: EntityView) -> bool {
    match mode {
        CacheMode::Disabled => false,
        CacheMode::MultisOnly => e.kind() is Multi,
        CacheMode::ItemsAndMultis => !(e.kind() is Mobile),
        CacheMode::All => true,
    }
}

/// How many patches of land and objects each world has.
pub open spec fn diff_entries(maps: Seq<MapDiffEntry>) -> Seq<(u32, u32)> {
    maps.map_values(|m: MapDiffEntry| (m.map_patches, m.static_patches))
}

/// The tiles of a house as parts that are there for all.
pub open spec fn house_parts(tiles: Seq<HouseTile>) -> Seq<MultiPart> {
    tiles.map_values(
        |t: HouseTile| MultiPart { tile_id: t.tile_id, x: t.x, y: t.y, z: t.z, flags: 1 },
    )
}

impl<D: StaticDataProvider> SessionView<D> {
    /// The parts are in order, and the session and its memory are in one world.
    pub open spec fn wf(&self) -> bool {
        &&& self.registry.wf()
        &&& self.visible@.wf()
        &&& self.diff_overlay.wf()
        &&& self.registry.current_world == self.current_world
    }

    /// All but what is seen and remembered is as before.
    pub open spec fn rest_kept(before: Self, after: Self) -> bool {
        &&& after.current_world == before.current_world
        &&& after.diff_overlay == before.diff_overlay
        &&& after.data_dir == before.data_dir
        &&& after.last_enable_features == before.last_enable_features
        &&& after.last_enable_map_diff == before.last_enable_map_diff
    }

    /// Nothing is remembered anew; what was announced is as before.
    pub open spec fn only_visible(before: Self, after: Self) -> bool {
        &&& Self::rest_kept(before, after)
        &&& after.registry == before.registry
    }

    /// After an object was looked at that may be one to remember.
    pub open spec fn noted(
        before: SessionRegistry<D>,
        after: SessionRegistry<D>,
        v: VisibleView,
        s: u32,
        world: u8,
    ) -> bool {
        if v.entities.contains_key(s) && caches(before.cache_mode, v.entities[s]) {
            EntityRegistry::inserted(before, after, v.entities[s].as_state(), world)
        } else {
            after == before
        }
    }

    /// After the objects of a list came into view, one after the other.
    pub open spec fn noted_list(
        before: SessionRegistry<D>,
        after: SessionRegistry<D>,
        v: VisibleView,
        list: Seq<ObjectInfoSA>,
        world: u8,
    ) -> bool
        decreases list.len(),
    {
        if list.len() == 0 {
            after == before
        } else {
            exists|mid: SessionRegistry<D>|
                {
                    &&& Self::noted_list(before, mid, v, list.drop_last(), world)
                    &&& #[trigger] Self::noted(
                        mid,
                        after,
                        v.with_list(list),
                        list.last().serial,
                        world,
                    )
                }
        }
    }

    /// A session around `(cx, cy)` without map files.
    pub fn new(cx: u16, cy: u16, view_range: u16) -> (s: Self)
        ensures
            s.wf(),
            s.starts(cx, cy, view_range),
            s.registry.static_data is None,
            s.data_dir is None,
    {
        SessionView {
            current_world: 0,
            visible: VisibleWorld::new(cx, cy, view_range),
            registry: EntityRegistry::new(None, 0, CacheMode::default()),
            diff_overlay: DiffOverlay::new(),
            data_dir: None,
            last_enable_features: None,
            last_enable_map_diff: None,
        }
    }

    /// How a session starts: nothing was seen or announced.
    pub open spec fn starts(&self, cx: u16, cy: u16, view_range: u16) -> bool {
        &&& self.current_world == 0
        &&& self.visible@ == (VisibleView {
            entities: Map::empty(),
            index: Map::empty(),
            containers: Map::empty(),
            view_rect: TileRect::view_spec(cx, cy, view_range),
            view_range,
        })
        &&& self.registry.cache_mode == CacheMode::MultisOnly
        &&& forall|w: u8, s: u32| (#[trigger] self.registry.cached(w, s)) is None
        &&& self.registry.stores@.dom() == Set::<u8>::empty()
        &&& self.registry.multi_defs@.dom() == Set::<u16>::empty()
        &&& self.registry.custom_defs@.dom() == Set::<u32>::empty()
        &&& self.registry.staleness_config == (StalenessConfig {
            items: false,
            multis: true,
            mobiles: false,
            threshold: Duration { nanos: DEFAULT_THRESHOLD_NANOS },
        })
        &&& !self.registry.staleness.armed
        &&& self.registry.staleness.confirmed@ == Set::<u32>::empty()
        &&& self.registry.staleness.threshold == self.registry.staleness_config.threshold
        &&& forall|w: u8| (#[trigger] self.diff_overlay.land(w)) is None
        &&& forall|w: u8| (#[trigger] self.diff_overlay.objects(w)) is None
        &&& self.last_enable_features is None
        &&& self.last_enable_map_diff is None
    }

    /// A session around `(cx, cy)` on known map data.
    pub fn with_static_data(cx: u16, cy: u16, view_range: u16, static_data: Arc<D>) -> (s: Self)
        requires
            static_data.wf(),
        ensures
            s.wf(),
            s.starts(cx, cy, view_range),
            s.registry.static_data == Some(static_data),
            s.data_dir is None,
    {
        SessionView {
            current_world: 0,
            visible: VisibleWorld::new(cx, cy, view_range),
            registry: EntityRegistry::new(Some(static_data), 0, CacheMode::default()),
            diff_overlay: DiffOverlay::new(),
            data_dir: None,
            last_enable_features: None,
            last_enable_map_diff: None,
        }
    }

    /// A session around `(cx, cy)` on known map data, with a place to read patches
    /// from.
    pub fn with_data_dir(
        cx: u16,
        cy: u16,
        view_range: u16,
        static_data: Arc<D>,
        data_dir: String,
    ) -> (s: Self)
        requires
            static_data.wf(),
        ensures
            s.wf(),
            s.starts(cx, cy, view_range),
            s.registry.static_data == Some(static_data),
            s.data_dir == Some(data_dir),
    {
        SessionView {
            current_world: 0,
            visible: VisibleWorld::new(cx, cy, view_range),
            registry: EntityRegistry::new(Some(static_data), 0, CacheMode::default()),
            diff_overlay: DiffOverlay::new(),
            data_dir: Some(data_dir),
            last_enable_features: None,
            last_enable_map_diff: None,
        }
    }

    pub fn set_data_dir(&mut self, data_dir: Option<String>)
        requires
            old(self).wf(),
        ensures
            final(self).wf(),
            *final(self) == (SessionView { data_dir, ..*old(self) }),
    {
        self.data_dir = data_dir;
    }

    pub fn data_dir(&self) -> (r: Option<&String>)
        ensures
            r is Some <==> self.data_dir is Some,
            r matches Some(d) ==> *d == self.data_dir->0,
    {
        self.data_dir.as_ref()
    }

    /// Whether an object is one to remember.
    fn should_cache(mode: CacheMode, entity: &WorldEntity) -> (b: bool)
        ensures
            b == caches(mode, entity@),
    {
        match mode {
            CacheMode::Disabled => false,
            CacheMode::MultisOnly => entity.is_multi(),
            CacheMode::ItemsAndMultis => !entity.is_mobile(),
            CacheMode::All => true,
        }
    }

    /// Remembers the object with this serial, if it is in view and one to remember.
    fn note(&mut self, serial: u32)
        requires
            old(self).wf(),
        ensures
            final(self).wf(),
            Self::rest_kept(*old(self), *final(self)),
            final(self).visible == old(self).visible,
            final(self).registry.static_data == old(self).registry.static_data,
            final(self).registry.cache_mode == old(self).registry.cache_mode,
            Self::noted(
                old(self).registry,
                final(self).registry,
                old(self).visible@,
                serial,
                old(self).current_world,
            ),
    {
        if let Some(entity) = self.visible.get(serial) {
            if Self::should_cache(self.registry.cache_mode(), entity) {
                self.registry.insert(entity, self.current_world);
            }
        }
    }

    pub fn view_rect(&self) -> (r: &TileRect)
        ensures
            *r == self.visible@.view_rect,
    {
        self.visible.view_rect()
    }

    pub fn view_range(&self) -> (r: u16)
        ensures
            r == self.visible@.view_range,
    {
        self.visible.view_range()
    }

    /// Whether a sweep of what was remembered in view took place, and what it
    /// left; `n` objects were forgotten.
    pub open spec fn swept(before: Self, after: Self, n: usize) -> bool {
        &&& Self::rest_kept(before, after)
        &&& after.visible == before.visible
        &&& (n == 0 && after.registry == before.registry) || (before.registry.staleness.armed
            && EntityRegistry::swept(
            before.registry,
            after.registry,
            before.visible@.view_rect,
            n,
        ))
        &&& before.registry.staleness.armed && before.registry.staleness.threshold.nanos == 0
            ==> EntityRegistry::swept(
            before.registry,
            after.registry,
            before.visible@.view_rect,
            n,
        )
    }

    /// Forgets what was remembered in view and not confirmed, once no news has come
    /// for a while. Returns how much was forgotten. Whether it is time depends on
    /// the clock, unless no time needs to pass; it never is while no confirmations are
    /// collected.
    pub fn sweep_stale(&mut self) -> (n: usize)
        requires
            old(self).wf(),
        ensures
            final(self).wf(),
            Self::swept(*old(self), *final(self), n),
            !old(self).registry.staleness.armed ==> n == 0 && final(self).registry == old(self).registry,
    {
        if !self.registry.should_sweep() {
            return 0;
        }
        let rect = *self.visible.view_rect();
        self.registry.sweep_stale(&rect)
    }
}

impl<D: StaticDataProvider> SessionView<D> {
    /// Whether the object is in view and one to remember.
    pub open spec fn remembers(&self, s: u32) -> bool {
        self.visible@.entities.contains_key(s) && caches(
            self.registry.cache_mode,
            self.visible@.entities[s],
        )
    }

    /// What the memory is once it was built anew from what is in view: of the
    /// current world it holds just the objects in view that are to be remembered,
    /// and these are remembered in no other world.
    pub open spec fn rebuilt(before: Self, after: Self) -> bool {
        let w0 = before.current_world;
        &&& Self::rest_kept(before, after)
        &&& after.visible == before.visible
        &&& after.registry.static_data == before.registry.static_data
        &&& after.registry.cache_mode == before.registry.cache_mode
        &&& forall|w: u8, s: u32| #[trigger]
            after.registry.cached(w, s) == if before.remembers(s) {
                if w == w0 {
                    Some(before.visible@.entities[s].as_state())
                } else {
                    None
                }
            } else if w == w0 {
                None
            } else {
                before.registry.cached(w, s)
            }
        &&& forall|w: u8, s: u32| #[trigger]
            after.registry.bbox(w, s) == if before.remembers(s) {
                let e = before.visible@.entities[s].as_state();
                if w == w0 && e.multi && before.registry.gets_shapes(e) {
                    Some(before.registry.rect_for(e))
                } else {
                    None
                }
            } else if w == w0 {
                None
            } else {
                before.registry.bbox(w, s)
            }
        &&& forall|w: u8, s: u32, x: u16, y: u16| #[trigger]
            after.registry.found_at(w, s, x, y) <==> if before.remembers(s) {
                let e = before.visible@.entities[s].as_state();
                w == w0 && before.registry.gets_shapes(e) && (
                <BBoxSpatialIndex as SpatialIndex>::near(before.registry.rect_for(e), x, y))
            } else {
                w != w0 && before.registry.found_at(w, s, x, y)
            }
        &&& forall|w: u8, s: u32, r: TileRect| #[trigger]
            after.registry.found_in(w, s, r) <==> if before.remembers(s) {
                let e = before.visible@.entities[s].as_state();
                w == w0 && before.registry.gets_shapes(e) && (
                <BBoxSpatialIndex as SpatialIndex>::near_rect(before.registry.rect_for(e), r))
            } else {
                w != w0 && before.registry.found_in(w, s, r)
            }
        &&& forall|g: u16| #[trigger]
            after.registry.multi_defs@.contains_key(g) <==> before.registry.multi_defs@.contains_key(
                g,
            ) || (before.registry.static_data is Some && before.needs_def(g))
        &&& forall|g: u16| #[trigger]
            before.registry.multi_defs@.contains_key(g) ==> after.registry.multi_defs@[g]
                == before.registry.multi_defs@[g]
        &&& forall|s: u32| #[trigger]
            after.registry.custom_defs@.contains_key(s)
                <==> before.registry.custom_defs@.contains_key(s) && before.registry.cached(
                w0,
                s,
            ) is None && !before.remembers(s)
        &&& forall|s: u32| #[trigger]
            after.registry.custom_defs@.contains_key(s) ==> after.registry.custom_defs@[s]
                == before.registry.custom_defs@[s]
        &&& after.registry.staleness_config == before.registry.staleness_config
        &&& SessionRegistry::<D>::rested(
            before.registry.staleness,
            after.registry.staleness,
        )
    }

    /// Whether a serial is that of a multi-object with this graphic, in view and one to
    /// remember.
    pub open spec fn needs_def_for(&self, s: u32, g: u16) -> bool {
        &&& self.remembers(s)
        &&& self.visible@.entities[s].as_state().multi
        &&& self.visible@.entities[s].as_state().graphic == g
    }

    /// Whether a multi-object with this graphic is in view and one to remember.
    pub open spec fn needs_def(&self, g: u16) -> bool {
        exists|s: u32| #[trigger] self.needs_def_for(s, g)
    }

    /// Builds the memory of the current world anew from what is in view.
    pub fn rebuild_registry(&mut self)
        requires
            old(self).wf(),
        ensures
            final(self).wf(),
            Self::rebuilt(*old(self), *final(self)),
    {
        let ghost before = *self;
        let ghost w0 = self.current_world;
        self.registry.clear_world(self.current_world);
        let ghost cleared = self.registry;
        let ghost v = self.visible@;
        let ghost all = serials_up(v.entities.dom());
        let entities = self.visible.iter();
        let mut i: usize = 0;
        proof {
            assert forall|w: u8, s: u32| #[trigger] cleared.bbox(w, s) == if w == w0 {
                None
            } else {
                before.registry.bbox(w, s)
            } by {}
            assert forall|w: u8, s: u32, x: u16, y: u16| #[trigger] cleared.found_at(w, s, x, y)
                <==> w != w0 && before.registry.found_at(w, s, x, y) by {}
            assert forall|w: u8, s: u32, r: TileRect| #[trigger] cleared.found_in(w, s, r) <==> w
                != w0 && before.registry.found_in(w, s, r) by {}
        }
        while i < entities.len()
            invariant
                i <= entities@.len(),
                w0 == self.current_world,
                Self::rest_kept(before, *self),
                self.visible == before.visible,
                v == self.visible@,
                v.wf(),
                all == serials_up(v.entities.dom()),
                lists_serials(all, v.entities.dom()),
                entities@.len() == all.len(),
                forall|j: int|
                    0 <= j < entities@.len() ==> (#[trigger] entities@[j])@ == v.entities[all[j]],
                self.registry.wf(),
                self.registry.current_world == w0,
                cleared.static_data == before.registry.static_data,
                cleared.cache_mode == before.registry.cache_mode,
                self.registry.static_data == cleared.static_data,
                self.registry.cache_mode == cleared.cache_mode,
                forall|w: u8, s: u32| #[trigger]
                    self.registry.cached(w, s) == if all.take(i as int).contains(s)
                        && before.remembers(s) {
                        if w == w0 {
                            Some(v.entities[s].as_state())
                        } else {
                            None
                        }
                    } else {
                        cleared.cached(w, s)
                    },
                forall|w: u8, s: u32| #[trigger]
                    self.registry.bbox(w, s) == if all.take(i as int).contains(s)
                        && before.remembers(s) {
                        let e = v.entities[s].as_state();
                        if w == w0 && e.multi && before.registry.gets_shapes(e) {
                            Some(before.registry.rect_for(e))
                        } else {
                            None
                        }
                    } else {
                        cleared.bbox(w, s)
                    },
                forall|w: u8, s: u32, x: u16, y: u16| #[trigger]
                    self.registry.found_at(w, s, x, y) <==> if all.take(i as int).contains(s)
                        && before.remembers(s) {
                        let e = v.entities[s].as_state();
                        w == w0 && before.registry.gets_shapes(e) && (
                        <BBoxSpatialIndex as SpatialIndex>::near(
                            before.registry.rect_for(e),
                            x,
                            y,
                        ))
                    } else {
                        cleared.found_at(w, s, x, y)
                    },
                forall|w: u8, s: u32, r: TileRect| #[trigger]
                    self.registry.found_in(w, s, r) <==> if all.take(i as int).contains(s)
                        && before.remembers(s) {
                        let e = v.entities[s].as_state();
                        w == w0 && before.registry.gets_shapes(e) && (
                        <BBoxSpatialIndex as SpatialIndex>::near_rect(
                            before.registry.rect_for(e),
                            r,
                        ))
                    } else {
                        cleared.found_in(w, s, r)
                    },
                cleared.multi_defs == before.registry.multi_defs,
                forall|g: u16| #[trigger]
                    self.registry.multi_defs@.contains_key(g) <==> cleared.multi_defs@.contains_key(
                        g,
                    ) || (cleared.static_data is Some && exists|s: u32|
                        #[trigger] before.needs_def_for(s, g) && all.take(i as int).contains(s)),
                forall|g: u16| #[trigger]
                    cleared.multi_defs@.contains_key(g) ==> self.registry.multi_defs@[g]
                        == cleared.multi_defs@[g],
                forall|s: u32| #[trigger]
                    self.registry.custom_defs@.contains_key(s)
                        <==> cleared.custom_defs@.contains_key(s) && !(all.take(i as int).contains(s)
                        && before.remembers(s)),
                forall|s: u32| #[trigger]
                    self.registry.custom_defs@.contains_key(s) ==> self.registry.custom_defs@[s]
                        == cleared.custom_defs@[s],
                self.registry.staleness_config == cleared.staleness_config,
                !cleared.staleness.armed,
                self.registry.staleness == cleared.staleness,
            decreases entities@.len() - i,
        {
            let entity = entities[i];
            let ghost s0 = all[i as int];
            let ghost mid = self.registry;
            proof {
                assert(entities@[i as int]@ == v.entities[s0]);
                assert(all.contains(s0));
                assert(v.well_kept(s0));
                assert forall|s: u32| #[trigger] all.take(i + 1).contains(s) <==> all.take(
                    i as int,
                ).contains(s) || s == s0 by {
                    lemma_take_next(all, i as int, s);
                }
                assert(!all.take(i as int).contains(s0));
            }
            if Self::should_cache(self.registry.cache_mode(), entity) {
                self.registry.insert(entity, self.current_world);
                assert(before.remembers(s0));
            } else {
                assert(!before.remembers(s0));
            }
            proof {
                assert forall|g: u16| #[trigger] self.registry.multi_defs@.contains_key(g)
                    <==> cleared.multi_defs@.contains_key(g) || (cleared.static_data is Some
                    && exists|s: u32|
                    #[trigger] before.needs_def_for(s, g) && all.take(i + 1).contains(s)) by {
                    if mid.multi_defs@.contains_key(g) && !cleared.multi_defs@.contains_key(g) {
                        let s = choose|s: u32|
                            #[trigger] before.needs_def_for(s, g) && all.take(i as int).contains(s);
                        assert(all.take(i + 1).contains(s));
                    }
                    if cleared.static_data is Some && before.needs_def_for(s0, g) {
                        assert(self.registry.multi_defs@.contains_key(g));
                    }
                    if exists|s: u32|
                        #[trigger] before.needs_def_for(s, g) && all.take(i + 1).contains(s) {
                        let s = choose|s: u32|
                            #[trigger] before.needs_def_for(s, g) && all.take(i + 1).contains(s);
                        if s != s0 {
                            assert(before.needs_def_for(s, g) && all.take(i as int).contains(s));
                        }
                    }
                    if self.registry.multi_defs@.contains_key(g) && !mid.multi_defs@.contains_key(
                        g,
                    ) {
                        assert(before.needs_def_for(s0, g));
                        assert(all.take(i + 1).contains(s0));
                    }
                }
            }
            i += 1;
        }
        proof {
            assert(all.take(i as int) =~= all);
            assert forall|s: u32| before.remembers(s) implies all.contains(s) by {
                assert(v.entities.dom().contains(s));
            }
            assert forall|g: u16| #[trigger] self.registry.multi_defs@.contains_key(g)
                <==> before.registry.multi_defs@.contains_key(g) || (
            before.registry.static_data is Some && before.needs_def(g)) by {
                if before.needs_def(g) {
                    let s = choose|s: u32| #[trigger] before.needs_def_for(s, g);
                    assert(all.take(i as int).contains(s));
                }
            }
        }
    }

    /// Replaces the map data, and builds the memory of the current world anew.
    pub fn set_static_data(&mut self, static_data: Option<Arc<D>>)
        requires
            old(self).wf(),
            static_data matches Some(d) ==> d.wf(),
        ensures
            final(self).wf(),
            final(self).registry.static_data == static_data,
            final(self).visible == old(self).visible,
            Self::rest_kept(*old(self), *final(self)),
            final(self).registry.cache_mode == old(self).registry.cache_mode,
            forall|w: u8, s: u32| #[trigger]
                final(self).registry.cached(w, s) == if old(self).remembers(s) {
                    if w == old(self).current_world {
                        Some(old(self).visible@.entities[s].as_state())
                    } else {
                        None
                    }
                } else if w == old(self).current_world {
                    None
                } else {
                    old(self).registry.cached(w, s)
                },
            forall|w: u8, s: u32| #[trigger]
                final(self).registry.bbox(w, s) == if w == old(self).current_world && old(self).remembers(s) && old(self).visible@.entities[s].kind() is Multi
                    && static_data is Some {
                    Some(
                        final(self).registry.rect_for(old(self).visible@.entities[s].as_state()),
                    )
                } else {
                    None
                },
            exists|mid: Self|
                {
                    &&& mid == (SessionView { registry: mid.registry, ..*old(self) })
                    &&& EntityRegistry::remapped(old(self).registry, mid.registry, static_data)
                    &&& #[trigger] Self::rebuilt(mid, *final(self))
                },
    {
        self.registry.set_static_data(static_data);
        let ghost mid = *self;
        self.rebuild_registry();
        assert(Self::rebuilt(mid, *self));
    }

    /// Whether an object outside the view stays: a multi-object that reaches into it.
    pub open spec fn reaches_in(&self, s: u32, rect: TileRect) -> bool {
        self.visible@.entities[s].kind() is Multi && self.registry.within(s, rect)
    }

    /// The objects that leave the view, in ascending order of their serials.
    pub open spec fn leaving(&self, rect: TileRect) -> Seq<u32> {
        self.visible@.outside(rect).filter(|s: u32| !self.reaches_in(s, rect))
    }

    /// Moves the view and drops the objects that it no longer holds; multi-objects
    /// stay as long as they reach into it. What was remembered stays remembered.
    /// Returns what was not in view before; if there is any, confirmations are
    /// collected for what is remembered there.
    pub fn update_view(&mut self, cx: u16, cy: u16) -> (strips: Vec<TileRect>)
        requires
            old(self).wf(),
        ensures
            final(self).wf(),
            Self::rest_kept(*old(self), *final(self)),
            ({
                let rect = TileRect::view_spec(cx, cy, old(self).visible@.view_range);
                let moved = VisibleView { view_rect: rect, ..old(self).visible@ };
                &&& strips@ == rect.difference_spec(old(self).visible@.view_rect)
                &&& moved.removed_all(final(self).visible@, old(self).leaving(rect))
                &&& final(self).visible@.view_rect == rect
                &&& forall|s: u32|
                    !old(self).visible@.index.contains_key(s) ==> (#[trigger] final(self).visible@.entities.contains_key(s) <==> old(self).visible@.entities.contains_key(s) && (rect.has(
                        old(self).visible@.entities[s].x() as int,
                        old(self).visible@.entities[s].y() as int,
                    ) || old(self).reaches_in(s, rect)))
            }),
            strips@.len() == 0 ==> final(self).registry == old(self).registry,
            strips@.len() > 0 ==> {
                &&& SessionRegistry::<D>::rearmed(
                    old(self).registry.staleness,
                    final(self).registry.staleness,
                )
                &&& final(self).registry == (EntityRegistry {
                    staleness: final(self).registry.staleness,
                    ..old(self).registry
                })
            },
    {
        let ghost before = *self;
        let (rect, strips) = self.visible.set_view_center(cx, cy);
        let ghost moved = self.visible@;
        let outside = self.visible.serials_outside_rect(&rect);
        let ghost p = |s: u32| !before.reaches_in(s, rect);
        let mut i: usize = 0;
        proof {
            lemma_outside(moved, rect);
            assert(moved.entities == before.visible@.entities);
            assert(outside@ == before.visible@.outside(rect));
            reveal(Seq::filter);
            assert(outside@.take(0) =~= Seq::<u32>::empty());
        }
        while i < outside.len()
            invariant
                i <= outside@.len(),
                outside@.no_duplicates(),
                forall|s: u32| #[trigger]
                    outside@.contains(s) <==> moved.entities.contains_key(s) && !rect.has(
                        moved.entities[s].x() as int,
                        moved.entities[s].y() as int,
                    ),
                p == (|s: u32| !before.reaches_in(s, rect)),
                moved.entities == before.visible@.entities,
                moved.index == before.visible@.index,
                Self::rest_kept(before, *self),
                self.registry == before.registry,
                self.registry.wf(),
                self.diff_overlay.wf(),
                self.registry.current_world == self.current_world,
                self.visible@.wf(),
                moved.removed_all(self.visible@, outside@.take(i as int).filter(p)),
                self.visible@.view_rect == moved.view_rect,
                forall|s: u32| #[trigger]
                    self.visible@.entities.contains_key(s) ==> moved.entities.contains_key(s)
                        && self.visible@.entities[s].kind() == moved.entities[s].kind(),
                forall|s: u32|
                    !outside@.take(i as int).contains(s) || before.reaches_in(s, rect) ==> (
                    #[trigger] self.visible@.entities.contains_key(s)
                        <==> moved.entities.contains_key(s)),
                forall|s: u32|
                    outside@.take(i as int).contains(s) && !before.reaches_in(s, rect)
                        && !moved.index.contains_key(s)
                        ==> !#[trigger] self.visible@.entities.contains_key(s),
                forall|s: u32| #[trigger]
                    self.visible@.index.contains_key(s) ==> moved.index.contains_key(s),
            decreases outside@.len() - i,
        {
            let serial: u32 = outside[i];
            let ghost mid = self.visible@;
            proof {
                reveal(Seq::filter);
                let post = outside@.take(i + 1);
                assert(post.drop_last() =~= outside@.take(i as int));
                assert forall|s: u32| #[trigger] post.contains(s) <==> outside@.take(
                    i as int,
                ).contains(s) || s == serial by {
                    lemma_take_next(outside@, i as int, s);
                }
                assert(outside@.contains(serial));
                assert(!outside@.take(i as int).contains(serial));
                assert(mid.entities.contains_key(serial));
            }
            let stays = match self.visible.get(serial) {
                Some(entity) => entity.is_multi() && self.registry.serial_in_rect(serial, &rect),
                None => false,
            };
            assert(stays == before.reaches_in(serial, rect));
            if !stays {
                self.visible.remove(serial);
                proof {
                    lemma_removed_leaves(mid, self.visible@, serial);
                    let pre = outside@.take(i as int).filter(p);
                    let post = outside@.take(i + 1).filter(p);
                    assert(post == pre.push(serial));
                    lemma_removed_next(moved, mid, self.visible@, pre, serial);
                }
            } else {
                assert(outside@.take(i + 1).filter(p) == outside@.take(i as int).filter(p));
            }
            i += 1;
        }
        proof {
            assert(outside@.take(i as int) =~= outside@);
        }
        if strips.len() > 0 {
            self.registry.arm_staleness();
        }
        strips
    }
}

proof fn lemma_take_next(l: Seq<u32>, i: int, s: u32)
    requires
        0 <= i < l.len(),
    ensures
        l.take(i + 1).contains(s) <==> l.take(i).contains(s) || s == l[i],
{
    let pre = l.take(i);
    let post = l.take(i + 1);
    if post.contains(s) {
        let j = choose|j: int| 0 <= j < post.len() && post[j] == s;
        if j < i {
            assert(pre[j] == s);
        }
    }
    if pre.contains(s) {
        let j = choose|j: int| 0 <= j < pre.len() && pre[j] == s;
        assert(post[j] == s);
    }
    assert(post[i] == l[i]);
}

impl<D: StaticDataProvider> SessionView<D> {
    /// Whether `after` is what a packet of the server leaves, before any sweep.
    /// Announcements of features and containers that are opened are read from the
    /// bytes.
    pub open spec fn ingests(
        before: Self,
        after: Self,
        data: Seq<u8>,
        packet: ServerPacket,
    ) -> bool {
        let v = before.visible@;
        let w = before.current_world;
        if data[0] == 0xB9 {
            &&& after.last_enable_features matches Some(b) && bytes_of(b) == data
            &&& after == (SessionView { last_enable_features: after.last_enable_features, ..before })
        } else if data[0] == 0x24 {
            &&& Self::only_visible(before, after)
            &&& v.takes(after.visible@, data, packet)
        } else {
            match packet {
                ServerPacket::GeneralInfo(GeneralInfo::SetMap { world }) => {
                    &&& after.current_world == world
                    &&& after.diff_overlay == before.diff_overlay
                    &&& after.data_dir == before.data_dir
                    &&& after.last_enable_features == before.last_enable_features
                    &&& after.last_enable_map_diff == before.last_enable_map_diff
                    &&& after.visible@ == (VisibleView {
                        entities: Map::empty(),
                        index: Map::empty(),
                        containers: Map::empty(),
                        ..v
                    })
                    &&& EntityRegistry::switched(before.registry, after.registry, world)
                },
                ServerPacket::GeneralInfo(GeneralInfo::EnableMapDiff { maps }) => {
                    &&& after.last_enable_map_diff matches Some(b) && bytes_of(b) == data
                    &&& after == (SessionView {
                        last_enable_map_diff: after.last_enable_map_diff,
                        ..before
                    })
                },
                ServerPacket::ClientViewRange { range } => {
                    &&& Self::only_visible(before, after)
                    &&& after.visible@ == (VisibleView { view_range: range as u16, ..v })
                },
                ServerPacket::ObjectInfo(obj) => {
                    &&& Self::rest_kept(before, after)
                    &&& after.visible@ == v.with_classic(obj)
                    &&& Self::noted(
                        before.registry,
                        after.registry,
                        after.visible@,
                        obj.object_id,
                        w,
                    )
                },
                ServerPacket::ObjectInfoSA(obj) => {
                    &&& Self::rest_kept(before, after)
                    &&& after.visible@ == v.with_sa(obj)
                    &&& Self::noted(before.registry, after.registry, after.visible@, obj.serial, w)
                },
                ServerPacket::PacketList(list) => {
                    &&& Self::rest_kept(before, after)
                    &&& after.visible@ == v.with_list(list@)
                    &&& Self::noted_list(before.registry, after.registry, v, list@, w)
                },
                ServerPacket::DrawMobile(mob) => {
                    &&& Self::rest_kept(before, after)
                    &&& after.visible@ == v.with_mobile(mob@)
                    &&& Self::noted(before.registry, after.registry, after.visible@, mob.serial, w)
                },
                ServerPacket::DrawMobileExtended(mob) => {
                    &&& Self::rest_kept(before, after)
                    &&& after.visible@ == v.with_mobile(mob.plain())
                    &&& Self::noted(before.registry, after.registry, after.visible@, mob.serial, w)
                },
                ServerPacket::UpdateMobile(upd) => {
                    &&& Self::rest_kept(before, after)
                    &&& after.visible@ == v.updated(upd)
                    &&& Self::noted(before.registry, after.registry, after.visible@, upd.serial, w)
                },
                ServerPacket::DeleteObject { serial } => {
                    &&& Self::rest_kept(before, after)
                    &&& v.removed(after.visible@, serial)
                    &&& if v.has_mobile(serial) {
                        after.registry == before.registry
                    } else {
                        EntityRegistry::forgotten(before.registry, after.registry, serial)
                    }
                },
                ServerPacket::SendCustomHouse(house) => {
                    &&& Self::rest_kept(before, after)
                    &&& after.visible == before.visible
                    &&& after.registry == (EntityRegistry {
                        multi_defs: after.registry.multi_defs,
                        ..before.registry
                    })
                    &&& forall|w: u8|
                        (#[trigger] before.registry.cached(w, house.house_serial)) is Some
                            && before.registry.static_data is Some ==> {
                            let g = (before.registry.cached(w, house.house_serial)->0).graphic;
                            &&& after.registry.multi_defs@.contains_key(g)
                            &&& after.registry.multi_defs@ == before.registry.multi_defs@.insert(
                                g,
                                after.registry.multi_defs@[g],
                            )
                            &&& before.registry.multi_defs@.contains_key(g)
                                ==> after.registry.multi_defs@ == before.registry.multi_defs@
                        }
                    &&& (before.registry.static_data is None || forall|w: u8|
                        (#[trigger] before.registry.cached(w, house.house_serial)) is None)
                        ==> after.registry.multi_defs@ == before.registry.multi_defs@
                },
                _ => {
                    &&& Self::only_visible(before, after)
                    &&& v.takes(after.visible@, data, packet)
                },
            }
        }
    }

    /// Whether a request is what the session needs after a packet: patches, where
    /// there is a place to read them from, or the tiles of a house that is
    /// remembered.
    pub open spec fn requests(
        before: Self,
        after: Self,
        data: Seq<u8>,
        packet: ServerPacket,
        r: SessionRequest,
    ) -> bool {
        if data.len() == 0 || data[0] == 0xB9 || data[0] == 0x24 {
            r is Nothing
        } else {
            match packet {
                ServerPacket::GeneralInfo(GeneralInfo::EnableMapDiff { maps }) => match r {
                    SessionRequest::LoadDiffs { entries } => before.data_dir is Some && entries@
                        == diff_entries(maps@),
                    SessionRequest::Nothing => before.data_dir is None,
                    _ => false,
                },
                ServerPacket::SendCustomHouse(house) => match r {
                    SessionRequest::DecodeHouse { serial, world, x_min, y_min, x_max, y_max } => {
                        &&& serial == house.house_serial
                        &&& before.registry.cached(world, serial) is Some
                        &&& if before.registry.static_data is Some {
                            let e = after.registry.multi_defs@[(before.registry.cached(
                                world,
                                serial,
                            )->0).graphic].extent;
                            (x_min, y_min, x_max, y_max) == (e.x_min, e.y_min, e.x_max, e.y_max)
                        } else {
                            (x_min, y_min, x_max, y_max) == (0i16, 0i16, 0i16, 0i16)
                        }
                    },
                    SessionRequest::Nothing => forall|w: u8|
                        (#[trigger] before.registry.cached(w, house.house_serial)) is None,
                    _ => false,
                },
                _ => r is Nothing,
            }
        }
    }

    /// Whether `after` is what a packet leaves once a sweep had its chance.
    pub open spec fn ingested(
        before: Self,
        after: Self,
        data: Seq<u8>,
        packet: ServerPacket,
    ) -> bool {
        exists|mid: Self, n: usize|
            #![trigger Self::swept(mid, after, n)]
            Self::ingests(before, mid, data, packet) && Self::swept(mid, after, n)
    }

    /// Takes a packet of the server: its bytes and what a codec read out of them.
    /// A sweep follows, unless the session needs something first; it then takes
    /// place once that was provided.
    pub fn ingest_packet(&mut self, data: &[u8], packet: &ServerPacket) -> (r: SessionRequest)
        requires
            old(self).wf(),
        ensures
            final(self).wf(),
            final(self).registry.static_data == old(self).registry.static_data,
            data@.len() == 0 ==> *final(self) == *old(self),
            Self::requests(*old(self), *final(self), data@, *packet, r),
            data@.len() > 0 && r is Nothing ==> Self::ingested(
                *old(self),
                *final(self),
                data@,
                *packet,
            ),
            data@.len() > 0 && !(r is Nothing) ==> Self::ingests(
                *old(self),
                *final(self),
                data@,
                *packet,
            ),
    {
        if data.len() == 0 {
            return SessionRequest::Nothing;
        }
        let ghost before = *self;
        let r = self.apply_packet(data, packet);
        if let SessionRequest::Nothing = r {
            let ghost mid = *self;
            let n: usize = self.sweep_stale();
            assert(Self::swept(mid, *self, n));
        }
        r
    }

    /// Takes a packet of the server, without a sweep.
    fn apply_packet(&mut self, data: &[u8], packet: &ServerPacket) -> (r: SessionRequest)
        requires
            old(self).wf(),
            data@.len() > 0,
        ensures
            final(self).wf(),
            final(self).registry.static_data == old(self).registry.static_data,
            Self::ingests(*old(self), *final(self), data@, *packet),
            Self::requests(*old(self), *final(self), data@, *packet, r),
    {
        if data[0] == 0xB9 {
            self.last_enable_features = Some(copy_bytes(data));
            return SessionRequest::Nothing;
        }
        if data[0] == 0x24 {
            self.visible.ingest_packet(data, packet);
            return SessionRequest::Nothing;
        }
        match packet {
            ServerPacket::GeneralInfo(GeneralInfo::SetMap { world }) => {
                self.current_world = *world;
                self.visible.clear();
                self.registry.set_world(*world);
            },
            ServerPacket::GeneralInfo(GeneralInfo::EnableMapDiff { maps }) => {
                self.last_enable_map_diff = Some(copy_bytes(data));
                if self.data_dir.is_some() {
                    return SessionRequest::LoadDiffs { entries: list_entries(maps) };
                }
            },
            ServerPacket::ClientViewRange { range } => {
                self.visible.set_view_range(*range as u16);
            },
            ServerPacket::ObjectInfo(obj) => {
                self.visible.upsert_object_info(obj);
                self.note(obj.object_id);
            },
            ServerPacket::ObjectInfoSA(obj) => {
                self.visible.upsert_object_info_sa(obj);
                self.note(obj.serial);
            },
            ServerPacket::PacketList(list) => {
                self.take_list(list);
            },
            ServerPacket::DrawMobile(mob) => {
                self.visible.upsert_draw_mobile(mob);
                self.note(mob.serial);
            },
            ServerPacket::DrawMobileExtended(mob) => {
                self.visible.upsert_draw_mobile_ext(mob);
                self.note(mob.serial);
            },
            ServerPacket::UpdateMobile(upd) => {
                self.visible.apply_update_mobile(upd);
                self.note(upd.serial);
            },
            ServerPacket::DeleteObject { serial } => {
                let was_mobile = match self.visible.get(*serial) {
                    Some(e) => e.is_mobile(),
                    None => false,
                };
                self.visible.remove(*serial);
                if was_mobile {
                    self.registry.mark_hidden(*serial);
                } else {
                    self.registry.remove(*serial);
                }
            },
            ServerPacket::SendCustomHouse(house) => {
                return self.frame_house(house.house_serial);
            },
            _ => {
                self.visible.ingest_packet(data, packet);
            },
        }
        SessionRequest::Nothing
    }

    /// Takes the objects of a list, one after the other.
    fn take_list(&mut self, list: &Vec<ObjectInfoSA>)
        requires
            old(self).wf(),
        ensures
            final(self).wf(),
            final(self).registry.static_data == old(self).registry.static_data,
            Self::rest_kept(*old(self), *final(self)),
            final(self).visible@ == old(self).visible@.with_list(list@),
            Self::noted_list(
                old(self).registry,
                final(self).registry,
                old(self).visible@,
                list@,
                old(self).current_world,
            ),
    {
        let ghost before = *self;
        let ghost v = self.visible@;
        let mut i: usize = 0;
        assert(list@.take(0) =~= Seq::<ObjectInfoSA>::empty());
        while i < list.len()
            invariant
                i <= list@.len(),
                self.wf(),
                v == before.visible@,
                self.registry.static_data == before.registry.static_data,
                Self::rest_kept(before, *self),
                self.visible@ == v.with_list(list@.take(i as int)),
                Self::noted_list(
                    before.registry,
                    self.registry,
                    v,
                    list@.take(i as int),
                    before.current_world,
                ),
            decreases list@.len() - i,
        {
            let ghost mid = self.registry;
            let ghost post = list@.take(i + 1);
            assert(post.drop_last() =~= list@.take(i as int));
            self.visible.upsert_object_info_sa(&list[i]);
            assert(self.visible@ == v.with_list(post));
            self.note(list[i].serial);
            assert(Self::noted(
                mid,
                self.registry,
                v.with_list(post),
                post.last().serial,
                before.current_world,
            ));
            i += 1;
        }
        assert(list@.take(i as int) =~= list@);
    }

    /// What is needed to unpack the tiles of a house that is remembered.
    fn frame_house(&mut self, serial: u32) -> (r: SessionRequest)
        requires
            old(self).wf(),
        ensures
            final(self).wf(),
            Self::rest_kept(*old(self), *final(self)),
            final(self).visible == old(self).visible,
            final(self).registry == (EntityRegistry {
                multi_defs: final(self).registry.multi_defs,
                ..old(self).registry
            }),
            match r {
                SessionRequest::DecodeHouse { serial: s, world, x_min, y_min, x_max, y_max } => {
                    let g = (old(self).registry.cached(world, serial)->0).graphic;
                    &&& s == serial
                    &&& old(self).registry.cached(world, serial) is Some
                    &&& forall|w: u8|
                        (#[trigger] old(self).registry.cached(w, serial)) is Some ==> w == world
                    &&& if old(self).registry.static_data is Some {
                        &&& final(self).registry.multi_defs@.contains_key(g)
                        &&& final(self).registry.multi_defs@ == old(self).registry.multi_defs@.insert(g, final(self).registry.multi_defs@[g])
                        &&& old(self).registry.multi_defs@.contains_key(g)
                            ==> final(self).registry.multi_defs@ == old(self).registry.multi_defs@
                        &&& (x_min, y_min, x_max, y_max) == {
                            let e = final(self).registry.multi_defs@[g].extent;
                            (e.x_min, e.y_min, e.x_max, e.y_max)
                        }
                    } else {
                        &&& final(self).registry.multi_defs@ == old(self).registry.multi_defs@
                        &&& (x_min, y_min, x_max, y_max) == (0i16, 0i16, 0i16, 0i16)
                    }
                },
                SessionRequest::Nothing => {
                    &&& forall|w: u8|
                        (#[trigger] old(self).registry.cached(w, serial)) is None
                    &&& *final(self) == *old(self)
                },
                _ => false,
            },
    {
        let ghost before = *self;
        let (world, graphic) = match self.registry.get_any(serial) {
            Some((w, e)) => (w, e.graphic()),
            None => {
                return SessionRequest::Nothing;
            },
        };
        proof {
            assert forall|w: u8| (#[trigger] before.registry.cached(w, serial)) is Some implies w
                == world by {
                assert(before.registry.homed(serial, w));
                assert(before.registry.homed(serial, world));
            }
        }
        match self.registry.resolve_multi_def(graphic) {
            Some(def) => SessionRequest::DecodeHouse {
                serial,
                world,
                x_min: def.extent.x_min,
                y_min: def.extent.y_min,
                x_max: def.extent.x_max,
                y_max: def.extent.y_max,
            },
            None => SessionRequest::DecodeHouse {
                serial,
                world,
                x_min: 0,
                y_min: 0,
                x_max: 0,
                y_max: 0,
            },
        }
    }
}

fn list_entries(maps: &Vec<MapDiffEntry>) -> (r: Vec<(u32, u32)>)
    ensures
        r@ == diff_entries(maps@),
{
    let mut r: Vec<(u32, u32)> = Vec::new();
    let mut i: usize = 0;
    while i < maps.len()
        invariant
            i <= maps@.len(),
            r@.len() == i,
            forall|j: int|
                0 <= j < i ==> (#[trigger] r@[j]) == (maps@[j].map_patches, maps@[j].static_patches),
        decreases maps@.len() - i,
    {
        r.push((maps[i].map_patches, maps[i].static_patches));
        i += 1;
    }
    assert(r@ =~= diff_entries(maps@));
    r
}

fn list_parts(tiles: &Vec<HouseTile>) -> (r: Vec<MultiPart>)
    ensures
        r@ == house_parts(tiles@),
{
    let mut r: Vec<MultiPart> = Vec::new();
    let mut i: usize = 0;
    while i < tiles.len()
        invariant
            i <= tiles@.len(),
            r@.len() == i,
            forall|j: int|
                0 <= j < i ==> (#[trigger] r@[j]) == (MultiPart {
                    tile_id: tiles@[j].tile_id,
                    x: tiles@[j].x,
                    y: tiles@[j].y,
                    z: tiles@[j].z,
                    flags: 1,
                }),
        decreases tiles@.len() - i,
    {
        let t = tiles[i];
        r.push(MultiPart { tile_id: t.tile_id, x: t.x, y: t.y, z: t.z, flags: 1 });
        i += 1;
    }
    assert(r@ =~= house_parts(tiles@));
    r
}

impl<D: StaticDataProvider> SessionView<D> {
    /// After the tiles of a house were laid over it, if they could be unpacked.
    pub open spec fn housed(
        before: Self,
        after: Self,
        serial: u32,
        world: u8,
        tiles: Option<Seq<HouseTile>>,
    ) -> bool {
        &&& Self::rest_kept(before, after)
        &&& after.visible == before.visible
        &&& match tiles {
            Some(t) => EntityRegistry::customized(
                before.registry,
                after.registry,
                serial,
                house_parts(t),
                world,
            ),
            None => after.registry == before.registry,
        }
    }

    /// Provides the tiles of a house, `None` if they could not be unpacked. A sweep
    /// follows.
    pub fn provide_house(&mut self, serial: u32, world: u8, tiles: Option<&Vec<HouseTile>>)
        requires
            old(self).wf(),
        ensures
            final(self).wf(),
            exists|mid: Self, n: usize|
                #![trigger Self::swept(mid, *final(self), n)]
                Self::housed(
                    *old(self),
                    mid,
                    serial,
                    world,
                    match tiles {
                        Some(t) => Some(t@),
                        None => None,
                    },
                ) && Self::swept(mid, *final(self), n),
    {
        if let Some(t) = tiles {
            let parts = list_parts(t);
            self.registry.add_custom(serial, parts.as_slice(), world);
        }
        let ghost mid = *self;
        let n: usize = self.sweep_stale();
        assert(Self::swept(mid, *self, n));
    }

    /// After the patches of all worlds were taken over.
    pub open spec fn patched(
        before: Self,
        after: Self,
        entries: Seq<(u32, u32)>,
        loaded: Seq<LoadedDiff>,
    ) -> bool {
        &&& after == (SessionView { diff_overlay: after.diff_overlay, ..before })
        &&& forall|w: u8| #[trigger]
            after.diff_overlay.land(w) == land_after(
                entries,
                loaded,
                entries.len() as int,
                w,
                before.diff_overlay.land(w),
            )
        &&& forall|w: u8| #[trigger]
            after.diff_overlay.objects(w) == objects_after(
                entries,
                loaded,
                entries.len() as int,
                w,
                before.diff_overlay.objects(w),
            )
    }

    /// Provides the patches that were read from the map files, world by world. A
    /// sweep follows.
    pub fn provide_diffs(&mut self, entries: &Vec<(u32, u32)>, loaded: Vec<LoadedDiff>)
        requires
            old(self).wf(),
            entries@.len() == loaded@.len(),
            forall|i: int|
                0 <= i < loaded@.len() ==> ((#[trigger] loaded@[i]) matches Some(d) ==> d.0.wf()
                    && d.1.wf()),
        ensures
            final(self).wf(),
            exists|mid: Self, n: usize|
                #![trigger Self::swept(mid, *final(self), n)]
                Self::patched(*old(self), mid, entries@, loaded@) && Self::swept(
                    mid,
                    *final(self),
                    n,
                ),
    {
        self.diff_overlay.load_and_apply(entries, loaded);
        let ghost mid = *self;
        let n: usize = self.sweep_stale();
        assert(Self::swept(mid, *self, n));
    }

    /// Another name for [`SessionView::sweep_stale`].
    pub fn sweep_stale_multis(&mut self) -> (n: usize)
        requires
            old(self).wf(),
        ensures
            final(self).wf(),
            Self::swept(*old(self), *final(self), n),
            !old(self).registry.staleness.armed ==> n == 0 && final(self).registry == old(self).registry,
    {
        self.sweep_stale()
    }

    /// Another name for [`SessionView::rebuild_registry`].
    pub fn rebuild_multi_registry(&mut self)
        requires
            old(self).wf(),
        ensures
            final(self).wf(),
            Self::rebuilt(*old(self), *final(self)),
    {
        self.rebuild_registry();
    }
}

/// The object that a packet shows, if it shows one.
pub open spec fn shown(packet: ServerPacket) -> Option<u32> {
    match packet {
        ServerPacket::ObjectInfo(obj) => Some(obj.object_id),
        ServerPacket::ObjectInfoSA(obj) => Some(obj.serial),
        ServerPacket::DrawMobile(mob) => Some(mob.serial),
        ServerPacket::DrawMobileExtended(mob) => Some(mob.serial),
        _ => None,
    }
}

/// Law: an object that a packet shows is in view afterwards. If it is one to remember, it
/// is remembered in the session's world, just as it was seen, and nowhere else.
pub proof fn seen_is_remembered<D: StaticDataProvider>(
    before: SessionView<D>,
    after: SessionView<D>,
    data: Seq<u8>,
    packet: ServerPacket,
    serial: u32,
    w: u8,
)
    requires
        data.len() > 0,
        data[0] != 0xB9,
        data[0] != 0x24,
        shown(packet) == Some(serial),
        SessionView::ingests(before, after, data, packet),
    ensures
        after.visible@.entities.contains_key(serial),
        caches(before.registry.cache_mode, after.visible@.entities[serial])
            ==> after.registry.cached(w, serial) == if w == before.current_world {
            Some(after.visible@.entities[serial].as_state())
        } else {
            None
        },
{
}

/// Law: an item or a multi-object that a packet shows, and that is one to remember, stands
/// in the way in the session's world, also once it is out of view.
pub proof fn seen_stands_in_the_way<D: StaticDataProvider>(
    before: SessionView<D>,
    after: SessionView<D>,
    data: Seq<u8>,
    packet: ServerPacket,
    serial: u32,
    x: u16,
    y: u16,
    shape: TileShape,
)
    requires
        before.wf(),
        after.wf(),
        data.len() > 0,
        data[0] != 0xB9,
        data[0] != 0x24,
        shown(packet) == Some(serial),
        SessionView::ingests(before, after, data, packet),
        caches(before.registry.cache_mode, after.visible@.entities[serial]),
        before.registry.static_data is Some,
        stands(
            &*before.registry.static_data->0,
            after.visible@.entities[serial].as_state(),
            x,
            y,
            shape,
        ),
    ensures
        after.registry.shapes(x, y).contains(shape),
{
    inserted_stands_in_the_way(
        before.registry,
        after.registry,
        after.visible@.entities[serial].as_state(),
        x,
        y,
        shape,
    );
}

/// Law: a deleted object that is no mobile is forgotten in all worlds; a mobile
/// stays remembered as it is.
pub proof fn deleted_is_forgotten<D: StaticDataProvider>(
    before: SessionView<D>,
    after: SessionView<D>,
    data: Seq<u8>,
    serial: u32,
    w: u8,
)
    requires
        data.len() > 0,
        data[0] != 0xB9,
        data[0] != 0x24,
        SessionView::ingests(before, after, data, ServerPacket::DeleteObject { serial }),
    ensures
        before.visible@.has_mobile(serial) ==> after.registry == before.registry,
        !before.visible@.has_mobile(serial) ==> after.registry.cached(w, serial) is None,
{
}

} // verus!

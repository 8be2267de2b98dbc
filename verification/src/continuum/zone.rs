//! One map with everything on it.

use std::sync::Arc;

use vstd::prelude::*;

use super::container::{ContainerView, ZoneContainers};
use super::item_props::ZoneItemProps;
use super::traits::EntityStore;
use crate::collections::share;
use crate::coords::{BlockKey, Heading, Pos3D};
use crate::ecumene::entity_registry::{CacheMode, EntityRegistry, WorldStore};
use crate::ecumene::multi_def::MultiDef;
use crate::ecumene::line_of_sight::{ray_fits, LosRay, LosValidator};
use crate::ecumene::movement::{best_perch, MovementValidator};
use crate::ecumene::multi_spatial::{
    in_blocks, lemma_rect_keys, list_at, rect_keys, BlockSpatialIndex, SpatialIndex,
};
use crate::ecumene::shape_provider::ShapeProvider;
use crate::ecumene::snapshot::{all_shapes, local_index, CollisionSnapshot, PathBlock};
use crate::ecumene::static_provider::{sort_block, StaticTileProvider};
use crate::ecumene::tile_block::TileBlock;
use crate::ecumene::tile_provider::{
    add_shapes, sort_stack, sorted_stack, sorted_stack_is_sorted, TileProvider,
};
use crate::ecumene::tile_rect::TileRect;
use crate::vessel::entity::{parts_fn, shape_fn, Entity, EntityState};
use crate::vessel::static_data::StaticDataProvider;
use crate::vessel::tile_shape::TileShape;

verus! {

broadcast use vstd::std_specs::hash::group_hash_axioms;

/// The tile stacks of a zone: map files, obstacles, and remembered shapes.
pub struct ZoneTileProvider<'a, D: StaticDataProvider, R: ShapeProvider> {
    pub static_data: Option<&'a D>,
    pub snapshot: &'a CollisionSnapshot,
    pub shapes: &'a R,
    pub map_id: u8,
}

impl<'a, D: StaticDataProvider, R: ShapeProvider> ZoneTileProvider<'a, D, R> {
    /// The map files alone.
    pub open spec fn base_spec(&self) -> StaticTileProvider<'a, D> {
        StaticTileProvider {
            static_data: self.static_data,
            world: self.map_id,
            diff_overlay: None,
        }
    }

    /// What is on a tile besides the map.
    pub open spec fn extras(&self, x: u16, y: u16) -> Seq<TileShape> {
        all_shapes(self.snapshot.at(x, y)) + self.shapes.shapes(x, y)
    }
}

impl<'a, D: StaticDataProvider, R: ShapeProvider> TileProvider for ZoneTileProvider<'a, D, R> {
    open spec fn stack(&self, x: u16, y: u16, direction: Heading) -> Seq<TileShape> {
        sorted_stack(self.base_spec().stack(x, y, direction) + self.extras(x, y))
    }

    open spec fn flat_stack(&self, x: u16, y: u16) -> Seq<TileShape> {
        sorted_stack(self.base_spec().flat_stack(x, y) + self.extras(x, y))
    }

    open spec fn multi_on(&self, x: u16, y: u16) -> bool {
        self.shapes.multi_at(x, y)
    }

    fn is_multi_on(&self, x: u16, y: u16) -> (b: bool) {
        assert(self.covers_block(BlockKey::of_tile(x, y)));
        self.shapes.has_multi_at(x, y)
    }

    open spec fn covers(&self, x: u16, y: u16) -> bool {
        self.base_spec().covers(x, y) && self.shapes.shapes_ok()
    }

    open spec fn covers_block(&self, block: BlockKey) -> bool {
        self.base_spec().covers_block(block) && self.shapes.shapes_ok()
    }

    fn query_tile_stack(&self, x: u16, y: u16, direction: Heading) -> (s: Vec<TileShape>) {
        let base = StaticTileProvider::new(self.static_data, self.map_id);
        let mut shapes = base.query_tile_stack(x, y, direction);
        let ghost ground = shapes@;
        if let Some(dynamic) = self.snapshot.get_dynamic_shapes(x, y) {
            add_shapes(&mut shapes, &dynamic);
        }
        let registered = self.shapes.get_shapes_at(x, y);
        add_shapes(&mut shapes, &registered);
        proof {
            assert(shapes@ =~= ground + self.extras(x, y));
            sorted_stack_is_sorted(shapes@);
        }
        sort_stack(&mut shapes);
        shapes
    }

    fn query_block(&self, block: BlockKey) -> (b: TileBlock) {
        let base = StaticTileProvider::new(self.static_data, self.map_id);
        let mut tb = base.query_block(block);
        let ghost ground = tb@;
        let (x0, y0) = block.origin();
        let path: Option<&PathBlock> = self.snapshot.get_path_block(block);
        let no_shapes = self.shapes.shapes_empty();
        let mut n: u8 = 0;
        while n < 64
            invariant
                block.on_map(),
                x0 == block.bx * 8,
                y0 == block.by * 8,
                self.shapes.shapes_ok(),
                n <= 64,
                tb.wf(),
                tb.block_key == block,
                ground.len() == 64,
                path is Some <==> self.snapshot.active_blocks@.contains_key(block.packed()),
                path matches Some(p) ==> *p == self.snapshot.active_blocks@[block.packed()],
                no_shapes ==> forall|x: u16, y: u16| (#[trigger] self.shapes.shapes(x, y)).len()
                    == 0,
                forall|i: int| n <= i < 64 ==> #[trigger] tb@[i] == ground[i],
                forall|i: int|
                    0 <= i < n ==> #[trigger] tb@[i] == ground[i] + self.extras(
                        (block.bx * 8 + i % 8) as u16,
                        (block.by * 8 + i / 8) as u16,
                    ),
            decreases 64 - n,
        {
            let ox: u8 = n % 8;
            let oy: u8 = n / 8;
            let x: u16 = x0 + ox as u16;
            let y: u16 = y0 + oy as u16;
            assert(oy * 8 + ox == n);
            assert(x % 8 == ox && y % 8 == oy);
            assert(BlockKey::of_tile(x, y) == block);
            assert(local_index(x, y) == n);
            let ghost before = tb@;
            if let Some(p) = path {
                p.collect_shapes_at(n, tb.tile_stack_mut(ox, oy));
            } else {
                proof {
                    assert(self.snapshot.at(x, y) == Map::<u64, Seq<TileShape>>::empty());
                    crate::ecumene::snapshot::lemma_nothing_there();
                    assert(ground[n as int] + all_shapes(self.snapshot.at(x, y))
                        =~= ground[n as int]);
                }
            }
            assert(tb@[n as int] =~= ground[n as int] + all_shapes(self.snapshot.at(x, y)));
            if !no_shapes {
                let registered = self.shapes.get_shapes_at(x, y);
                add_shapes(tb.tile_stack_mut(ox, oy), &registered);
            } else {
                assert(self.shapes.shapes(x, y).len() == 0);
            }
            assert(tb@[n as int] =~= ground[n as int] + self.extras(x, y));
            n += 1;
        }
        sort_block(&mut tb);
        tb
    }
}

/// The shapes that a list of forms has on tile `(x, y)`, in order.
pub open spec fn forms_on(forms: Seq<(u16, u16, TileShape)>, x: u16, y: u16) -> Seq<TileShape>
    decreases forms.len(),
{
    if forms.len() == 0 {
        Seq::empty()
    } else {
        let head = forms_on(forms.drop_last(), x, y);
        let f = forms.last();
        if f.0 == x && f.1 == y {
            head.push(f.2)
        } else {
            head
        }
    }
}

/// The obstacles of a tile after `tag` has put shapes there.
pub open spec fn obstructed(
    m: Map<u64, Seq<TileShape>>,
    tag: u64,
    more: Seq<TileShape>,
) -> Map<u64, Seq<TileShape>> {
    if more.len() == 0 {
        m
    } else {
        m.insert(
            tag,
            (if m.contains_key(tag) {
                m[tag]
            } else {
                Seq::empty()
            }) + more,
        )
    }
}

/// The obstacles of a tile after `tag` has taken its shapes off, if it had any.
pub open spec fn cleared(
    m: Map<u64, Seq<TileShape>>,
    tag: u64,
    less: Seq<TileShape>,
) -> Map<u64, Seq<TileShape>> {
    if less.len() == 0 {
        m
    } else {
        m.remove(tag)
    }
}

fn add_forms(snapshot: &mut CollisionSnapshot, tag: u64, forms: &Vec<(u16, u16, TileShape)>)
    requires
        old(snapshot).tidy(),
    ensures
        final(snapshot).tidy(),
        forall|x: u16, y: u16| #[trigger]
            final(snapshot).at(x, y) == obstructed(
                old(snapshot).at(x, y),
                tag,
                forms_on(forms@, x, y),
            ),
{
    let ghost before = *snapshot;
    let mut i: usize = 0;
    assert(forms@.take(0) =~= Seq::<(u16, u16, TileShape)>::empty());
    while i < forms.len()
        invariant
            i <= forms@.len(),
            snapshot.tidy(),
            forall|x: u16, y: u16| #[trigger]
                snapshot.at(x, y) == obstructed(
                    before.at(x, y),
                    tag,
                    forms_on(forms@.take(i as int), x, y),
                ),
        decreases forms@.len() - i,
    {
        let ghost mid = *snapshot;
        let (fx, fy, shape) = forms[i];
        snapshot.add_shape(fx, fy, tag, shape);
        proof {
            assert(forms@.take(i + 1).drop_last() =~= forms@.take(i as int));
            assert forall|x: u16, y: u16| #[trigger] snapshot.at(x, y) == obstructed(
                before.at(x, y),
                tag,
                forms_on(forms@.take(i + 1), x, y),
            ) by {
                let had = forms_on(forms@.take(i as int), x, y);
                assert(mid.at(x, y) == obstructed(before.at(x, y), tag, had));
                if x == fx && y == fy {
                    let start = if before.at(x, y).contains_key(tag) {
                        before.at(x, y)[tag]
                    } else {
                        Seq::empty()
                    };
                    assert((start + had).push(shape) =~= start + had.push(shape));
                    assert(start.push(shape) =~= start + Seq::<TileShape>::empty().push(shape));
                    if had.len() == 0 {
                        assert(had =~= Seq::<TileShape>::empty());
                    }
                    assert(snapshot.at(x, y) =~= obstructed(before.at(x, y), tag, had.push(shape)));
                }
            }
        }
        i += 1;
    }
    assert(forms@.take(i as int) =~= forms@);
}

fn drop_forms(snapshot: &mut CollisionSnapshot, tag: u64, forms: &Vec<(u16, u16, TileShape)>)
    requires
        old(snapshot).tidy(),
    ensures
        final(snapshot).tidy(),
        forall|x: u16, y: u16| #[trigger]
            final(snapshot).at(x, y) == cleared(
                old(snapshot).at(x, y),
                tag,
                forms_on(forms@, x, y),
            ),
{
    let ghost before = *snapshot;
    let mut i: usize = 0;
    assert(forms@.take(0) =~= Seq::<(u16, u16, TileShape)>::empty());
    while i < forms.len()
        invariant
            i <= forms@.len(),
            snapshot.tidy(),
            forall|x: u16, y: u16| #[trigger]
                snapshot.at(x, y) == cleared(
                    before.at(x, y),
                    tag,
                    forms_on(forms@.take(i as int), x, y),
                ),
        decreases forms@.len() - i,
    {
        let ghost mid = *snapshot;
        let (fx, fy, shape) = forms[i];
        snapshot.remove_entity_shapes(fx, fy, tag);
        proof {
            assert(forms@.take(i + 1).drop_last() =~= forms@.take(i as int));
            assert forall|x: u16, y: u16| #[trigger] snapshot.at(x, y) == cleared(
                before.at(x, y),
                tag,
                forms_on(forms@.take(i + 1), x, y),
            ) by {
                let had = forms_on(forms@.take(i as int), x, y);
                assert(mid.at(x, y) == cleared(before.at(x, y), tag, had));
                if x == fx && y == fy {
                    assert(before.at(x, y).remove(tag).remove(tag) =~= before.at(x, y).remove(tag));
                }
            }
        }
        i += 1;
    }
    assert(forms@.take(i as int) =~= forms@);
}

/// One map: its entities, their obstacles and shapes, and its containers.
pub struct Zone<
    E: Entity,
    S: EntityStore<E>,
    D: StaticDataProvider,
    C: ZoneContainers,
    P: ZoneItemProps,
> {
    pub map_id: u8,
    pub static_data: Option<Arc<D>>,
    pub store: S,
    /// Obstacles of items.
    pub snapshot: CollisionSnapshot,
    /// Shapes of multi-objects.
    pub registry: EntityRegistry<E, BlockSpatialIndex, D>,
    /// Places of all entities.
    pub entity_spatial: BlockSpatialIndex,
    /// Containers, apart from the entities since their items are not on the map.
    pub containers: C,
    /// Properties of items, wherever these are.
    pub item_props: P,
    /// Marks the type of the entities.
    pub marker: std::marker::PhantomData<E>,
}

impl<
    E: Entity,
    S: EntityStore<E>,
    D: StaticDataProvider,
    C: ZoneContainers,
    P: ZoneItemProps,
> Zone<E, S, D, C, P> {
    /// The entities of the zone.
    pub open spec fn entities(&self) -> Map<u32, E> {
        self.store.entities()
    }

    /// Whether the place of an entity is known to the index.
    pub open spec fn placed(&self, id: u32) -> bool {
        &&& self.entity_spatial.knows(id) <==> self.entities().contains_key(id)
        &&& self.entities().contains_key(id) ==> list_at(self.entity_spatial.reverse@, id)
            == rect_keys(
            TileRect::point_spec(
                self.entities()[id].state().pos.x,
                self.entities()[id].state().pos.y,
            ),
        )
    }

    /// All parts are in order, and the index knows the entities by their places.
    pub open spec fn wf(&self) -> bool {
        &&& self.static_data matches Some(d) ==> d.wf()
        &&& self.registry.wf()
        &&& self.registry.static_data == self.static_data
        &&& self.snapshot.tidy()
        &&& self.entity_spatial.wf()
        &&& forall|id: u32| #[trigger] self.placed(id)
    }

    /// The forms by which an entity is in the way, none without map data.
    pub open spec fn forms_of(&self, e: E) -> Seq<(u16, u16, TileShape)> {
        match self.static_data {
            Some(d) => e.forms(shape_fn(&*d), parts_fn(&*d)),
            None => Seq::empty(),
        }
    }

    /// The tile stacks of the zone.
    pub open spec fn tiles(&self) -> ZoneTileProvider<
        '_,
        D,
        EntityRegistry<E, BlockSpatialIndex, D>,
    > {
        ZoneTileProvider {
            static_data: match self.static_data {
                Some(d) => Some(&*d),
                None => None,
            },
            snapshot: &self.snapshot,
            shapes: &self.registry,
            map_id: self.map_id,
        }
    }

    /// A zone with the entities of a store. Those that the store has from the start are
    /// in nobody's way and are found by their numbers alone; a zone of an empty store is
    /// in order.
    pub fn new(
        map_id: u8,
        static_data: Option<Arc<D>>,
        store: S,
        containers: C,
        item_props: P,
    ) -> (z: Self)
        requires
            static_data matches Some(d) ==> d.wf(),
        ensures
            store.entities() == Map::<u32, E>::empty() ==> z.wf(),
            z.registry.wf(),
            z.map_id == map_id,
            z.static_data == static_data,
            z.store == store,
            z.containers == containers,
            z.item_props == item_props,
            z.registry.current_world == map_id,
            z.registry.cache_mode is MultisOnly,
            z.registry.static_data == static_data,
            z.registry.stores@ == Map::<u8, WorldStore<E, BlockSpatialIndex>>::empty(),
            z.registry.multi_defs@ == Map::<u16, Arc<MultiDef>>::empty(),
            z.registry.custom_defs@ == Map::<u32, Arc<MultiDef>>::empty(),
            forall|s: u32| !#[trigger] z.entity_spatial.knows(s),
            forall|x: u16, y: u16|
                (#[trigger] z.snapshot.at(x, y)) == Map::<u64, Seq<TileShape>>::empty(),
    {
        let shared: Option<Arc<D>> = match &static_data {
            Some(d) => Some(share(d)),
            None => None,
        };
        Zone {
            map_id,
            static_data,
            store,
            snapshot: CollisionSnapshot::new(),
            registry: EntityRegistry::new(shared, map_id, CacheMode::MultisOnly),
            entity_spatial: BlockSpatialIndex::new(),
            containers,
            item_props,
            marker: std::marker::PhantomData,
        }
    }

    fn extract_entity_shapes(&self, entity: &E) -> (v: Vec<(u16, u16, TileShape)>)
        requires
            self.static_data matches Some(d) ==> d.wf(),
        ensures
            v@ == self.forms_of(*entity),
    {
        match &self.static_data {
            Some(d) => entity.extract_shapes(&**d),
            None => Vec::new(),
        }
    }

    /// What bringing an entity in leaves of the obstacles: items put their forms
    /// there, others do not.
    pub open spec fn obstacles_with(&self, e: E, id: u32, x: u16, y: u16) -> Map<
        u64,
        Seq<TileShape>,
    > {
        if e.state().multi || e.state().mobile {
            self.snapshot.at(x, y)
        } else {
            obstructed(self.snapshot.at(x, y), id as u64, forms_on(self.forms_of(e), x, y))
        }
    }

    /// What taking an entity out leaves of the obstacles.
    pub open spec fn obstacles_without(&self, e: E, id: u32, x: u16, y: u16) -> Map<
        u64,
        Seq<TileShape>,
    > {
        if e.state().multi || e.state().mobile {
            self.snapshot.at(x, y)
        } else {
            cleared(self.snapshot.at(x, y), id as u64, forms_on(self.forms_of(e), x, y))
        }
    }

    /// Whether all but the entities and their traces is the same.
    pub open spec fn same_frame(&self, other: &Self) -> bool {
        &&& self.map_id == other.map_id
        &&& self.static_data == other.static_data
        &&& self.containers == other.containers
        &&& self.item_props == other.item_props
    }

    /// Brings an entity into the zone. The number is not to be in use: the
    /// traces of an entity under it would stay.
    pub fn spawn(&mut self, id: u32, data: E)
        requires
            old(self).wf(),
        ensures
            !old(self).entities().contains_key(id) ==> final(self).wf(),
            final(self).same_frame(old(self)),
            final(self).entities() == old(self).entities().insert(id, data),
            forall|x: u16, y: u16| #[trigger]
                final(self).snapshot.at(x, y) == old(self).obstacles_with(data, id, x, y),
            data.state().multi ==> EntityRegistry::inserted(
                old(self).registry,
                final(self).registry,
                data.state(),
                old(self).map_id,
            ),
            !data.state().multi ==> final(self).registry == old(self).registry,
    {
        let ghost before = *self;
        let pos = data.pos();
        proof {
            assert(before.placed(id));
        }
        self.entity_spatial.insert(id, TileRect::point(pos.x, pos.y));
        let ghost placed = self.entity_spatial;
        if data.is_multi() {
            self.registry.insert(&data, self.map_id);
        } else if !data.is_mobile() {
            let forms = self.extract_entity_shapes(&data);
            add_forms(&mut self.snapshot, id as u64, &forms);
        }
        self.store.insert(id, data);
        proof {
            if !before.entities().contains_key(id) {
            assert forall|k: u32| #[trigger] self.placed(k) by {
                assert(before.placed(k));
                assert(placed.knows(k) <==> before.entity_spatial.knows(k) || k == id);
                assert(list_at(placed.reverse@, k) == if k == id {
                    rect_keys(TileRect::point_spec(pos.x, pos.y))
                } else {
                    list_at(before.entity_spatial.reverse@, k)
                });
            }
            }
        }
    }

    /// Takes an entity out of the zone.
    pub fn remove(&mut self, id: u32) -> (r: Option<E>)
        requires
            old(self).wf(),
        ensures
            final(self).wf(),
            final(self).same_frame(old(self)),
            r == if old(self).entities().contains_key(id) {
                Some(old(self).entities()[id])
            } else {
                None
            },
            final(self).entities() == old(self).entities().remove(id),
            r is None ==> final(self).snapshot == old(self).snapshot && final(self).registry == old(self).registry,
            r matches Some(e) ==> {
                &&& forall|x: u16, y: u16| #[trigger]
                    final(self).snapshot.at(x, y) == old(self).obstacles_without(e, id, x, y)
                &&& e.state().multi ==> EntityRegistry::forgotten(
                    old(self).registry,
                    final(self).registry,
                    id,
                )
                &&& !e.state().multi ==> final(self).registry == old(self).registry
            },
    {
        let ghost before = *self;
        match self.store.remove(id) {
            Some(data) => {
                self.entity_spatial.remove(id);
                let ghost placed = self.entity_spatial;
                if data.is_multi() {
                    self.registry.remove(id);
                } else if !data.is_mobile() {
                    let forms = self.extract_entity_shapes(&data);
                    drop_forms(&mut self.snapshot, id as u64, &forms);
                }
                proof {
                    assert forall|k: u32| #[trigger] self.placed(k) by {
                        assert(before.placed(k));
                        assert(placed.knows(k) <==> before.entity_spatial.knows(k) && k != id);
                        assert(placed.reverse@ == before.entity_spatial.reverse@.remove(id));
                    }
                }
                Some(data)
            },
            None => {
                proof {
                    assert(before.entities().remove(id) =~= before.entities());
                    assert forall|k: u32| #[trigger] self.placed(k) by {
                        assert(before.placed(k));
                    }
                }
                None
            },
        }
    }

    /// What replacing an entity leaves of the remembered shapes: those of a
    /// multi-object that was there go, those of one that comes are added.
    pub open spec fn registry_updated(
        before: EntityRegistry<E, BlockSpatialIndex, D>,
        after: EntityRegistry<E, BlockSpatialIndex, D>,
        was_multi: bool,
        id: u32,
        e: EntityState,
        world: u8,
    ) -> bool {
        if was_multi && e.multi {
            exists|mid: EntityRegistry<E, BlockSpatialIndex, D>| #[trigger]
                EntityRegistry::forgotten(before, mid, id) && EntityRegistry::inserted(
                    mid,
                    after,
                    e,
                    world,
                )
        } else if was_multi {
            EntityRegistry::forgotten(before, after, id)
        } else if e.multi {
            EntityRegistry::inserted(before, after, e, world)
        } else {
            after == before
        }
    }

    /// What putting an entity in the place of the one with its number leaves.
    pub open spec fn updated(before: Self, after: Self, id: u32, data: E) -> bool {
        &&& after.same_frame(&before)
        &&& after.entities() == before.entities().insert(id, data)
        &&& forall|x: u16, y: u16| #[trigger]
            after.snapshot.at(x, y) == {
                let left = if before.entities().contains_key(id) {
                    before.obstacles_without(before.entities()[id], id, x, y)
                } else {
                    before.snapshot.at(x, y)
                };
                if data.state().multi || data.state().mobile {
                    left
                } else {
                    obstructed(left, id as u64, forms_on(before.forms_of(data), x, y))
                }
            }
        &&& Self::registry_updated(
            before.registry,
            after.registry,
            before.entities().contains_key(id) && before.entities()[id].state().multi,
            id,
            data.state(),
            before.map_id,
        )
    }

    /// Puts an entity in the place of the one with its number, if there is one.
    pub fn update(&mut self, id: u32, data: E)
        requires
            old(self).wf(),
        ensures
            final(self).wf(),
            Self::updated(*old(self), *final(self), id, data),
    {
        let ghost before = *self;
        let _old = self.remove(id);
        let ghost mid = *self;
        self.spawn(id, data);
        proof {
            assert(before.entities().remove(id).insert(id, data) =~= before.entities().insert(
                id,
                data,
            ));
            assert forall|x: u16, y: u16| #[trigger] self.snapshot.at(x, y) == {
                let left = if before.entities().contains_key(id) {
                    before.obstacles_without(before.entities()[id], id, x, y)
                } else {
                    before.snapshot.at(x, y)
                };
                if data.state().multi || data.state().mobile {
                    left
                } else {
                    obstructed(left, id as u64, forms_on(before.forms_of(data), x, y))
                }
            } by {
                assert(self.snapshot.at(x, y) == mid.obstacles_with(data, id, x, y));
            }
        }
    }

    /// The entity with this number.
    pub fn get(&self, id: u32) -> (r: Option<&E>)
        ensures
            r is Some <==> self.entities().contains_key(id),
            r matches Some(e) ==> *e == self.entities()[id],
    {
        self.store.get(id)
    }

    /// Moves an entity and turns it, if a direction is given. Returns whether
    /// there is such an entity.
    pub fn move_entity(
        &mut self,
        id: u32,
        new_x: u16,
        new_y: u16,
        new_z: i8,
        direction: Option<u8>,
    ) -> (found: bool)
        requires
            old(self).wf(),
        ensures
            final(self).wf(),
            final(self).same_frame(old(self)),
            final(self).snapshot == old(self).snapshot,
            final(self).registry == old(self).registry,
            found == old(self).entities().contains_key(id),
            !found ==> final(self).entities() == old(self).entities(),
            found ==> {
                let e = old(self).entities()[id];
                let pos = Pos3D { x: new_x, y: new_y, z: new_z };
                &&& final(self).entities().contains_key(id)
                &&& final(self).entities() == old(self).entities().insert(
                    id,
                    final(self).entities()[id],
                )
                &&& final(self).entities()[id].state().pos == pos
                &&& direction is None ==> final(self).entities()[id].state() == e.moved(pos)
                &&& direction matches Some(d) ==> exists|m: E| #[trigger]
                    m.state() == e.moved(pos) && final(self).entities()[id].state() == m.turned(d)
            },
    {
        let ghost before = *self;
        let moved_xy = match self.store.get_mut(id) {
            Some(entity) => {
                let ghost e0 = *entity;
                let old_pos = entity.pos();
                entity.set_pos(Pos3D::new(new_x, new_y, new_z));
                let ghost e1 = *entity;
                if let Some(dir) = direction {
                    entity.set_direction(dir);
                }
                assert(direction matches Some(d) ==> e1.state() == e0.moved(
                    Pos3D { x: new_x, y: new_y, z: new_z },
                ) && entity.state() == e1.turned(d));
                old_pos.x != new_x || old_pos.y != new_y
            },
            None => {
                proof {
                    assert forall|k: u32| #[trigger] self.placed(k) by {
                        assert(before.placed(k));
                    }
                }
                return false;
            },
        };
        if moved_xy {
            self.entity_spatial.remove(id);
            let ghost mid = self.entity_spatial;
            assert(!mid.knows(id));
            self.entity_spatial.insert(id, TileRect::point(new_x, new_y));
            proof {
                assert forall|k: u32| #[trigger] self.placed(k) by {
                    assert(before.placed(k));
                    assert(before.placed(id));
                    assert(mid.knows(k) <==> before.entity_spatial.knows(k) && k != id);
                    assert(self.entity_spatial.knows(k) <==> mid.knows(k) || k == id);
                    assert(mid.reverse@ == before.entity_spatial.reverse@.remove(id));
                    assert(list_at(self.entity_spatial.reverse@, k) == if k == id {
                        rect_keys(TileRect::point_spec(new_x, new_y))
                    } else {
                        list_at(mid.reverse@, k)
                    });
                }
            }
        } else {
            proof {
                assert forall|k: u32| #[trigger] self.placed(k) by {
                    assert(before.placed(k));
                }
            }
        }
        true
    }

    /// Copies of all entities whose place is within `area`, each once.
    pub fn query_area(&self, area: &TileRect) -> (r: Vec<E>)
        requires
            self.wf(),
        ensures
            exists|ids: Seq<u32>| #[trigger]
                ids.no_duplicates() && ids.len() == r@.len() && (forall|id: u32| #[trigger]
                    ids.contains(id) <==> self.entities().contains_key(id) && area.has(
                        self.entities()[id].state().pos.x as int,
                        self.entities()[id].state().pos.y as int,
                    )) && (forall|i: int|
                    0 <= i < ids.len() ==> (#[trigger] r@[i]).state()
                        == self.entities()[ids[i]].state()),
    {
        let near = self.entity_spatial.query_rect(area);
        let mut out: Vec<E> = Vec::new();
        let ghost mut ids: Seq<u32> = Seq::empty();
        let mut i: usize = 0;
        while i < near.len()
            invariant
                self.wf(),
                i <= near@.len(),
                near@.no_duplicates(),
                ids.no_duplicates(),
                ids.len() == out@.len(),
                forall|id: u32| #[trigger]
                    ids.contains(id) <==> near@.take(i as int).contains(id)
                        && self.entities().contains_key(id) && area.has(
                        self.entities()[id].state().pos.x as int,
                        self.entities()[id].state().pos.y as int,
                    ),
                forall|k: int|
                    0 <= k < ids.len() ==> (#[trigger] out@[k]).state()
                        == self.entities()[ids[k]].state(),
            decreases near@.len() - i,
        {
            let id: u32 = near[i];
            let ghost had = ids;
            proof {
                assert(near@.take(i + 1) =~= near@.take(i as int).push(id));
                assert(!near@.take(i as int).contains(id));
                lemma_ids_push(near@.take(i as int), id);
                lemma_ids_push(had, id);
            }
            if let Some(e) = self.store.get(id) {
                let pos = e.pos();
                if area.contains_pos(&pos) {
                    out.push(e.duplicate());
                    proof {
                        ids = ids.push(id);
                    }
                }
            }
            i += 1;
        }
        proof {
            assert(near@.take(i as int) =~= near@);
            assert forall|id: u32| #[trigger] ids.contains(id) <==> self.entities().contains_key(id)
                && area.has(
                self.entities()[id].state().pos.x as int,
                self.entities()[id].state().pos.y as int,
            ) by {
                if self.entities().contains_key(id) {
                    let pos = self.entities()[id].state().pos;
                    if area.has(pos.x as int, pos.y as int) {
                        assert(self.placed(id));
                        let point = TileRect::point_spec(pos.x, pos.y);
                        let key = BlockKey::of_tile(pos.x, pos.y).packed();
                        lemma_rect_keys(point);
                        assert(in_blocks(point, key));
                        assert(rect_keys(point).contains(key));
                        assert(self.entity_spatial.agrees(id, key));
                        assert(in_blocks(*area, key));
                        assert(self.entity_spatial.finds_in(id, *area));
                        assert(near@.contains(id));
                    }
                }
            }
        }
        out
    }

    fn make_provider(&self) -> (p: ZoneTileProvider<
        '_,
        D,
        EntityRegistry<E, BlockSpatialIndex, D>,
    >)
        ensures
            p == self.tiles(),
    {
        ZoneTileProvider {
            static_data: match &self.static_data {
                Some(d) => Some(&**d),
                None => None,
            },
            snapshot: &self.snapshot,
            shapes: &self.registry,
            map_id: self.map_id,
        }
    }

    /// Whether nothing is known that could stand in the way of one at `(x, y)`.
    pub open spec fn nothing_at(&self, x: u16, y: u16) -> bool {
        &&& self.static_data is None
        &&& all_shapes(self.snapshot.at(x, y)).len() == 0
        &&& forall|s: u32| (#[trigger] self.registry.cached(self.registry.current_world, s)) is None
    }

    /// The ground rules of the zone.
    pub open spec fn ground_rules(&self) -> MovementValidator<
        '_,
        ZoneTileProvider<'_, D, EntityRegistry<E, BlockSpatialIndex, D>>,
    > {
        MovementValidator { provider: &self.tiles(), passable_mask: 0, can_fly: false }
    }

    /// The standing height after a step on foot, or `None` where it is blocked. One
    /// about whom nothing is known stays at the same height.
    pub fn test_step(&self, x: u16, y: u16, z: i8, direction: Heading) -> (r: Option<i8>)
        requires
            self.wf(),
            !self.nothing_at(x, y) ==> self.ground_rules().all_covered(x, y, direction),
        ensures
            self.nothing_at(x, y) ==> r == Some(z),
            !self.nothing_at(x, y) ==> self.ground_rules().leads_to(x, y, z, direction, r),
    {
        if self.static_data.is_none() && self.snapshot.get_dynamic_shapes(x, y).is_none()
            && self.registry.is_empty() {
            return Some(z);
        }
        let provider = self.make_provider();
        MovementValidator::new(&provider).test_step(x, y, z, direction)
    }

    /// The standing height at `(x, y)` nearest to `z_hint`, or `None` where nobody
    /// can stand. Where nothing is known the hint is the answer.
    pub fn resolve_standing_z(&self, x: u16, y: u16, z_hint: i8, direction: Heading) -> (r: Option<
        i8,
    >)
        requires
            self.wf(),
            !self.nothing_at(x, y) ==> self.tiles().covers(x, y),
        ensures
            self.nothing_at(x, y) ==> r == Some(z_hint),
            !self.nothing_at(x, y) ==> {
                let shapes = self.tiles().stack(x, y, direction).push(TileShape::cap_spec());
                r == best_perch(shapes, z_hint as int, 0, false, shapes.len() as int)
            },
    {
        if self.static_data.is_none() && self.snapshot.get_dynamic_shapes(x, y).is_none()
            && self.registry.is_empty() {
            return Some(z_hint);
        }
        let provider = self.make_provider();
        MovementValidator::new(&provider).resolve_standing_z(x, y, z_hint, direction)
    }

    /// Whether nothing is known that could stop sight anywhere.
    pub open spec fn nothing_anywhere(&self) -> bool {
        &&& self.static_data is None
        &&& self.snapshot.active_blocks@.dom().len() == 0
        &&& forall|s: u32| (#[trigger] self.registry.cached(self.registry.current_world, s)) is None
    }

    /// The rules of sight of the zone.
    pub open spec fn sight_rules(&self) -> LosValidator<
        '_,
        ZoneTileProvider<'_, D, EntityRegistry<E, BlockSpatialIndex, D>>,
    > {
        LosValidator {
            provider: &self.tiles(),
            blocking_mask: TileShape::LOS_BLOCKING_DEFAULT,
            exempt_mask: TileShape::LOS_EXEMPT_DEFAULT,
            transparent_mask: 0,
        }
    }

    /// Whether nothing stops sight between two points. The caller adds the height
    /// of the eyes to `z1` and `z2`.
    pub fn has_los(&self, x1: u16, y1: u16, z1: i16, x2: u16, y2: u16, z2: i16) -> (b: bool)
        requires
            self.wf(),
            !self.nothing_anywhere() ==> ray_fits(x1, y1, z1, x2, y2, z2),
            !self.nothing_anywhere() ==> self.sight_rules().all_covered(
                LosRay::between(x1, y1, z1, x2, y2, z2).pending(),
            ),
        ensures
            self.nothing_anywhere() ==> b,
            !self.nothing_anywhere() ==> b == self.sight_rules().clear(x1, y1, z1, x2, y2, z2),
    {
        if self.static_data.is_none() && self.snapshot.active_blocks.len() == 0
            && self.registry.is_empty() {
            return true;
        }
        let provider = self.make_provider();
        LosValidator::new(&provider).has_los(x1, y1, z1, x2, y2, z2)
    }

    /// Empties the zone.
    pub fn clear_all(&mut self)
        requires
            old(self).wf(),
        ensures
            final(self).wf(),
            final(self).map_id == old(self).map_id,
            final(self).static_data == old(self).static_data,
            final(self).entities() == Map::<u32, E>::empty(),
            final(self).snapshot.active_blocks@ == Map::<u32, PathBlock>::empty(),
            final(self).containers.stored() == Map::<u32, ContainerView>::empty(),
            final(self).containers.places() == Map::<u32, u32>::empty(),
            final(self).item_props.stored() == Map::<u32, P::Value>::empty(),
            final(self).containers.keeps() == old(self).containers.keeps(),
            final(self).containers.indexes() == old(self).containers.indexes(),
            final(self).item_props.keeps() == old(self).item_props.keeps(),
            EntityRegistry::world_cleared(
                old(self).registry,
                final(self).registry,
                old(self).map_id,
            ),
    {
        self.store.clear();
        self.snapshot = CollisionSnapshot::new();
        self.entity_spatial.clear();
        self.registry.clear_world(self.map_id);
        self.containers.clear();
        self.item_props.clear();
        proof {
            assert forall|k: u32| #[trigger] self.placed(k) by {
                assert(!self.entity_spatial.knows(k));
            }
        }
    }

    /// Copies of all entities with their numbers, each once.
    pub fn collect_entities(&self) -> (r: Vec<(u32, E)>)
        ensures
            forall|i: int|
                0 <= i < r@.len() ==> self.entities().contains_key((#[trigger] r@[i]).0)
                    && r@[i].1.state() == self.entities()[r@[i].0].state(),
            forall|i: int, j: int|
                0 <= i < j < r@.len() ==> (#[trigger] r@[i]).0 != (#[trigger] r@[j]).0,
            forall|id: u32| #[trigger]
                self.entities().contains_key(id) ==> exists|i: int|
                    0 <= i < r@.len() && (#[trigger] r@[i]).0 == id,
    {
        let ids = self.store.ids();
        let mut out: Vec<(u32, E)> = Vec::new();
        let mut i: usize = 0;
        while i < ids.len()
            invariant
                i <= ids@.len(),
                ids@.no_duplicates(),
                forall|id: u32| #[trigger] ids@.contains(id) <==> self.entities().contains_key(id),
                out@.len() == i,
                forall|k: int|
                    0 <= k < i ==> (#[trigger] out@[k]).0 == ids@[k]
                        && self.entities().contains_key(ids@[k]) && out@[k].1.state()
                        == self.entities()[ids@[k]].state(),
            decreases ids@.len() - i,
        {
            let id: u32 = ids[i];
            assert(ids@.contains(id));
            if let Some(e) = self.store.get(id) {
                out.push((id, e.duplicate()));
            }
            i += 1;
        }
        proof {
            assert forall|id: u32| #[trigger] self.entities().contains_key(id) implies exists|
                k: int,
            | 0 <= k < out@.len() && (#[trigger] out@[k]).0 == id by {
                assert(ids@.contains(id));
                let k = choose|k: int| 0 <= k < ids@.len() && ids@[k] == id;
                assert(out@[k].0 == id);
            }
        }
        out
    }

    /// The map data of the zone, if it has any.
    pub fn static_data(&self) -> (r: Option<&Arc<D>>)
        ensures
            r is Some <==> self.static_data is Some,
            r matches Some(d) ==> *d == self.static_data->0,
    {
        self.static_data.as_ref()
    }

    /// The tile stacks of a block, with all that is in the way there.
    pub fn query_collision_block(&self, block: BlockKey) -> (b: TileBlock)
        requires
            block.on_map(),
            self.tiles().covers_block(block),
        ensures
            self.is_block(block, b),
    {
        let provider = self.make_provider();
        provider.query_block(block)
    }

    /// Whether `b` holds the tile stacks of a block of the zone.
    pub open spec fn is_block(&self, block: BlockKey, b: TileBlock) -> bool {
        &&& b.wf()
        &&& b.block_key == block
        &&& forall|i: int|
            0 <= i < 64 ==> (#[trigger] b@[i]) == self.tiles().flat_stack(
                (block.bx * 8 + i % 8) as u16,
                (block.by * 8 + i / 8) as u16,
            )
    }

    /// The tile stacks of all blocks that share a tile with a rectangle, column by column.
    /// The edges belong to the rectangle.
    pub fn query_collision_blocks(
        &self,
        tile_left: u16,
        tile_top: u16,
        tile_right: u16,
        tile_bottom: u16,
    ) -> (blocks: Vec<TileBlock>)
        requires
            forall|block: BlockKey|
                tile_left / 8 <= block.bx <= tile_right / 8 && tile_top / 8 <= block.by
                    <= tile_bottom / 8 ==> #[trigger] self.tiles().covers_block(block),
        ensures
            ({
                let bx = (tile_left / 8) as int;
                let by = (tile_top / 8) as int;
                let n = (tile_right / 8) as int - bx + 1;
                let m = (tile_bottom / 8) as int - by + 1;
                &&& blocks@.len() == if n > 0 && m > 0 {
                    n * m
                } else {
                    0
                }
                &&& forall|c: int, r: int|
                    0 <= c < n && 0 <= r < m ==> #[trigger] self.is_block(
                        BlockKey { bx: (bx + c) as u16, by: (by + r) as u16 },
                        blocks@[c * m + r],
                    )
            }),
    {
        let bx_min: u16 = tile_left / 8;
        let by_min: u16 = tile_top / 8;
        let bx_max: u16 = tile_right / 8;
        let by_max: u16 = tile_bottom / 8;
        let ghost m: int = if by_max >= by_min {
            by_max - by_min + 1
        } else {
            0
        };
        let provider = self.make_provider();
        let mut blocks: Vec<TileBlock> = Vec::new();
        let mut bx: u16 = bx_min;
        assert(0 * m == 0) by (nonlinear_arith);
        while bx <= bx_max
            invariant
                bx_min <= bx,
                bx <= bx_max + 1 || bx == bx_min,
                bx_max <= 0x1FFF,
                by_max <= 0x1FFF,
                bx_min <= 0x1FFF,
                by_min <= 0x1FFF,
                m == if by_max >= by_min {
                    by_max - by_min + 1
                } else {
                    0
                },
                provider == self.tiles(),
                forall|block: BlockKey|
                    bx_min <= block.bx <= bx_max && by_min <= block.by <= by_max
                        ==> #[trigger] self.tiles().covers_block(block),
                blocks@.len() == (bx - bx_min) * m,
                forall|c: int, r: int|
                    0 <= c < bx - bx_min && 0 <= r < m ==> #[trigger] self.is_block(
                        BlockKey { bx: (bx_min + c) as u16, by: (by_min + r) as u16 },
                        blocks@[c * m + r],
                    ),
            decreases bx_max + 1 - bx,
        {
            let ghost c0 = bx - bx_min;
            let mut by: u16 = by_min;
            while by <= by_max
                invariant
                    by_min <= by,
                    by <= by_max + 1 || by == by_min,
                    bx_min <= bx <= bx_max,
                    bx_max <= 0x1FFF,
                    by_max <= 0x1FFF,
                    c0 == bx - bx_min,
                    m == if by_max >= by_min {
                        by_max - by_min + 1
                    } else {
                        0
                    },
                    provider == self.tiles(),
                    forall|block: BlockKey|
                        bx_min <= block.bx <= bx_max && by_min <= block.by <= by_max
                            ==> #[trigger] self.tiles().covers_block(block),
                    blocks@.len() == c0 * m + (by - by_min),
                    forall|c: int, r: int|
                        0 <= c < c0 && 0 <= r < m ==> #[trigger] self.is_block(
                            BlockKey { bx: (bx_min + c) as u16, by: (by_min + r) as u16 },
                            blocks@[c * m + r],
                        ),
                    forall|r: int|
                        0 <= r < by - by_min ==> #[trigger] self.is_block(
                            BlockKey { bx, by: (by_min + r) as u16 },
                            blocks@[c0 * m + r],
                        ),
                decreases by_max + 1 - by,
            {
                let block = BlockKey::new(bx, by);
                let ghost had = blocks@;
                assert(self.tiles().covers_block(block));
                blocks.push(provider.query_block(block));
                proof {
                    assert(c0 * m >= 0) by (nonlinear_arith)
                        requires
                            c0 >= 0,
                            m >= 0,
                    ;
                    assert forall|c: int, r: int| 0 <= c < c0 && 0 <= r < m implies #[trigger] self.is_block(
                        BlockKey { bx: (bx_min + c) as u16, by: (by_min + r) as u16 },
                        blocks@[c * m + r],
                    ) by {
                        assert(0 <= c * m + r < c0 * m) by (nonlinear_arith)
                            requires
                                0 <= c < c0,
                                0 <= r < m,
                        ;
                        assert(blocks@[c * m + r] == had[c * m + r]);
                    }
                    assert forall|r: int| 0 <= r < by + 1 - by_min implies #[trigger] self.is_block(
                        BlockKey { bx, by: (by_min + r) as u16 },
                        blocks@[c0 * m + r],
                    ) by {
                        if r < by - by_min {
                            assert(blocks@[c0 * m + r] == had[c0 * m + r]);
                        }
                    }
                }
                by += 1;
            }
            proof {
                assert((c0 + 1) * m == c0 * m + m) by (nonlinear_arith);
                assert forall|c: int, r: int| 0 <= c < c0 + 1 && 0 <= r < m implies #[trigger] self.is_block(
                    BlockKey { bx: (bx_min + c) as u16, by: (by_min + r) as u16 },
                    blocks@[c * m + r],
                ) by {
                    if c == c0 {
                        assert(self.is_block(
                            BlockKey { bx, by: (by_min + r) as u16 },
                            blocks@[c0 * m + r],
                        ));
                    }
                }
            }
            bx += 1;
        }
        proof {
            let n = bx_max - bx_min + 1;
            if n <= 0 {
                assert((bx - bx_min) * m == 0) by (nonlinear_arith)
                    requires
                        bx == bx_min,
                ;
            } else if m == 0 {
                assert((bx - bx_min) * m == 0) by (nonlinear_arith)
                    requires
                        m == 0,
                ;
            }
        }
        blocks
    }
}


proof fn lemma_ids_push(s: Seq<u32>, x: u32)
    ensures
        forall|c: u32| #[trigger] s.push(x).contains(c) <==> s.contains(c) || c == x,
        s.no_duplicates() && !s.contains(x) ==> s.push(x).no_duplicates(),
{
    let p = s.push(x);
    assert forall|c: u32| #[trigger] p.contains(c) <==> s.contains(c) || c == x by {
        if s.contains(c) {
            let i = choose|i: int| 0 <= i < s.len() && s[i] == c;
            assert(p[i] == c);
        }
        if c == x {
            assert(p[s.len() as int] == c);
        }
        if p.contains(c) {
            let i = choose|i: int| 0 <= i < p.len() && p[i] == c;
            if i < s.len() {
                assert(s[i] == c);
            }
        }
    }
    if s.no_duplicates() && !s.contains(x) {
        assert forall|i: int, j: int| 0 <= i < p.len() && 0 <= j < p.len() && i != j implies p[i]
            != p[j] by {
            if i == s.len() {
                assert(s[j] != x);
            } else if j == s.len() {
                assert(s[i] != x);
            }
        }
    }
}

/// Law: an item that was brought in and taken out again leaves no obstacle behind.
pub proof fn items_leave_no_trace(
    m: Map<u64, Seq<TileShape>>,
    tag: u64,
    shapes: Seq<TileShape>,
)
    requires
        !m.contains_key(tag),
    ensures
        cleared(obstructed(m, tag, shapes), tag, shapes) == m,
{
    assert(cleared(obstructed(m, tag, shapes), tag, shapes) =~= m);
}

} // verus!

//! Tile stacks as the client sees them: the map, the items in view, and the
//! shapes of multi-objects and remembered items.

use vstd::prelude::*;

use super::visible_world::{block_rect, VisibleView, VisibleWorld, WorldEntity};
use crate::collections::{serials_are_listed_upwards, serials_up};
use crate::coords::{BlockKey, Heading};
use crate::ecumene::diff_overlay::DiffOverlay;
use crate::ecumene::map_laws::{lemma_joined_has, lemma_sorted_has};
use crate::ecumene::movement::{best_perch, MovementValidator};
use crate::ecumene::shape_provider::ShapeProvider;
use crate::ecumene::static_provider::{sort_block, StaticTileProvider};
use crate::ecumene::tile_block::TileBlock;
use crate::ecumene::tile_provider::{
    add_shapes, sort_stack, sorted_stack, sorted_stack_is_sorted, TileProvider,
};
use crate::ecumene::tile_rect::TileRect;
use crate::rythmos::z_resolver::ZResolver;
use crate::vessel::static_data::{StaticDataProvider, TileShaper};
use crate::vessel::tile_shape::TileShape;

verus! {

/// The shapes of the listed items on tile `(x, y)`, in order. Mobiles and
/// multi-objects have none here, nor have items of unknown graphics.
pub open spec fn item_shapes<D: StaticDataProvider>(
    sd: &D,
    v: VisibleView,
    serials: Seq<u32>,
    x: u16,
    y: u16,
) -> Seq<TileShape>
    decreases serials.len(),
{
    if serials.len() == 0 {
        Seq::empty()
    } else {
        let head = item_shapes(sd, v, serials.drop_last(), x, y);
        let e = v.entities[serials.last()];
        if e.x() == x && e.y() == y && e.kind() is Item {
            match sd.static_form(e.z(), e.graphic()) {
                Some(s) => head.push(s),
                None => head,
            }
        } else {
            head
        }
    }
}

proof fn lemma_items_inside<D: StaticDataProvider>(
    sd: &D,
    v: VisibleView,
    all: Seq<u32>,
    rect: TileRect,
    x: u16,
    y: u16,
)
    requires
        rect.has(x as int, y as int),
    ensures
        item_shapes(
            sd,
            v,
            all.filter(|s: u32| rect.has(v.entities[s].x() as int, v.entities[s].y() as int)),
            x,
            y,
        ) == item_shapes(sd, v, all, x, y),
    decreases all.len(),
{
    reveal(Seq::filter);
    let p = |s: u32| rect.has(v.entities[s].x() as int, v.entities[s].y() as int);
    if all.len() > 0 {
        let init = all.drop_last();
        lemma_items_inside(sd, v, init, rect, x, y);
        if p(all.last()) {
            assert(all.filter(p) == init.filter(p).push(all.last()));
            assert(all.filter(p).drop_last() =~= init.filter(p));
        }
    }
}

/// The map with the items in view and further shapes on top.
pub struct CompositeTileProvider<'a, D: StaticDataProvider, P: ShapeProvider> {
    pub base: StaticTileProvider<'a, D>,
    pub visible: &'a VisibleWorld,
    pub shapes: &'a P,
    pub static_data: &'a D,
}

impl<'a, D: StaticDataProvider, P: ShapeProvider> CompositeTileProvider<'a, D, P> {
    pub fn new(static_data: &'a D, world: u8, visible: &'a VisibleWorld, shapes: &'a P) -> (p: Self)
        ensures
            p.base == (StaticTileProvider { static_data: Some(static_data), world, diff_overlay: None }),
            p.visible == visible,
            p.shapes == shapes,
            p.static_data == static_data,
    {
        CompositeTileProvider {
            base: StaticTileProvider::new(Some(static_data), world),
            visible,
            shapes,
            static_data,
        }
    }

    /// A provider that takes patches of the map into account.
    pub fn with_diff(
        static_data: &'a D,
        world: u8,
        visible: &'a VisibleWorld,
        shapes: &'a P,
        diff_overlay: Option<&'a DiffOverlay>,
    ) -> (p: Self)
        ensures
            p.base == (StaticTileProvider { static_data: Some(static_data), world, diff_overlay }),
            p.visible == visible,
            p.shapes == shapes,
            p.static_data == static_data,
    {
        CompositeTileProvider {
            base: StaticTileProvider::with_diff(Some(static_data), world, diff_overlay),
            visible,
            shapes,
            static_data,
        }
    }

    /// What lies on the map at tile `(x, y)`: items in view in ascending order of
    /// their serials, then further shapes.
    pub open spec fn extra(&self, x: u16, y: u16) -> Seq<TileShape> {
        item_shapes(
            self.static_data,
            self.visible@,
            serials_up(self.visible@.entities.dom()),
            x,
            y,
        ) + self.shapes.shapes(x, y)
    }

    /// Adds the shape of an item to a stack, if it has one.
    fn push_item(&self, e: &WorldEntity, stack: &mut Vec<TileShape>)
        ensures
            final(stack)@ == if e@.kind() is Item {
                match self.static_data.static_form(e@.z(), e@.graphic()) {
                    Some(s) => old(stack)@.push(s),
                    None => old(stack)@,
                }
            } else {
                old(stack)@
            },
    {
        if e.is_mobile() || e.is_multi() {
            return;
        }
        if let Some(s) = self.static_data.static_shape(e.z(), e.graphic()) {
            stack.push(s);
        }
    }

    /// Adds the shapes of the items in view on tile `(x, y)`.
    fn push_items(&self, x: u16, y: u16, stack: &mut Vec<TileShape>)
        ensures
            final(stack)@ == old(stack)@ + item_shapes(
                self.static_data,
                self.visible@,
                serials_up(self.visible@.entities.dom()),
                x,
                y,
            ),
    {
        let ghost start = stack@;
        let ghost v = self.visible@;
        let ghost all = serials_up(v.entities.dom());
        let ghost rect = TileRect::point_spec(x, y);
        let ghost picked = v.inside(rect);
        let items = self.visible.items_at(x, y);
        let mut i: usize = 0;
        proof {
            lemma_items_inside(self.static_data, v, all, rect, x, y);
            assert(picked.take(0) =~= Seq::<u32>::empty());
            assert(stack@ =~= start + item_shapes(self.static_data, v, picked.take(0), x, y));
        }
        while i < items.len()
            invariant
                i <= items@.len(),
                v == self.visible@,
                items@.len() == picked.len(),
                forall|j: int|
                    0 <= j < items@.len() ==> (#[trigger] items@[j])@ == v.entities[picked[j]],
                forall|j: int|
                    0 <= j < items@.len() ==> (#[trigger] items@[j])@.x() == x && items@[j]@.y() == y,
                stack@ == start + item_shapes(self.static_data, v, picked.take(i as int), x, y),
            decreases items@.len() - i,
        {
            assert(picked.take(i + 1).drop_last() =~= picked.take(i as int));
            let ghost before = stack@;
            assert(items@[i as int]@ == v.entities[picked[i as int]]);
            self.push_item(items[i], stack);
            assert(stack@ =~= start + item_shapes(self.static_data, v, picked.take(i + 1), x, y));
            i += 1;
        }
        assert(picked.take(i as int) =~= picked);
    }

    /// Adds the shapes of the items in view to the stacks of a block.
    fn push_block_items(&self, block: BlockKey, tb: &mut TileBlock)
        requires
            block.on_map(),
            old(tb).wf(),
        ensures
            final(tb).wf(),
            final(tb).block_key == old(tb).block_key,
            forall|k: int|
                0 <= k < 64 ==> #[trigger] final(tb)@[k] == old(tb)@[k] + item_shapes(
                    self.static_data,
                    self.visible@,
                    serials_up(self.visible@.entities.dom()),
                    (block.bx * 8 + k % 8) as u16,
                    (block.by * 8 + k / 8) as u16,
                ),
    {
        let ghost start = tb@;
        let ghost v = self.visible@;
        let ghost all = serials_up(v.entities.dom());
        let ghost rect = block_rect(block);
        let ghost picked = v.inside(rect);
        let items = self.visible.items_in_block(block);
        let mut i: usize = 0;
        proof {
            assert(picked.take(0) =~= Seq::<u32>::empty());
            assert forall|k: int| 0 <= k < 64 implies #[trigger] tb@[k] == start[k] + item_shapes(
                self.static_data,
                v,
                picked.take(0),
                (block.bx * 8 + k % 8) as u16,
                (block.by * 8 + k / 8) as u16,
            ) by {
                assert(tb@[k] =~= start[k] + Seq::<TileShape>::empty());
            }
        }
        while i < items.len()
            invariant
                i <= items@.len(),
                block.on_map(),
                v == self.visible@,
                rect == block_rect(block),
                items@.len() == picked.len(),
                forall|j: int|
                    0 <= j < items@.len() ==> {
                        let e = (#[trigger] items@[j]).2@;
                        &&& e == v.entities[picked[j]]
                        &&& rect.has(e.x() as int, e.y() as int)
                        &&& items@[j].0 == e.x() - block.bx * 8
                        &&& items@[j].1 == e.y() - block.by * 8
                    },
                start.len() == 64,
                tb.wf(),
                tb.block_key == old(tb).block_key,
                forall|k: int|
                    0 <= k < 64 ==> #[trigger] tb@[k] == start[k] + item_shapes(
                        self.static_data,
                        v,
                        picked.take(i as int),
                        (block.bx * 8 + k % 8) as u16,
                        (block.by * 8 + k / 8) as u16,
                    ),
            decreases items@.len() - i,
        {
            let (ox, oy, e) = items[i];
            let ghost before = tb@;
            assert(items@[i as int].2@ == v.entities[picked[i as int]]);
            self.push_item(e, tb.tile_stack_mut(ox, oy));
            proof {
                let pre = picked.take(i as int);
                let post = picked.take(i + 1);
                assert(post.drop_last() =~= pre);
                assert forall|k: int| 0 <= k < 64 implies #[trigger] tb@[k] == start[k]
                    + item_shapes(
                    self.static_data,
                    v,
                    post,
                    (block.bx * 8 + k % 8) as u16,
                    (block.by * 8 + k / 8) as u16,
                ) by {
                    let x = (block.bx * 8 + k % 8) as u16;
                    let y = (block.by * 8 + k / 8) as u16;
                    assert(before[k] == start[k] + item_shapes(self.static_data, v, pre, x, y));
                    if oy * 8 + ox == k {
                        assert(k % 8 == ox && k / 8 == oy);
                        assert(e@.x() == x && e@.y() == y);
                    } else {
                        assert(e@.x() != x || e@.y() != y);
                    }
                    assert(tb@[k] =~= start[k] + item_shapes(self.static_data, v, post, x, y));
                }
            }
            i += 1;
        }
        proof {
            assert(picked.take(i as int) =~= picked);
            assert forall|k: int| 0 <= k < 64 implies #[trigger] tb@[k] == start[k] + item_shapes(
                self.static_data,
                v,
                all,
                (block.bx * 8 + k % 8) as u16,
                (block.by * 8 + k / 8) as u16,
            ) by {
                lemma_items_inside(
                    self.static_data,
                    v,
                    all,
                    rect,
                    (block.bx * 8 + k % 8) as u16,
                    (block.by * 8 + k / 8) as u16,
                );
            }
        }
    }

    /// Adds the further shapes to the stacks of a block.
    fn push_block_shapes(&self, block: BlockKey, tb: &mut TileBlock)
        requires
            block.on_map(),
            self.shapes.shapes_ok(),
            old(tb).wf(),
        ensures
            final(tb).wf(),
            final(tb).block_key == old(tb).block_key,
            forall|k: int|
                0 <= k < 64 ==> #[trigger] final(tb)@[k] == old(tb)@[k] + self.shapes.shapes(
                    (block.bx * 8 + k % 8) as u16,
                    (block.by * 8 + k / 8) as u16,
                ),
    {
        let ghost start = tb@;
        if self.shapes.shapes_empty() {
            assert forall|k: int| 0 <= k < 64 implies #[trigger] tb@[k] == start[k]
                + self.shapes.shapes(
                (block.bx * 8 + k % 8) as u16,
                (block.by * 8 + k / 8) as u16,
            ) by {
                let none = self.shapes.shapes(
                    (block.bx * 8 + k % 8) as u16,
                    (block.by * 8 + k / 8) as u16,
                );
                assert(start[k] + none =~= start[k]);
            }
            return;
        }
        let (x0, y0) = block.origin();
        let mut n: u8 = 0;
        while n < 64
            invariant
                n <= 64,
                block.on_map(),
                x0 == block.bx * 8,
                y0 == block.by * 8,
                self.shapes.shapes_ok(),
                tb.wf(),
                tb.block_key == old(tb).block_key,
                forall|k: int| n <= k < 64 ==> #[trigger] tb@[k] == start[k],
                forall|k: int|
                    0 <= k < n ==> #[trigger] tb@[k] == start[k] + self.shapes.shapes(
                        (block.bx * 8 + k % 8) as u16,
                        (block.by * 8 + k / 8) as u16,
                    ),
            decreases 64 - n,
        {
            let ox: u8 = n % 8;
            let oy: u8 = n / 8;
            assert(oy * 8 + ox == n);
            let more = self.shapes.get_shapes_at(x0 + ox as u16, y0 + oy as u16);
            add_shapes(tb.tile_stack_mut(ox, oy), &more);
            n += 1;
        }
    }
}

impl<'a, D: StaticDataProvider, P: ShapeProvider> TileProvider for CompositeTileProvider<'a, D, P> {
    open spec fn stack(&self, x: u16, y: u16, direction: Heading) -> Seq<TileShape> {
        sorted_stack(self.base.stack(x, y, direction) + self.extra(x, y))
    }

    open spec fn flat_stack(&self, x: u16, y: u16) -> Seq<TileShape> {
        sorted_stack(self.base.flat_stack(x, y) + self.extra(x, y))
    }

    open spec fn multi_on(&self, x: u16, y: u16) -> bool {
        self.shapes.multi_at(x, y)
    }

    fn is_multi_on(&self, x: u16, y: u16) -> (b: bool) {
        self.shapes.has_multi_at(x, y)
    }

    open spec fn covers(&self, x: u16, y: u16) -> bool {
        self.base.covers(x, y) && self.shapes.shapes_ok()
    }

    open spec fn covers_block(&self, block: BlockKey) -> bool {
        self.base.covers_block(block) && self.shapes.shapes_ok()
    }

    fn query_tile_stack(&self, x: u16, y: u16, direction: Heading) -> (s: Vec<TileShape>) {
        let mut stack = self.base.query_tile_stack(x, y, direction);
        let ghost map = stack@;
        self.push_items(x, y, &mut stack);
        let more = self.shapes.get_shapes_at(x, y);
        add_shapes(&mut stack, &more);
        proof {
            assert(stack@ =~= map + self.extra(x, y));
            sorted_stack_is_sorted(stack@);
        }
        sort_stack(&mut stack);
        stack
    }

    fn query_block(&self, block: BlockKey) -> (b: TileBlock) {
        let mut tb = self.base.query_block(block);
        let ghost map = tb@;
        self.push_block_items(block, &mut tb);
        let ghost with_items = tb@;
        self.push_block_shapes(block, &mut tb);
        let ghost piled = tb@;
        sort_block(&mut tb);
        proof {
            assert forall|k: int| 0 <= k < 64 implies (#[trigger] tb@[k]) == self.flat_stack(
                (block.bx * 8 + k % 8) as u16,
                (block.by * 8 + k / 8) as u16,
            ) by {
                let x = (block.bx * 8 + k % 8) as u16;
                let y = (block.by * 8 + k / 8) as u16;
                assert(map[k] == self.base.flat_stack(x, y));
                assert(with_items[k] == map[k] + item_shapes(
                    self.static_data,
                    self.visible@,
                    serials_up(self.visible@.entities.dom()),
                    x,
                    y,
                ));
                assert(piled[k] == with_items[k] + self.shapes.shapes(x, y));
                assert(piled[k] =~= self.base.flat_stack(x, y) + self.extra(x, y));
            }
        }
        tb
    }
}

impl<'a, D: StaticDataProvider, P: ShapeProvider> ZResolver for CompositeTileProvider<'a, D, P> {
    open spec fn resolves(&self, x: u16, y: u16) -> bool {
        self.covers(x, y)
    }

    open spec fn standing(&self, x: u16, y: u16, z_hint: i8, direction: Heading) -> Option<i8> {
        let shapes = self.stack(x, y, direction).push(TileShape::cap_spec());
        best_perch(shapes, z_hint as int, 0, false, shapes.len() as int)
    }

    fn resolve_standing_z(&self, x: u16, y: u16, z_hint: i8, direction: Heading) -> (r: Option<
        i8,
    >) {
        MovementValidator::new(self).resolve_standing_z(x, y, z_hint, direction)
    }
}

/// Whether an object in view is an item on tile `(x, y)` of which this is the shape.
pub open spec fn item_looks_like<D: StaticDataProvider>(
    sd: &D,
    v: VisibleView,
    serial: u32,
    x: u16,
    y: u16,
    s: TileShape,
) -> bool {
    &&& v.entities.contains_key(serial)
    &&& v.entities[serial].kind() is Item
    &&& v.entities[serial].x() == x
    &&& v.entities[serial].y() == y
    &&& sd.static_form(v.entities[serial].z(), v.entities[serial].graphic()) == Some(s)
}

proof fn lemma_item_shapes<D: StaticDataProvider>(
    sd: &D,
    v: VisibleView,
    serials: Seq<u32>,
    x: u16,
    y: u16,
    s: TileShape,
)
    requires
        forall|i: int| 0 <= i < serials.len() ==> v.entities.contains_key(#[trigger] serials[i]),
    ensures
        item_shapes(sd, v, serials, x, y).contains(s) <==> exists|i: int|
            0 <= i < serials.len() && item_looks_like(sd, v, #[trigger] serials[i], x, y, s),
    decreases serials.len(),
{
    if serials.len() > 0 {
        let head = serials.drop_last();
        lemma_item_shapes(sd, v, head, x, y, s);
        let all = item_shapes(sd, v, serials, x, y);
        let before = item_shapes(sd, v, head, x, y);
        let last = serials[serials.len() - 1];
        if all.contains(s) {
            let k = choose|k: int| 0 <= k < all.len() && all[k] == s;
            if k < before.len() {
                assert(before[k] == s);
                let i = choose|i: int|
                    0 <= i < head.len() && item_looks_like(sd, v, #[trigger] head[i], x, y, s);
                assert(item_looks_like(sd, v, serials[i], x, y, s));
            } else {
                assert(item_looks_like(sd, v, last, x, y, s));
            }
        }
        if exists|i: int|
            0 <= i < serials.len() && item_looks_like(sd, v, #[trigger] serials[i], x, y, s) {
            let i = choose|i: int|
                0 <= i < serials.len() && item_looks_like(sd, v, #[trigger] serials[i], x, y, s);
            if i < head.len() {
                assert(item_looks_like(sd, v, head[i], x, y, s));
                let k = choose|k: int| 0 <= k < before.len() && before[k] == s;
                assert(all[k] == s);
            } else {
                assert(all[before.len() as int] == s);
            }
        }
    }
}

/// Whether some item in view on tile `(x, y)` has this shape.
pub open spec fn some_item_looks_like<D: StaticDataProvider>(
    sd: &D,
    v: VisibleView,
    x: u16,
    y: u16,
    s: TileShape,
) -> bool {
    exists|serial: u32| #[trigger] item_looks_like(sd, v, serial, x, y, s)
}

/// Law: a tile has the shapes of the map, those of the items in view that lie there and
/// those that are remembered, and no others; with the slopes seen in a direction or flat.
/// Mobiles are in nobody's way.
pub proof fn tiles_have_map_items_and_houses<'a, D: StaticDataProvider, P: ShapeProvider>(
    p: &CompositeTileProvider<'a, D, P>,
    x: u16,
    y: u16,
    direction: Heading,
    s: TileShape,
)
    ensures
        p.stack(x, y, direction).contains(s) <==> {
            ||| p.base.stack(x, y, direction).contains(s)
            ||| some_item_looks_like(p.static_data, p.visible@, x, y, s)
            ||| p.shapes.shapes(x, y).contains(s)
        },
        p.flat_stack(x, y).contains(s) <==> {
            ||| p.base.flat_stack(x, y).contains(s)
            ||| some_item_looks_like(p.static_data, p.visible@, x, y, s)
            ||| p.shapes.shapes(x, y).contains(s)
        },
{
    let sd = p.static_data;
    let v = p.visible@;
    let serials = serials_up(v.entities.dom());
    serials_are_listed_upwards(v.entities.dom());
    assert forall|i: int| 0 <= i < serials.len() implies v.entities.contains_key(
        #[trigger] serials[i],
    ) by {
        assert(serials.contains(serials[i]));
    }
    let items = item_shapes(sd, v, serials, x, y);
    lemma_item_shapes(sd, v, serials, x, y, s);
    if some_item_looks_like(sd, v, x, y, s) {
        let serial = choose|serial: u32| #[trigger] item_looks_like(sd, v, serial, x, y, s);
        assert(serials.contains(serial));
        let i = choose|i: int| 0 <= i < serials.len() && serials[i] == serial;
        assert(item_looks_like(sd, v, serials[i], x, y, s));
    }
    lemma_joined_has(items, p.shapes.shapes(x, y), s);
    let seen = p.base.stack(x, y, direction);
    let flat = p.base.flat_stack(x, y);
    let extra = p.extra(x, y);
    lemma_joined_has(seen, extra, s);
    lemma_joined_has(flat, extra, s);
    lemma_sorted_has(seen + extra, s);
    lemma_sorted_has(flat + extra, s);
    assert(p.stack(x, y, direction) == sorted_stack(seen + extra));
    assert(p.flat_stack(x, y) == sorted_stack(flat + extra));
}

} // verus!

//! What remembered entities put in the way, over the life of a registry.

use vstd::prelude::*;
use vstd::seq_lib::lemma_multiset_commutative;

use super::entity_registry::{
    bbox_of, def_occupies, def_shapes, extent_of, offset, part_height, part_shapes, EntityRegistry,
};
use super::multi_def::{extent_holds_parts, visible_parts, PartEntry};
use super::multi_spatial::{lemma_others, others, SpatialIndex};
use super::shape_provider::ShapeProvider;
use super::tile_rect::TileRect;
use crate::vessel::entity::{Entity, EntityState};
use crate::vessel::static_data::{MultiPart, StaticDataProvider};
use crate::vessel::tile_shape::TileShape;

verus! {

impl<E: Entity, S: SpatialIndex, D: StaticDataProvider> EntityRegistry<E, S, D> {
    /// The serials of the current world near tile `(x, y)`.
    pub open spec fn near_list(&self, x: u16, y: u16) -> Seq<u32> {
        if self.stores@.contains_key(self.current_world) {
            self.stores@[self.current_world].spatial.point_list(x, y)
        } else {
            Seq::empty()
        }
    }

    /// The shapes on tile `(x, y)` of one serial of the current world.
    pub open spec fn shapes_of(&self, sd: &D, s: u32, x: u16, y: u16) -> Seq<TileShape> {
        match self.cached(self.current_world, s) {
            Some(e) => self.entity_shapes(sd, e, s, x, y),
            None => Seq::empty(),
        }
    }

    /// The shapes on tile `(x, y)` but for those of some serials.
    pub open spec fn shapes_but(&self, gone: Set<u32>, x: u16, y: u16) -> Seq<TileShape> {
        if self.static_data is Some {
            self.listed_shapes(
                &*self.static_data->0,
                list_but(self.near_list(x, y), gone),
                x,
                y,
            )
        } else {
            Seq::empty()
        }
    }
}

/// A list without some of its serials, in order.
pub open spec fn list_but(list: Seq<u32>, gone: Set<u32>) -> Seq<u32> {
    list.filter(|s: u32| !gone.contains(s))
}

/// The shapes that the map data gives an entity on tile `(x, y)`.
pub open spec fn natural_shapes<D: StaticDataProvider>(
    sd: &D,
    e: EntityState,
    x: u16,
    y: u16,
) -> Seq<TileShape> {
    if e.multi {
        laid_shapes(sd, e, sd.parts_of(e.graphic), x, y)
    } else if !e.mobile {
        match sd.static_form(e.pos.z, e.graphic) {
            Some(s) => seq![s],
            None => Seq::empty(),
        }
    } else {
        Seq::empty()
    }
}

/// The shapes of a list of parts around an entity on tile `(x, y)`.
pub open spec fn laid_shapes<D: StaticDataProvider>(
    sd: &D,
    e: EntityState,
    parts: Seq<MultiPart>,
    x: u16,
    y: u16,
) -> Seq<TileShape> {
    let dx = offset(x, e.pos.x);
    let dy = offset(y, e.pos.y);
    if extent_of(parts).holds(dx as int, dy as int) {
        part_shapes(sd, e.pos.z, visible_parts(parts, dx, dy))
    } else {
        Seq::empty()
    }
}

/// Whether a visible part of a list has this shape on tile `(x, y)`, the list laid
/// around an entity.
pub open spec fn part_stands<D: StaticDataProvider>(
    sd: &D,
    e: EntityState,
    parts: Seq<MultiPart>,
    x: u16,
    y: u16,
    shape: TileShape,
) -> bool {
    exists|i: int|
        0 <= i < parts.len() && (#[trigger] parts[i]).flags != 0 && x == e.pos.x + parts[i].x && y
            == e.pos.y + parts[i].y && sd.static_form(
            part_height(e.pos.z, parts[i].z),
            parts[i].tile_id,
        ) == Some(shape)
}

/// Whether an entity has this shape on tile `(x, y)`: an item where it lies, a
/// multi-object wherever a visible part of its graphic is.
pub open spec fn stands<D: StaticDataProvider>(
    sd: &D,
    e: EntityState,
    x: u16,
    y: u16,
    shape: TileShape,
) -> bool {
    if e.multi {
        part_stands(sd, e, sd.parts_of(e.graphic), x, y, shape)
    } else {
        !e.mobile && x == e.pos.x && y == e.pos.y && sd.static_form(e.pos.z, e.graphic) == Some(
            shape,
        )
    }
}

/// The list of a tile names what is found there, each once.
proof fn lemma_near_list<E: Entity, S: SpatialIndex, D: StaticDataProvider>(
    r: EntityRegistry<E, S, D>,
    x: u16,
    y: u16,
)
    requires
        r.wf(),
    ensures
        r.near_list(x, y).no_duplicates(),
        forall|s: u32| #[trigger]
            r.near_list(x, y).contains(s) <==> r.found_at(r.current_world, s, x, y),
        r.static_data is Some ==> r.shapes(x, y) == r.listed_shapes(
            &*r.static_data->0,
            r.near_list(x, y),
            x,
            y,
        ),
{
    if r.stores@.contains_key(r.current_world) {
        assert(r.stores@[r.current_world].wf());
        r.stores@[r.current_world].spatial.lemma_point_list(x, y);
    }
}

/// What one serial adds to the shapes of a list.
proof fn lemma_take_one<E: Entity, S: SpatialIndex, D: StaticDataProvider>(
    r: EntityRegistry<E, S, D>,
    sd: &D,
    list: Seq<u32>,
    s: u32,
    x: u16,
    y: u16,
)
    requires
        list.no_duplicates(),
        list.contains(s),
    ensures
        r.listed_shapes(sd, list, x, y).to_multiset() == r.listed_shapes(
            sd,
            others(list, s),
            x,
            y,
        ).to_multiset().add(r.shapes_of(sd, s, x, y).to_multiset()),
    decreases list.len(),
{
    reveal(Seq::filter);
    let init = list.drop_last();
    let last = list.last();
    let head = r.listed_shapes(sd, init, x, y);
    let own = r.shapes_of(sd, last, x, y);
    assert(r.listed_shapes(sd, list, x, y) =~= head + own);
    lemma_multiset_commutative(head, own);
    assert(init.no_duplicates());
    if last == s {
        lemma_none_taken(init, s);
        assert(others(list, s) =~= init) by {
            assert(!init.contains(s)) by {
                if init.contains(s) {
                    let i = choose|i: int| 0 <= i < init.len() && init[i] == s;
                    assert(list[i] == list[list.len() - 1]);
                }
            }
        }
    } else {
        assert(init.contains(s)) by {
            let i = choose|i: int| 0 <= i < list.len() && list[i] == s;
            assert(init[i] == s);
        }
        lemma_take_one(r, sd, init, s, x, y);
        let rest = others(init, s);
        assert(others(list, s) == rest.push(last));
        assert(rest.push(last).drop_last() =~= rest);
        let left = r.listed_shapes(sd, rest, x, y);
        assert(r.listed_shapes(sd, rest.push(last), x, y) =~= left + own);
        lemma_multiset_commutative(left, own);
        let mine = r.shapes_of(sd, s, x, y).to_multiset();
        assert(left.to_multiset().add(mine).add(own.to_multiset())
            =~= left.to_multiset().add(own.to_multiset()).add(mine));
    }
}

proof fn lemma_none_taken(list: Seq<u32>, s: u32)
    ensures
        !list.contains(s) ==> others(list, s) == list,
    decreases list.len(),
{
    reveal(Seq::filter);
    if !list.contains(s) {
        if list.len() > 0 {
            let init = list.drop_last();
            assert(!init.contains(s)) by {
                if init.contains(s) {
                    let i = choose|i: int| 0 <= i < init.len() && init[i] == s;
                    assert(list[i] == s);
                }
            }
            assert(list[list.len() - 1] != s);
            lemma_none_taken(init, s);
            assert(init.push(list.last()) =~= list);
        }
        assert(others(list, s) =~= list);
    }
}

/// Two lists of the same serials, with the same shapes, give the same shapes.
proof fn lemma_same_shapes<E: Entity, S: SpatialIndex, D: StaticDataProvider>(
    a: EntityRegistry<E, S, D>,
    b: EntityRegistry<E, S, D>,
    sd: &D,
    la: Seq<u32>,
    lb: Seq<u32>,
    x: u16,
    y: u16,
)
    requires
        la.no_duplicates(),
        lb.no_duplicates(),
        forall|s: u32| #[trigger] la.contains(s) <==> lb.contains(s),
        forall|s: u32| #[trigger]
            la.contains(s) ==> a.shapes_of(sd, s, x, y) == b.shapes_of(sd, s, x, y),
    ensures
        a.listed_shapes(sd, la, x, y).to_multiset() == b.listed_shapes(
            sd,
            lb,
            x,
            y,
        ).to_multiset(),
    decreases la.len(),
{
    if la.len() == 0 {
        if lb.len() > 0 {
            assert(lb.contains(lb[0]));
            assert(la.contains(lb[0]));
        }
        assert(la =~= Seq::<u32>::empty());
        assert(lb =~= Seq::<u32>::empty());
    } else {
        let s = la.last();
        assert(la[la.len() - 1] == s);
        assert(la.contains(s));
        lemma_take_one(a, sd, la, s, x, y);
        lemma_take_one(b, sd, lb, s, x, y);
        lemma_others(la, s);
        lemma_others(lb, s);
        assert(others(la, s).len() < la.len()) by {
            reveal(Seq::filter);
            let init = la.drop_last();
            if init.contains(s) {
                let i = choose|i: int| 0 <= i < init.len() && init[i] == s;
                assert(la[i] == la[la.len() - 1]);
            }
            lemma_none_taken(init, s);
        }
        lemma_same_shapes(a, b, sd, others(la, s), others(lb, s), x, y);
    }
}

/// A list without some of its serials names the others, each once.
proof fn lemma_but(list: Seq<u32>, gone: Set<u32>)
    requires
        list.no_duplicates(),
    ensures
        list_but(list, gone).no_duplicates(),
        forall|s: u32| #[trigger]
            list_but(list, gone).contains(s) <==> list.contains(s) && !gone.contains(s),
    decreases list.len(),
{
    let p = |s: u32| !gone.contains(s);
    let kept = list_but(list, gone);
    assert forall|s: u32| #[trigger] kept.contains(s) <==> list.contains(s) && !gone.contains(s) by {
        if kept.contains(s) {
            list.lemma_filter_contains_rev(p, s);
            let j = choose|j: int| 0 <= j < kept.len() && kept[j] == s;
            list.lemma_filter_pred(p, j);
        }
        if list.contains(s) && !gone.contains(s) {
            let i = choose|i: int| 0 <= i < list.len() && list[i] == s;
            list.lemma_filter_contains(p, i);
        }
    }
    reveal(Seq::filter);
    if list.len() > 0 {
        let init = list.drop_last();
        lemma_but(init, gone);
        let head = list_but(init, gone);
        if p(list.last()) {
            assert(!head.contains(list.last())) by {
                if head.contains(list.last()) {
                    assert(init.contains(list.last()));
                    let i = choose|i: int| 0 <= i < init.len() && init[i] == list.last();
                    assert(list[i] == list[list.len() - 1]);
                }
            }
            assert forall|i: int, j: int|
                0 <= i < kept.len() && 0 <= j < kept.len() && i != j implies kept[i] != kept[j] by {
                if i == head.len() {
                    assert(head.contains(head[j]));
                } else if j == head.len() {
                    assert(head.contains(head[i]));
                }
            }
        }
    }
}

/// Whether the definition of an entity's graphic was known before, or nothing else near
/// a tile waits for it.
pub open spec fn definition_known<E: Entity, S: SpatialIndex, D: StaticDataProvider>(
    r: EntityRegistry<E, S, D>,
    e: EntityState,
    x: u16,
    y: u16,
) -> bool {
    ||| !e.multi
    ||| r.multi_defs@.contains_key(e.graphic)
    ||| forall|s: u32| #[trigger]
        r.found_at(r.current_world, s, x, y) && s != e.serial ==> match r.cached(
            r.current_world,
            s,
        ) {
            Some(o) => !(o.multi && o.graphic == e.graphic),
            None => true,
        }
}

/// Law: an entity that is inserted into the current world puts the shapes that the map
/// data gives it in the way, wherever its rectangle counts as near. All others keep
/// theirs, except where the first definition of its graphic gives parts to a
/// multi-object of that graphic that had none.
pub proof fn insert_adds_shapes<E: Entity, S: SpatialIndex, D: StaticDataProvider>(
    before: EntityRegistry<E, S, D>,
    after: EntityRegistry<E, S, D>,
    e: EntityState,
    world: u8,
    x: u16,
    y: u16,
)
    requires
        before.wf(),
        after.wf(),
        !(before.cache_mode is Disabled),
        before.static_data is Some,
        EntityRegistry::inserted(before, after, e, world),
    ensures
        ({
            let own = if world == before.current_world && before.gets_shapes(e) && S::near(
                before.rect_for(e),
                x,
                y,
            ) {
                natural_shapes(&*before.static_data->0, e, x, y)
            } else {
                Seq::empty()
            };
            after.shapes(x, y).to_multiset() == after.shapes_but(
                set![e.serial],
                x,
                y,
            ).to_multiset().add(own.to_multiset())
        }),
        definition_known(before, e, x, y) ==> after.shapes_but(
            set![e.serial],
            x,
            y,
        ).to_multiset() == before.shapes_but(set![e.serial], x, y).to_multiset(),
{
    let sd = &*before.static_data->0;
    let w = before.current_world;
    let la = after.near_list(x, y);
    let lb = before.near_list(x, y);
    lemma_near_list(after, x, y);
    lemma_near_list(before, x, y);
    lemma_but(la, set![e.serial]);
    lemma_but(lb, set![e.serial]);
    assert(after.cached(w, e.serial) == if w == world {
        Some(e)
    } else {
        None
    });
    assert(after.found_at(w, e.serial, x, y) <==> w == world && before.gets_shapes(e) && S::near(
        before.rect_for(e),
        x,
        y,
    ));
    if la.contains(e.serial) {
        lemma_take_one(after, sd, la, e.serial, x, y);
        lemma_others(la, e.serial);
        lemma_same_shapes(after, after, sd, others(la, e.serial), list_but(la, set![e.serial]), x, y);
        if e.multi {
            assert(after.multi_defs@.contains_key(e.graphic));
            let d = *after.multi_defs@[e.graphic];
            let dx = offset(x, e.pos.x);
            let dy = offset(y, e.pos.y);
            assert(d.parts(dx, dy) == visible_parts(sd.parts_of(e.graphic), dx, dy));
            assert(def_shapes(sd, e.pos, d, x, y) =~= laid_shapes(
                sd,
                e,
                sd.parts_of(e.graphic),
                x,
                y,
            ));
        }
        assert(after.shapes_of(sd, e.serial, x, y) =~= natural_shapes(sd, e, x, y));
    } else {
        lemma_same_shapes(after, after, sd, la, list_but(la, set![e.serial]), x, y);
        let rest = after.shapes_but(set![e.serial], x, y).to_multiset();
        assert(Seq::<TileShape>::empty().to_multiset().len() == 0) by {
            Seq::<TileShape>::empty().to_multiset_ensures();
        }
        assert(rest.add(Seq::<TileShape>::empty().to_multiset()) =~= rest);
    }
    if definition_known(before, e, x, y) {
        assert forall|s: u32| #[trigger] list_but(la, set![e.serial]).contains(s) implies list_but(lb, set![e.serial]).contains(s)
            && after.shapes_of(sd, s, x, y) == before.shapes_of(sd, s, x, y) by {
            assert(la.contains(s) && s != e.serial);
            assert(after.found_at(w, s, x, y) <==> before.found_at(w, s, x, y));
            assert(after.cached(w, s) == before.cached(w, s));
            if let Some(o) = before.cached(w, s) {
                if o.multi {
                    assert(after.multi_defs@.contains_key(o.graphic)
                        <==> before.multi_defs@.contains_key(o.graphic));
                    assert(after.custom_defs@.contains_key(s) <==> before.custom_defs@.contains_key(
                        s,
                    ));
                }
            }
        }
        assert forall|s: u32| #[trigger] list_but(lb, set![e.serial]).contains(s) implies list_but(la, set![e.serial]).contains(
            s,
        ) by {
            assert(lb.contains(s) && s != e.serial);
            assert(after.found_at(w, s, x, y) <==> before.found_at(w, s, x, y));
        }
        lemma_same_shapes(after, before, sd, list_but(la, set![e.serial]), list_but(lb, set![e.serial]), x, y);
    }
}

/// Law: to forget an entity takes its shapes out of the way, and no others.
pub proof fn remove_takes_shapes<E: Entity, S: SpatialIndex, D: StaticDataProvider>(
    before: EntityRegistry<E, S, D>,
    after: EntityRegistry<E, S, D>,
    serial: u32,
    x: u16,
    y: u16,
)
    requires
        before.wf(),
        after.wf(),
        EntityRegistry::forgotten(before, after, serial),
    ensures
        after.shapes(x, y).to_multiset() == before.shapes_but(set![serial], x, y).to_multiset(),
{
    let w = before.current_world;
    lemma_near_list(after, x, y);
    lemma_near_list(before, x, y);
    if before.static_data is Some {
        let sd = &*before.static_data->0;
        let la = after.near_list(x, y);
        let lb = before.near_list(x, y);
        lemma_but(lb, set![serial]);
        assert forall|s: u32| #[trigger] la.contains(s) <==> list_but(lb, set![serial]).contains(s) by {
            assert(after.found_at(w, s, x, y) <==> before.found_at(w, s, x, y) && s != serial);
            assert(list_but(lb, set![serial]).contains(s) <==> lb.contains(s) && !set![serial].contains(s));
        }
        assert forall|s: u32| #[trigger] la.contains(s) implies after.shapes_of(sd, s, x, y)
            == before.shapes_of(sd, s, x, y) by {
            assert(list_but(lb, set![serial]).contains(s));
            assert(after.cached(w, s) == before.cached(w, s));
        }
        lemma_same_shapes(after, before, sd, la, list_but(lb, set![serial]), x, y);
    }
}

/// Law: a sweep takes the shapes of what is stale out of the way, and no others: what
/// was confirmed, or is not swept, stands as before with all that was laid over it.
pub proof fn sweep_takes_stale_shapes<E: Entity, S: SpatialIndex, D: StaticDataProvider>(
    before: EntityRegistry<E, S, D>,
    after: EntityRegistry<E, S, D>,
    rect: TileRect,
    n: usize,
    x: u16,
    y: u16,
)
    requires
        before.wf(),
        EntityRegistry::swept(before, after, rect, n),
    ensures
        after.shapes(x, y).to_multiset() == before.shapes_but(
            Set::new(|s: u32| before.is_stale(rect, s)),
            x,
            y,
        ).to_multiset(),
{
    let w = before.current_world;
    let stale = Set::new(|s: u32| before.is_stale(rect, s));
    lemma_near_list(after, x, y);
    lemma_near_list(before, x, y);
    if before.static_data is Some {
        let sd = &*before.static_data->0;
        let la = after.near_list(x, y);
        let lb = before.near_list(x, y);
        lemma_but(lb, stale);
        assert forall|s: u32| #[trigger] la.contains(s) <==> list_but(lb, stale).contains(s) by {
            assert(after.found_at(w, s, x, y) <==> before.found_at(w, s, x, y) && !before.is_stale(
                rect,
                s,
            ));
            assert(list_but(lb, stale).contains(s) <==> lb.contains(s) && !stale.contains(s));
        }
        assert forall|s: u32| #[trigger] la.contains(s) implies after.shapes_of(sd, s, x, y)
            == before.shapes_of(sd, s, x, y) by {
            assert(list_but(lb, stale).contains(s));
            assert(!before.is_stale(rect, s));
            assert(after.cached(w, s) == before.cached(w, s));
            assert(after.custom_defs@.contains_key(s) <==> before.custom_defs@.contains_key(s));
        }
        lemma_same_shapes(after, before, sd, la, list_but(lb, stale), x, y);
    }
}

/// Law: parts that a player designed stand in the way beside those of the graphic that
/// are known, in place of an earlier design; all other entities keep their shapes.
pub proof fn design_adds_shapes<E: Entity, S: SpatialIndex, D: StaticDataProvider>(
    before: EntityRegistry<E, S, D>,
    after: EntityRegistry<E, S, D>,
    serial: u32,
    parts: Seq<MultiPart>,
    x: u16,
    y: u16,
)
    requires
        before.wf(),
        after.wf(),
        before.static_data is Some,
        before.cached(before.current_world, serial) matches Some(e) && e.multi,
        EntityRegistry::customized(before, after, serial, parts, before.current_world),
    ensures
        ({
            let sd = &*before.static_data->0;
            let e = before.cached(before.current_world, serial)->0;
            let own = if S::near(before.custom_rect(e, parts), x, y) {
                (if before.multi_defs@.contains_key(e.graphic) {
                    laid_shapes(sd, e, sd.parts_of(e.graphic), x, y)
                } else {
                    Seq::empty()
                }) + laid_shapes(sd, e, parts, x, y)
            } else {
                Seq::empty()
            };
            after.shapes(x, y).to_multiset() == before.shapes_but(
                set![serial],
                x,
                y,
            ).to_multiset().add(own.to_multiset())
        }),
{
    let sd = &*before.static_data->0;
    let w = before.current_world;
    let e = before.cached(w, serial)->0;
    let la = after.near_list(x, y);
    let lb = before.near_list(x, y);
    lemma_near_list(after, x, y);
    lemma_near_list(before, x, y);
    lemma_but(lb, set![serial]);
    lemma_others(la, serial);
    lemma_none_taken(la, serial);
    let rest = others(la, serial);
    assert(after.cached(w, serial) == before.cached(w, serial));
    assert(after.found_at(w, serial, x, y) <==> S::near(before.custom_rect(e, parts), x, y));
    assert forall|s: u32| #[trigger] rest.contains(s) <==> list_but(lb, set![serial]).contains(s) by {
        assert(after.found_at(w, s, x, y) <==> if s == serial {
            S::near(before.custom_rect(e, parts), x, y)
        } else {
            before.found_at(w, s, x, y)
        });
        assert(list_but(lb, set![serial]).contains(s) <==> lb.contains(s) && !set![serial].contains(s));
    }
    assert forall|s: u32| #[trigger] rest.contains(s) implies after.shapes_of(sd, s, x, y)
        == before.shapes_of(sd, s, x, y) by {
        assert(s != serial);
        assert(after.cached(w, s) == before.cached(w, s));
    }
    lemma_same_shapes(after, before, sd, rest, list_but(lb, set![serial]), x, y);
    if la.contains(serial) {
        lemma_take_one(after, sd, la, serial, x, y);
        let dx = offset(x, e.pos.x);
        let dy = offset(y, e.pos.y);
        let c = *after.custom_defs@[serial];
        assert(c.parts(dx, dy) == visible_parts(parts, dx, dy));
        assert(def_shapes(sd, e.pos, c, x, y) =~= laid_shapes(sd, e, parts, x, y));
        if before.multi_defs@.contains_key(e.graphic) {
            let d = *before.multi_defs@[e.graphic];
            assert(d.parts(dx, dy) == visible_parts(sd.parts_of(e.graphic), dx, dy));
            assert(def_shapes(sd, e.pos, d, x, y) =~= laid_shapes(
                sd,
                e,
                sd.parts_of(e.graphic),
                x,
                y,
            ));
        }
    } else {
        let left = before.shapes_but(set![serial], x, y).to_multiset();
        Seq::<TileShape>::empty().to_multiset_ensures();
        assert(left.add(Seq::<TileShape>::empty().to_multiset()) =~= left);
    }
}

/// A visible part is among those at its offset, and with it its shape.
proof fn lemma_part_shape<D: StaticDataProvider>(
    sd: &D,
    z: i8,
    parts: Seq<MultiPart>,
    i: int,
    shape: TileShape,
)
    requires
        0 <= i < parts.len(),
        parts[i].flags != 0,
        sd.static_form(part_height(z, parts[i].z), parts[i].tile_id) == Some(shape),
    ensures
        part_shapes(sd, z, visible_parts(parts, parts[i].x, parts[i].y)).contains(shape),
    decreases parts.len(),
{
    let dx = parts[i].x;
    let dy = parts[i].y;
    let init = parts.drop_last();
    let head = visible_parts(init, dx, dy);
    let all = visible_parts(parts, dx, dy);
    let was = part_shapes(sd, z, head);
    if all.len() == head.len() + 1 {
        assert(all.drop_last() =~= head);
    }
    if i < init.len() {
        assert(init[i] == parts[i]);
        lemma_part_shape(sd, z, init, i, shape);
        let j = choose|j: int| 0 <= j < was.len() && was[j] == shape;
        assert(part_shapes(sd, z, all)[j] == shape);
    } else {
        let p = PartEntry { tile_id: parts[i].tile_id, z: parts[i].z };
        assert(all == head.push(p));
        assert(part_shapes(sd, z, all) == was.push(shape));
        assert(part_shapes(sd, z, all)[was.len() as int] == shape);
    }
}

/// A part that stands on a tile is within the rectangle of its list, and its shape
/// among those there.
proof fn lemma_part_stands<D: StaticDataProvider>(
    sd: &D,
    e: EntityState,
    parts: Seq<MultiPart>,
    x: u16,
    y: u16,
    shape: TileShape,
)
    requires
        part_stands(sd, e, parts, x, y, shape),
    ensures
        bbox_of(e.pos.x, e.pos.y, extent_of(parts)).has(x as int, y as int),
        laid_shapes(sd, e, parts, x, y).contains(shape),
{
    let i = choose|i: int|
        0 <= i < parts.len() && (#[trigger] parts[i]).flags != 0 && x == e.pos.x + parts[i].x && y
            == e.pos.y + parts[i].y && sd.static_form(
            part_height(e.pos.z, parts[i].z),
            parts[i].tile_id,
        ) == Some(shape);
    extent_holds_parts(parts, i);
    lemma_part_shape(sd, e.pos.z, parts, i, shape);
    assert(offset(x, e.pos.x) == parts[i].x);
    assert(offset(y, e.pos.y) == parts[i].y);
}

/// Law: what was inserted into the current world stands in the way, an item where it
/// lies and a multi-object wherever one of its visible parts is, in view or not.
pub proof fn inserted_stands_in_the_way<E: Entity, S: SpatialIndex, D: StaticDataProvider>(
    before: EntityRegistry<E, S, D>,
    after: EntityRegistry<E, S, D>,
    e: EntityState,
    x: u16,
    y: u16,
    shape: TileShape,
)
    requires
        before.wf(),
        after.wf(),
        !(before.cache_mode is Disabled),
        before.static_data is Some,
        EntityRegistry::inserted(before, after, e, before.current_world),
        stands(&*before.static_data->0, e, x, y, shape),
    ensures
        after.found_at(before.current_world, e.serial, x, y),
        after.shapes(x, y).contains(shape),
{
    let sd = &*before.static_data->0;
    let own = natural_shapes(sd, e, x, y);
    if e.multi {
        lemma_part_stands(sd, e, sd.parts_of(e.graphic), x, y, shape);
    } else {
        assert(own[0] == shape);
    }
    S::lemma_within_is_near(before.rect_for(e), x, y);
    insert_adds_shapes(before, after, e, before.current_world, x, y);
    own.to_multiset_ensures();
    after.shapes(x, y).to_multiset_ensures();
    assert(own.to_multiset().count(shape) > 0);
    assert(after.shapes(x, y).to_multiset().count(shape) > 0);
}

/// Law: a design that was laid over a remembered multi-object of the current world
/// stands in the way wherever one of its visible parts is.
pub proof fn design_stands_in_the_way<E: Entity, S: SpatialIndex, D: StaticDataProvider>(
    before: EntityRegistry<E, S, D>,
    after: EntityRegistry<E, S, D>,
    serial: u32,
    parts: Seq<MultiPart>,
    x: u16,
    y: u16,
    shape: TileShape,
)
    requires
        before.wf(),
        after.wf(),
        before.static_data is Some,
        before.cached(before.current_world, serial) matches Some(e) && e.multi,
        EntityRegistry::customized(before, after, serial, parts, before.current_world),
        part_stands(
            &*before.static_data->0,
            before.cached(before.current_world, serial)->0,
            parts,
            x,
            y,
            shape,
        ),
    ensures
        after.found_at(before.current_world, serial, x, y),
        after.shapes(x, y).contains(shape),
{
    let sd = &*before.static_data->0;
    let e = before.cached(before.current_world, serial)->0;
    lemma_part_stands(sd, e, parts, x, y, shape);
    let rect = before.custom_rect(e, parts);
    assert(rect.has(x as int, y as int));
    S::lemma_within_is_near(rect, x, y);
    design_adds_shapes(before, after, serial, parts, x, y);
    let base = if before.multi_defs@.contains_key(e.graphic) {
        laid_shapes(sd, e, sd.parts_of(e.graphic), x, y)
    } else {
        Seq::empty()
    };
    let laid = laid_shapes(sd, e, parts, x, y);
    let j = choose|j: int| 0 <= j < laid.len() && laid[j] == shape;
    assert((base + laid)[base.len() + j] == shape);
    (base + laid).to_multiset_ensures();
    after.shapes(x, y).to_multiset_ensures();
    assert((base + laid).to_multiset().count(shape) > 0);
    assert(after.shapes(x, y).to_multiset().count(shape) > 0);
}

/// A visible part is among those at its offset.
proof fn lemma_part_there(parts: Seq<MultiPart>, i: int)
    requires
        0 <= i < parts.len(),
        parts[i].flags != 0,
    ensures
        visible_parts(parts, parts[i].x, parts[i].y).len() > 0,
    decreases parts.len(),
{
    let init = parts.drop_last();
    if i < init.len() {
        assert(init[i] == parts[i]);
        lemma_part_there(init, i);
    }
}

/// Law: a multi-object that was inserted into the current world occupies each tile on
/// which one of its visible parts is.
pub proof fn inserted_occupies<E: Entity, S: SpatialIndex, D: StaticDataProvider>(
    before: EntityRegistry<E, S, D>,
    after: EntityRegistry<E, S, D>,
    e: EntityState,
    i: int,
    x: u16,
    y: u16,
)
    requires
        before.wf(),
        after.wf(),
        !(before.cache_mode is Disabled),
        before.static_data is Some,
        EntityRegistry::inserted(before, after, e, before.current_world),
        e.multi,
        0 <= i < (before.static_data->0).parts_of(e.graphic).len(),
        (before.static_data->0).parts_of(e.graphic)[i].flags != 0,
        x == e.pos.x + (before.static_data->0).parts_of(e.graphic)[i].x,
        y == e.pos.y + (before.static_data->0).parts_of(e.graphic)[i].y,
    ensures
        after.multi_at(x, y),
{
    let w = before.current_world;
    let parts = (before.static_data->0).parts_of(e.graphic);
    let d = *after.multi_defs@[e.graphic];
    extent_holds_parts(parts, i);
    lemma_part_there(parts, i);
    assert(offset(x, e.pos.x) == parts[i].x);
    assert(offset(y, e.pos.y) == parts[i].y);
    assert(after.multi_defs@.contains_key(e.graphic));
    assert(d.parts(parts[i].x, parts[i].y) == visible_parts(parts, parts[i].x, parts[i].y));
    assert(def_occupies(e.pos, d, x, y));
    S::lemma_within_is_near(before.rect_for(e), x, y);
    assert(after.found_at(w, e.serial, x, y));
    assert(after.cached(w, e.serial) == Some(e));
    assert(after.occupant(e.serial, x, y));
}

/// Law: a part stands as much over its multi-object as its offset says, as far as heights
/// go; an offset that is no height counts as the nearest one.
pub proof fn parts_are_raised(z: i8, dz: i16)
    ensures
        -128 <= dz <= 127 && -128 <= z + dz <= 127 ==> part_height(z, dz) == z + dz,
        dz > 127 && z >= 0 ==> part_height(z, dz) == 127,
        dz > 127 && z < 0 ==> part_height(z, dz) == z + 127,
        dz < -128 && z <= 0 ==> part_height(z, dz) == -128,
        dz < -128 && z > 0 ==> part_height(z, dz) == z - 128,
        -128 <= dz <= 127 && z + dz > 127 ==> part_height(z, dz) == 127,
        -128 <= dz <= 127 && z + dz < -128 ==> part_height(z, dz) == -128,
{
}

/// Law: the rectangle of a multi-object has just the tiles of the map that its extent spans
/// around it.
pub proof fn rectangles_are_around_their_origin(
    x: u16,
    y: u16,
    e: super::multi_def::MultiExtent,
    a: u16,
    b: u16,
)
    requires
        e.x_min <= 0 <= e.x_max,
        e.y_min <= 0 <= e.y_max,
    ensures
        ({
            let r = bbox_of(x, y, e);
            r.x_min <= a <= r.x_max && r.y_min <= b <= r.y_max <==> x + e.x_min <= a <= x + e.x_max
                && y + e.y_min <= b <= y + e.y_max
        }),
{
}

/// Law: two rectangles taken together reach just as far as the one that reaches farther, on
/// each side.
pub proof fn hulls_hold_both(a: TileRect, b: TileRect)
    ensures
        ({
            let h = super::entity_registry::hull(a, b);
            &&& h.x_min <= a.x_min && h.x_min <= b.x_min && (h.x_min == a.x_min || h.x_min
                == b.x_min)
            &&& h.y_min <= a.y_min && h.y_min <= b.y_min && (h.y_min == a.y_min || h.y_min
                == b.y_min)
            &&& h.x_max >= a.x_max && h.x_max >= b.x_max && (h.x_max == a.x_max || h.x_max
                == b.x_max)
            &&& h.y_max >= a.y_max && h.y_max >= b.y_max && (h.y_max == a.y_max || h.y_max
                == b.y_max)
        }),
{
}

/// Law: a sweep removes just what is found in view, is of a kind that is swept, and was not
/// confirmed since confirmations are collected.
pub proof fn stale_is_what_nobody_confirms<E: Entity, S: SpatialIndex, D: StaticDataProvider>(
    r: EntityRegistry<E, S, D>,
    rect: TileRect,
    s: u32,
)
    ensures
        r.staleness.confirmed@.contains(s) ==> !r.is_stale(rect, s),
        r.cached(r.current_world, s) is None ==> !r.is_stale(rect, s),
        !r.found_in(r.current_world, s, rect) ==> !r.is_stale(rect, s),
        r.cached(r.current_world, s) matches Some(e) ==> {
            &&& e.mobile && !r.staleness_config.mobiles ==> !r.is_stale(rect, s)
            &&& !e.mobile && e.multi && !r.staleness_config.multis ==> !r.is_stale(rect, s)
            &&& !e.mobile && !e.multi && !r.staleness_config.items ==> !r.is_stale(rect, s)
            &&& r.found_in(r.current_world, s, rect) && !r.staleness.confirmed@.contains(s) && (
            e.mobile && r.staleness_config.mobiles || !e.mobile && e.multi
                && r.staleness_config.multis || !e.mobile && !e.multi && r.staleness_config.items)
                ==> r.is_stale(rect, s)
        },
{
}

/// Law: an entity is within a rectangle if its place is, and a multi-object if the two
/// rectangles share a row and a column.
pub proof fn entities_are_within_by_place<E: Entity, S: SpatialIndex, D: StaticDataProvider>(
    r: EntityRegistry<E, S, D>,
    s: u32,
    rect: TileRect,
)
    ensures
        r.bbox(r.current_world, s) matches Some(b) ==> (r.within(s, rect) <==> b.x_min <= rect.x_max
            && rect.x_min <= b.x_max && b.y_min <= rect.y_max && rect.y_min <= b.y_max),
        r.bbox(r.current_world, s) is None ==> match r.cached(r.current_world, s) {
            Some(e) => r.within(s, rect) <==> rect.x_min <= e.pos.x <= rect.x_max && rect.y_min
                <= e.pos.y <= rect.y_max,
            None => !r.within(s, rect),
        },
{
}

} // verus!

//! The containers that an entity carries from one zone to another.

use vstd::prelude::*;
use vstd::set_lib::{lemma_int_range, lemma_set_subset_finite, set_int_range};

use super::container::{
    has_serial, index_without, ContainerInfo, ContainerItem, ContainerView, ZoneContainers,
};

verus! {

/// How deep the walk through nested containers goes at most; the backpack itself is
/// at depth one.
pub const MAX_DEPTH: usize = 64;

/// The serials of items, in order.
pub open spec fn item_list(items: Seq<ContainerItem>) -> Seq<u32> {
    items.map_values(|i: ContainerItem| i.serial)
}

/// Those of the items that are containers themselves.
pub open spec fn boxes_among(serials: Seq<u32>, m: Map<u32, ContainerView>) -> Seq<u32> {
    serials.filter(|s: u32| m.contains_key(s))
}

/// What a walk through containers took, and what it left.
#[verifier::ext_equal]
pub struct Cargo {
    pub taken: Seq<(u32, ContainerView)>,
    pub left: Map<u32, ContainerView>,
}

/// What is to be taken after a container at some depth: the containers in it, one
/// deeper, unless that is too deep.
pub open spec fn waiting_next(
    items: Seq<ContainerItem>,
    left: Map<u32, ContainerView>,
    depth: usize,
) -> Seq<(u32, usize)> {
    if depth < MAX_DEPTH {
        boxes_among(item_list(items), left).map_values(|s: u32| (s, (depth + 1) as usize))
    } else {
        Seq::empty()
    }
}

/// A walk through nested containers, each waiting with its depth: the last of those
/// waiting is taken, and the containers in it wait next.
pub open spec fn walk(c: Cargo, waiting: Seq<(u32, usize)>) -> Cargo
    decreases c.left.dom().len(), waiting.len(),
    via walk_decreases
{
    if waiting.len() == 0 {
        c
    } else {
        let (cs, depth) = waiting.last();
        let rest = waiting.drop_last();
        if c.left.contains_key(cs) {
            let left = c.left.remove(cs);
            walk(
                Cargo { taken: c.taken.push((cs, c.left[cs])), left },
                rest + waiting_next(c.left[cs].items, left, depth),
            )
        } else {
            walk(c, rest)
        }
    }
}

#[via_fn]
proof fn walk_decreases(c: Cargo, waiting: Seq<(u32, usize)>) {
    lemma_serials_finite(c.left.dom());
}

/// There are finitely many serials.
proof fn lemma_serials_finite(s: Set<u32>)
    ensures
        s.finite(),
{
    let all = set_int_range(0, 0x1_0000_0000);
    lemma_int_range(0, 0x1_0000_0000);
    let f = |i: int| i as u32;
    all.lemma_map_finite(f);
    assert forall|x: u32| #[trigger] s.contains(x) implies all.map(f).contains(x) by {
        assert(all.contains(x as int));
        assert(f(x as int) == x);
    }
    lemma_set_subset_finite(all.map(f), s);
}

/// All that is carried in a backpack.
pub open spec fn cargo_of(m: Map<u32, ContainerView>, backpack: Option<u32>) -> Cargo {
    match backpack {
        Some(bp) => walk(Cargo { taken: Seq::empty(), left: m }, seq![(bp, 1usize)]),
        None => Cargo { taken: Seq::empty(), left: m },
    }
}

/// Where the items are once the containers of a list are gone.
pub open spec fn places_without(
    places: Map<u32, u32>,
    taken: Seq<(u32, ContainerView)>,
) -> Map<u32, u32>
    decreases taken.len(),
{
    if taken.len() == 0 {
        places
    } else {
        index_without(places_without(places, taken.drop_last()), taken.last().1.items)
    }
}

/// What a list of containers amounts to.
pub open spec fn cargo_views(v: Seq<(u32, ContainerInfo)>) -> Seq<(u32, ContainerView)> {
    v.map_values(|p: (u32, ContainerInfo)| (p.0, p.1@))
}

/// Takes out of a storage all containers that a backpack leads to, and hands them
/// out in the order in which the walk meets them.
pub fn collect_and_remove_containers<C: ZoneContainers>(
    store: &mut C,
    backpack_serial: Option<u32>,
) -> (r: Vec<(u32, ContainerInfo)>)
    ensures
        cargo_views(r@) == cargo_of(old(store).stored(), backpack_serial).taken,
        final(store).stored() == cargo_of(old(store).stored(), backpack_serial).left,
        final(store).places() == places_without(
            old(store).places(),
            cargo_of(old(store).stored(), backpack_serial).taken,
        ),
        final(store).keeps() == old(store).keeps(),
        final(store).indexes() == old(store).indexes(),
{
    let mut collected: Vec<(u32, ContainerInfo)> = Vec::new();
    assert(cargo_views(collected@) =~= Seq::<(u32, ContainerView)>::empty());
    let bp: u32 = match backpack_serial {
        Some(s) => s,
        None => {
            return collected;
        },
    };
    let mut waiting: Vec<(u32, usize)> = Vec::new();
    waiting.push((bp, 1));
    assert(waiting@ =~= seq![(bp, 1usize)]);
    let ghost goal = cargo_of(store.stored(), backpack_serial);
    while waiting.len() > 0
        invariant
            walk(Cargo { taken: cargo_views(collected@), left: store.stored() }, waiting@) == goal,
            store.places() == places_without(old(store).places(), cargo_views(collected@)),
            store.keeps() == old(store).keeps(),
            store.indexes() == old(store).indexes(),
        decreases store.stored().dom().len(), waiting@.len(),
    {
        let ghost before = store.stored();
        let ghost queue = waiting@;
        let (cs, depth): (u32, usize) = waiting[waiting.len() - 1];
        let _last = waiting.pop();
        proof {
            assert(waiting@ =~= queue.drop_last());
            lemma_serials_finite(before.dom());
        }
        if let Some(info) = store.remove_entry(cs) {
            let ghost view = info@;
            if depth < MAX_DEPTH {
                let serials = info.item_serials();
                assert(serials@ =~= item_list(view.items));
                let ghost rest = waiting@;
                let ghost deeper = |s: u32| (s, (depth + 1) as usize);
                let mut i: usize = 0;
                proof {
                    reveal(Seq::filter);
                    assert(serials@.take(0) =~= Seq::<u32>::empty());
                    assert(waiting@ =~= rest + boxes_among(
                        serials@.take(0),
                        store.stored(),
                    ).map_values(deeper));
                }
                while i < serials.len()
                    invariant
                        i <= serials@.len(),
                        depth < MAX_DEPTH,
                        deeper == (|s: u32| (s, (depth + 1) as usize)),
                        waiting@ == rest + boxes_among(
                            serials@.take(i as int),
                            store.stored(),
                        ).map_values(deeper),
                    decreases serials@.len() - i,
                {
                    proof {
                        reveal(Seq::filter);
                        assert(serials@.take(i + 1).drop_last() =~= serials@.take(i as int));
                    }
                    if store.get(serials[i]).is_some() {
                        waiting.push((serials[i], depth + 1));
                    }
                    assert(waiting@ =~= rest + boxes_among(
                        serials@.take(i + 1),
                        store.stored(),
                    ).map_values(deeper));
                    i += 1;
                }
                assert(serials@.take(i as int) =~= serials@);
            } else {
                assert(waiting@ =~= waiting@ + waiting_next(view.items, store.stored(), depth));
            }
            let ghost had = cargo_views(collected@);
            collected.push((cs, info));
            assert(cargo_views(collected@) =~= had.push((cs, view)));
            assert(had.push((cs, view)).drop_last() =~= had);
        } else {
            assert(before.remove(cs) =~= before);
        }
    }
    collected
}

/// Whether a chain of containers, each in the one before, leads from one container
/// to another.
pub open spec fn leads(m: Map<u32, ContainerView>, path: Seq<u32>, from: u32, to: u32) -> bool {
    &&& path.len() > 0
    &&& path[0] == from
    &&& path.last() == to
    &&& forall|i: int| 0 <= i < path.len() ==> m.contains_key(#[trigger] path[i])
    &&& forall|i: int| 0 <= i < path.len() - 1 ==> #[trigger] linked(m, path, i)
}

/// Whether the next container of a chain is in this one.
pub open spec fn linked(m: Map<u32, ContainerView>, path: Seq<u32>, i: int) -> bool {
    has_serial(m[path[i]].items, path[i + 1])
}

/// Whether one container is within another, at whatever depth.
pub open spec fn nested(m: Map<u32, ContainerView>, from: u32, to: u32) -> bool {
    exists|path: Seq<u32>| #[trigger] leads(m, path, from, to)
}

/// Whether a container was taken.
pub open spec fn was_taken(taken: Seq<(u32, ContainerView)>, c: u32) -> bool {
    exists|i: int| 0 <= i < taken.len() && (#[trigger] taken[i]).0 == c
}

/// Whether no chain of different containers from a backpack down is too long.
pub open spec fn shallow(m: Map<u32, ContainerView>, bp: u32) -> bool {
    forall|path: Seq<u32>|
        #[trigger] leads(m, path, bp, path.last()) && path.no_duplicates() ==> path.len()
            <= MAX_DEPTH
}

/// Whether a chain of different containers that were taken leads to a container, and
/// is as long as its depth says.
spec fn way(
    m: Map<u32, ContainerView>,
    taken: Seq<(u32, ContainerView)>,
    bp: u32,
    path: Seq<u32>,
    x: (u32, usize),
) -> bool {
    &&& path.len() + 1 == x.1
    &&& path.no_duplicates()
    &&& forall|i: int| 0 <= i < path.len() ==> was_taken(taken, #[trigger] path[i])
    &&& leads(m, path.push(x.0), bp, x.0)
}

spec fn reached(
    m: Map<u32, ContainerView>,
    taken: Seq<(u32, ContainerView)>,
    bp: u32,
    x: (u32, usize),
) -> bool {
    exists|path: Seq<u32>| #[trigger] way(m, taken, bp, path, x)
}

spec fn waits(waiting: Seq<(u32, usize)>, x: u32) -> bool {
    exists|i: int| 0 <= i < waiting.len() && (#[trigger] waiting[i]).0 == x
}

/// Whether what was taken is gone, is as it was, was nested, came once, and came
/// after the backpack.
pub open spec fn fairly_taken(m: Map<u32, ContainerView>, bp: u32, c: Cargo) -> bool {
    &&& forall|k: u32| #[trigger]
        c.left.contains_key(k) <==> m.contains_key(k) && !was_taken(c.taken, k)
    &&& forall|k: u32| #[trigger] c.left.contains_key(k) ==> c.left[k] == m[k]
    &&& forall|i: int|
        0 <= i < c.taken.len() ==> m.contains_key((#[trigger] c.taken[i]).0) && c.taken[i].1
            == m[c.taken[i].0] && nested(m, bp, c.taken[i].0)
    &&& forall|i: int, j: int|
        0 <= i < j < c.taken.len() ==> (#[trigger] c.taken[i]).0 != (#[trigger] c.taken[j]).0
    &&& c.taken.len() > 0 ==> c.taken[0].0 == bp
}

/// Whether all that is in the containers taken is taken or waits.
spec fn followed(
    m: Map<u32, ContainerView>,
    taken: Seq<(u32, ContainerView)>,
    waiting: Seq<(u32, usize)>,
) -> bool {
    forall|k: u32, x: u32|
        was_taken(taken, k) && #[trigger] has_serial(m[k].items, x) && m.contains_key(x)
            ==> was_taken(taken, x) || waits(waiting, x)
}

/// Whether a walk is on its way.
spec fn on_way(m: Map<u32, ContainerView>, bp: u32, c: Cargo, waiting: Seq<(u32, usize)>) -> bool {
    &&& fairly_taken(m, bp, c)
    &&& forall|i: int|
        0 <= i < waiting.len() ==> (m.contains_key((#[trigger] waiting[i]).0) ==> reached(
            m,
            c.taken,
            bp,
            waiting[i],
        ))
    &&& c.taken.len() == 0 ==> forall|i: int|
        0 <= i < waiting.len() ==> (#[trigger] waiting[i]).0 == bp
    &&& m.contains_key(bp) ==> was_taken(c.taken, bp) || waits(waiting, bp)
    &&& shallow(m, bp) ==> followed(m, c.taken, waiting)
}

proof fn lemma_taken_next(taken: Seq<(u32, ContainerView)>, p: (u32, ContainerView), k: u32)
    ensures
        was_taken(taken.push(p), k) <==> was_taken(taken, k) || k == p.0,
{
    let next = taken.push(p);
    if was_taken(taken, k) {
        let i = choose|i: int| 0 <= i < taken.len() && (#[trigger] taken[i]).0 == k;
        assert(next[i].0 == k);
    }
    if k == p.0 {
        assert(next[taken.len() as int].0 == k);
    }
    if was_taken(next, k) {
        let i = choose|i: int| 0 <= i < next.len() && (#[trigger] next[i]).0 == k;
        if i < taken.len() {
            assert(taken[i].0 == k);
        }
    }
}

proof fn lemma_boxes(items: Seq<ContainerItem>, m: Map<u32, ContainerView>, x: u32)
    ensures
        boxes_among(item_list(items), m).contains(x) <==> has_serial(items, x) && m.contains_key(x),
{
    let list = item_list(items);
    let p = |s: u32| m.contains_key(s);
    let b = boxes_among(list, m);
    if b.contains(x) {
        list.lemma_filter_contains_rev(p, x);
        let i = choose|i: int| 0 <= i < list.len() && list[i] == x;
        assert(items[i].serial == x);
        let j = choose|j: int| 0 <= j < b.len() && b[j] == x;
        list.lemma_filter_pred(p, j);
    }
    if has_serial(items, x) && m.contains_key(x) {
        let i = choose|i: int| 0 <= i < items.len() && (#[trigger] items[i]).serial == x;
        assert(list[i] == x);
        list.lemma_filter_contains(p, i);
    }
}

proof fn lemma_next(
    items: Seq<ContainerItem>,
    left: Map<u32, ContainerView>,
    depth: usize,
    x: u32,
)
    ensures
        waits(waiting_next(items, left, depth), x) <==> depth < MAX_DEPTH && has_serial(items, x)
            && left.contains_key(x),
{
    let b = boxes_among(item_list(items), left);
    let w = waiting_next(items, left, depth);
    lemma_boxes(items, left, x);
    if waits(w, x) {
        let i = choose|i: int| 0 <= i < w.len() && (#[trigger] w[i]).0 == x;
        assert(b[i] == x);
    }
    if depth < MAX_DEPTH && b.contains(x) {
        let i = choose|i: int| 0 <= i < b.len() && b[i] == x;
        assert(w[i].0 == x);
    }
}

/// A way to a container goes on to what is in it.
proof fn lemma_way_next(
    m: Map<u32, ContainerView>,
    taken: Seq<(u32, ContainerView)>,
    bp: u32,
    path: Seq<u32>,
    c: (u32, usize),
    x: u32,
)
    requires
        way(m, taken, bp, path, c),
        !was_taken(taken, c.0),
        m.contains_key(c.0),
        m.contains_key(x),
        has_serial(m[c.0].items, x),
        c.1 < usize::MAX,
    ensures
        way(m, taken.push((c.0, m[c.0])), bp, path.push(c.0), (x, (c.1 + 1) as usize)),
{
    let next = taken.push((c.0, m[c.0]));
    let shorter = path.push(c.0);
    let longer = shorter.push(x);
    assert forall|i: int| 0 <= i < shorter.len() implies was_taken(next, #[trigger] shorter[i]) by {
        lemma_taken_next(taken, (c.0, m[c.0]), shorter[i]);
        if i < path.len() {
            assert(was_taken(taken, path[i]));
        }
    }
    assert forall|i: int, j: int|
        0 <= i < shorter.len() && 0 <= j < shorter.len() && i != j implies shorter[i]
        != shorter[j] by {
        if i < path.len() {
            assert(was_taken(taken, path[i]));
        }
        if j < path.len() {
            assert(was_taken(taken, path[j]));
        }
    }
    assert(leads(m, shorter, bp, c.0));
    assert(leads(m, longer, bp, x)) by {
        assert(longer[0] == shorter[0]);
        assert forall|i: int| 0 <= i < longer.len() implies m.contains_key(#[trigger] longer[i]) by {
            if i < shorter.len() {
                assert(m.contains_key(shorter[i]));
            }
        }
        assert forall|i: int| 0 <= i < longer.len() - 1 implies #[trigger] linked(m, longer, i) by {
            if i < shorter.len() - 1 {
                assert(linked(m, shorter, i));
            }
        }
    }
}

/// A way stays one when more is taken.
proof fn lemma_way_stays(
    m: Map<u32, ContainerView>,
    taken: Seq<(u32, ContainerView)>,
    p: (u32, ContainerView),
    bp: u32,
    x: (u32, usize),
)
    requires
        reached(m, taken, bp, x),
    ensures
        reached(m, taken.push(p), bp, x),
{
    let path = choose|path: Seq<u32>| #[trigger] way(m, taken, bp, path, x);
    assert forall|i: int| 0 <= i < path.len() implies was_taken(
        taken.push(p),
        #[trigger] path[i],
    ) by {
        assert(was_taken(taken, path[i]));
        lemma_taken_next(taken, p, path[i]);
    }
    assert(way(m, taken.push(p), bp, path, x));
}

/// Under a shallow backpack nothing in a container on the way is too deep.
proof fn lemma_not_too_deep(
    m: Map<u32, ContainerView>,
    taken: Seq<(u32, ContainerView)>,
    bp: u32,
    c: (u32, usize),
    x: u32,
)
    requires
        shallow(m, bp),
        reached(m, taken, bp, c),
        m.contains_key(c.0),
        !was_taken(taken, c.0),
        m.contains_key(x),
        has_serial(m[c.0].items, x),
        !was_taken(taken, x),
        x != c.0,
    ensures
        c.1 < MAX_DEPTH,
{
    let path = choose|path: Seq<u32>| #[trigger] way(m, taken, bp, path, c);
    assert(path.push(c.0).last() == c.0);
    assert(path.push(c.0).no_duplicates()) by {
        assert forall|i: int| 0 <= i < path.len() implies path[i] != c.0 by {
            assert(was_taken(taken, path[i]));
        }
    }
    assert(leads(m, path.push(c.0), bp, path.push(c.0).last()));
    lemma_way_next(m, taken, bp, path, c, x);
    let longer = path.push(c.0).push(x);
    assert(longer.last() == x);
    assert(leads(m, longer, bp, longer.last()));
    assert(longer.no_duplicates()) by {
        assert forall|i: int| 0 <= i < path.len() implies path[i] != x by {
            assert(was_taken(taken, path[i]));
        }
    }
}

/// The step in which a container is taken.
proof fn lemma_step(m: Map<u32, ContainerView>, bp: u32, c: Cargo, waiting: Seq<(u32, usize)>)
    requires
        on_way(m, bp, c, waiting),
        waiting.len() > 0,
        c.left.contains_key(waiting.last().0),
    ensures
        ({
            let (cs, depth) = waiting.last();
            let left = c.left.remove(cs);
            on_way(
                m,
                bp,
                Cargo { taken: c.taken.push((cs, c.left[cs])), left },
                waiting.drop_last() + waiting_next(c.left[cs].items, left, depth),
            )
        }),
{
    let (cs, depth) = waiting.last();
    let rest = waiting.drop_last();
    let left = c.left.remove(cs);
    let p = (cs, c.left[cs]);
    let next = Cargo { taken: c.taken.push(p), left };
    let boxes = waiting_next(c.left[cs].items, left, depth);
    let more = rest + boxes;
    assert(waiting[waiting.len() - 1] == (cs, depth));
    assert(reached(m, c.taken, bp, (cs, depth)));
    let path = choose|path: Seq<u32>| #[trigger] way(m, c.taken, bp, path, (cs, depth));
    assert(nested(m, bp, cs)) by {
        assert(leads(m, path.push(cs), bp, cs));
    }
    assert forall|k: u32| #[trigger] was_taken(next.taken, k) <==> was_taken(c.taken, k) || k
        == cs by {
        lemma_taken_next(c.taken, p, k);
    }
    assert forall|k: u32| #[trigger]
        next.left.contains_key(k) <==> m.contains_key(k) && !was_taken(next.taken, k) by {
        assert(c.left.contains_key(k) <==> m.contains_key(k) && !was_taken(c.taken, k));
    }
    assert forall|i: int, j: int| 0 <= i < j < next.taken.len() implies (#[trigger] next.taken[i]).0
        != (#[trigger] next.taken[j]).0 by {
        if j == c.taken.len() {
            assert(was_taken(c.taken, c.taken[i].0));
        }
    }
    assert(fairly_taken(m, bp, next));
    assert forall|i: int| 0 <= i < more.len() implies (m.contains_key((#[trigger] more[i]).0)
        ==> reached(m, next.taken, bp, more[i])) by {
        if m.contains_key(more[i].0) {
            if i < rest.len() {
                assert(rest[i] == waiting[i]);
                lemma_way_stays(m, c.taken, p, bp, more[i]);
            } else {
                let x = more[i].0;
                assert(boxes[i - rest.len()] == more[i]);
                assert(waits(boxes, x));
                lemma_next(c.left[cs].items, left, depth, x);
                lemma_way_next(m, c.taken, bp, path, (cs, depth), x);
                assert(more[i] == (x, (depth + 1) as usize));
            }
        }
    }
    assert forall|x: u32| #[trigger] waits(waiting, x) implies x == cs || waits(more, x) by {
        let i = choose|i: int| 0 <= i < waiting.len() && (#[trigger] waiting[i]).0 == x;
        if i < rest.len() {
            assert(more[i].0 == x);
        }
    }
    assert forall|x: u32| #[trigger] waits(boxes, x) implies waits(more, x) by {
        let i = choose|i: int| 0 <= i < boxes.len() && (#[trigger] boxes[i]).0 == x;
        assert(more[rest.len() + i].0 == x);
    }
    if shallow(m, bp) {
        assert forall|k: u32, x: u32|
            was_taken(next.taken, k) && #[trigger] has_serial(m[k].items, x) && m.contains_key(x)
            implies was_taken(next.taken, x) || waits(more, x) by {
            if k == cs {
                if !was_taken(next.taken, x) {
                    assert(left.contains_key(x));
                    lemma_not_too_deep(m, c.taken, bp, (cs, depth), x);
                    lemma_next(c.left[cs].items, left, depth, x);
                }
            } else {
                assert(was_taken(c.taken, k));
                assert(was_taken(c.taken, x) || waits(waiting, x));
            }
        }
    }
}

proof fn lemma_walk_on_way(
    m: Map<u32, ContainerView>,
    bp: u32,
    c: Cargo,
    waiting: Seq<(u32, usize)>,
)
    requires
        on_way(m, bp, c, waiting),
    ensures
        on_way(m, bp, walk(c, waiting), Seq::<(u32, usize)>::empty()),
    decreases c.left.dom().len(), waiting.len(),
{
    if waiting.len() == 0 {
        assert(waiting =~= Seq::<(u32, usize)>::empty());
    } else {
        lemma_serials_finite(c.left.dom());
        let (cs, depth) = waiting.last();
        let rest = waiting.drop_last();
        if c.left.contains_key(cs) {
            let left = c.left.remove(cs);
            lemma_step(m, bp, c, waiting);
            lemma_walk_on_way(
                m,
                bp,
                Cargo { taken: c.taken.push((cs, c.left[cs])), left },
                rest + waiting_next(c.left[cs].items, left, depth),
            );
        } else {
            assert(m.contains_key(cs) ==> was_taken(c.taken, cs));
            assert forall|i: int| 0 <= i < rest.len() implies (#[trigger] rest[i]) == waiting[i] by {}
            assert forall|x: u32| #[trigger] waits(waiting, x) implies x == cs || waits(rest, x) by {
                let i = choose|i: int| 0 <= i < waiting.len() && (#[trigger] waiting[i]).0 == x;
                if i < rest.len() {
                    assert(rest[i].0 == x);
                }
            }
            assert(on_way(m, bp, c, rest));
            lemma_walk_on_way(m, bp, c, rest);
        }
    }
}

proof fn lemma_path_taken(
    m: Map<u32, ContainerView>,
    bp: u32,
    c: Cargo,
    path: Seq<u32>,
    i: int,
)
    requires
        on_way(m, bp, c, Seq::<(u32, usize)>::empty()),
        shallow(m, bp),
        leads(m, path, bp, path.last()),
        0 <= i < path.len(),
    ensures
        was_taken(c.taken, path[i]),
    decreases i,
{
    assert(m.contains_key(path[i]));
    if i > 0 {
        lemma_path_taken(m, bp, c, path, i - 1);
        assert(linked(m, path, i - 1));
    }
}

/// Law: the containers that an entity carries are within its backpack, the backpack
/// the first of them. Each is taken once and as it was, and all others stay as they
/// were. Unless some are nested too deep they are all that is within the backpack, at
/// whatever depth and however many. Without the backpack nothing is taken.
pub proof fn cargo_is_all_that_is_nested(m: Map<u32, ContainerView>, bp: u32)
    ensures
        fairly_taken(m, bp, cargo_of(m, Some(bp))),
        m.contains_key(bp) <==> was_taken(cargo_of(m, Some(bp)).taken, bp),
        shallow(m, bp) ==> forall|k: u32| #[trigger]
            was_taken(cargo_of(m, Some(bp)).taken, k) <==> nested(m, bp, k),
        shallow(m, bp) ==> forall|k: u32| #[trigger]
            cargo_of(m, Some(bp)).left.contains_key(k) <==> m.contains_key(k) && !nested(m, bp, k),
        !m.contains_key(bp) ==> cargo_of(m, Some(bp)) == cargo_of(m, None),
        cargo_of(m, None) == (Cargo { taken: Seq::empty(), left: m }),
{
    let start = Cargo { taken: Seq::empty(), left: m };
    let waiting = seq![(bp, 1usize)];
    assert(waiting[0].0 == bp);
    if m.contains_key(bp) {
        assert(leads(m, seq![bp], bp, bp));
        assert(Seq::<u32>::empty().push(bp) =~= seq![bp]);
        assert(way(m, start.taken, bp, Seq::empty(), (bp, 1usize)));
        assert(waits(waiting, bp));
    }
    assert(on_way(m, bp, start, waiting));
    lemma_walk_on_way(m, bp, start, waiting);
    let c = cargo_of(m, Some(bp));
    if shallow(m, bp) {
        assert forall|k: u32| #[trigger] was_taken(c.taken, k) <==> nested(m, bp, k) by {
            if was_taken(c.taken, k) {
                let i = choose|i: int| 0 <= i < c.taken.len() && (#[trigger] c.taken[i]).0 == k;
                assert(nested(m, bp, c.taken[i].0));
            }
            if nested(m, bp, k) {
                let path = choose|path: Seq<u32>| #[trigger] leads(m, path, bp, k);
                lemma_path_taken(m, bp, c, path, path.len() - 1);
            }
        }
        assert forall|k: u32| #[trigger] c.left.contains_key(k) <==> m.contains_key(k) && !nested(
            m,
            bp,
            k,
        ) by {
            assert(was_taken(c.taken, k) <==> nested(m, bp, k));
        }
    }
    if !m.contains_key(bp) {
        assert(waiting.drop_last() =~= Seq::<(u32, usize)>::empty());
        assert(walk(start, Seq::<(u32, usize)>::empty()) == start);
    }
}

/// Whether a chain of at most `n` containers leads to one.
pub open spec fn leads_within(m: Map<u32, ContainerView>, from: u32, to: u32, n: int) -> bool {
    exists|path: Seq<u32>| #[trigger] leads(m, path, from, to) && path.len() <= n
}

proof fn lemma_within_next(m: Map<u32, ContainerView>, bp: u32, c: u32, x: u32, n: int)
    requires
        leads_within(m, bp, c, n),
        m.contains_key(x),
        has_serial(m[c].items, x),
    ensures
        leads_within(m, bp, x, n + 1),
{
    let path = choose|path: Seq<u32>| #[trigger] leads(m, path, bp, c) && path.len() <= n;
    let longer = path.push(x);
    assert(longer[0] == path[0]);
    assert forall|i: int| 0 <= i < longer.len() implies m.contains_key(#[trigger] longer[i]) by {
        if i < path.len() {
            assert(m.contains_key(path[i]));
        }
    }
    assert forall|i: int| 0 <= i < longer.len() - 1 implies #[trigger] linked(m, longer, i) by {
        if i < path.len() - 1 {
            assert(linked(m, path, i));
        }
    }
    assert(leads(m, longer, bp, x));
}

proof fn lemma_walk_depth(
    m: Map<u32, ContainerView>,
    bp: u32,
    c: Cargo,
    waiting: Seq<(u32, usize)>,
)
    requires
        forall|k: u32| #[trigger] c.left.contains_key(k) ==> m.contains_key(k) && c.left[k] == m[k],
        forall|i: int|
            0 <= i < waiting.len() ==> (#[trigger] waiting[i]).1 <= 64 && (m.contains_key(
                waiting[i].0,
            ) ==> leads_within(m, bp, waiting[i].0, waiting[i].1 as int)),
        forall|k: u32| #[trigger] was_taken(c.taken, k) ==> leads_within(m, bp, k, 64),
    ensures
        forall|k: u32| #[trigger]
            was_taken(walk(c, waiting).taken, k) ==> leads_within(m, bp, k, 64),
    decreases c.left.dom().len(), waiting.len(),
{
    if waiting.len() > 0 {
        lemma_serials_finite(c.left.dom());
        let (cs, depth) = waiting.last();
        let rest = waiting.drop_last();
        assert(waiting[waiting.len() - 1] == (cs, depth));
        if c.left.contains_key(cs) {
            let left = c.left.remove(cs);
            let items = c.left[cs].items;
            let more = waiting_next(items, left, depth);
            let taken = c.taken.push((cs, c.left[cs]));
            let next = rest + more;
            assert forall|k: u32| #[trigger] was_taken(taken, k) implies leads_within(
                m,
                bp,
                k,
                64,
            ) by {
                lemma_taken_next(c.taken, (cs, c.left[cs]), k);
                if !was_taken(c.taken, k) {
                    let path = choose|path: Seq<u32>| #[trigger]
                        leads(m, path, bp, cs) && path.len() <= depth;
                    assert(leads(m, path, bp, k));
                }
            }
            assert forall|i: int| 0 <= i < next.len() implies (#[trigger] next[i]).1 <= 64 && (
            m.contains_key(next[i].0) ==> leads_within(m, bp, next[i].0, next[i].1 as int)) by {
                if i < rest.len() {
                    assert(next[i] == waiting[i]);
                } else {
                    let j = i - rest.len();
                    assert(next[i] == more[j]);
                    assert(waits(more, more[j].0));
                    lemma_next(items, left, depth, more[j].0);
                    assert(more[j].1 == depth + 1);
                    lemma_within_next(m, bp, cs, more[j].0, depth as int);
                }
            }
            lemma_walk_depth(m, bp, Cargo { taken, left }, next);
            assert(walk(c, waiting) == walk(Cargo { taken, left }, next));
        } else {
            assert forall|i: int| 0 <= i < rest.len() implies (#[trigger] rest[i]).1 <= 64 && (
            m.contains_key(rest[i].0) ==> leads_within(m, bp, rest[i].0, rest[i].1 as int)) by {
                assert(rest[i] == waiting[i]);
            }
            lemma_walk_depth(m, bp, c, rest);
            assert(walk(c, waiting) == walk(c, rest));
        }
    } else {
        assert(walk(c, waiting) == c);
    }
}

/// Law: what an entity carries goes sixty-four containers deep, the backpack the first of
/// them: no container is taken that is deeper, and all are taken where none is.
pub proof fn cargo_is_sixty_four_deep(m: Map<u32, ContainerView>, bp: u32, k: u32)
    ensures
        was_taken(cargo_of(m, Some(bp)).taken, k) ==> leads_within(m, bp, k, 64),
        (forall|path: Seq<u32>|
            #[trigger] leads(m, path, bp, path.last()) && path.no_duplicates() ==> path.len()
                <= 64) ==> (was_taken(cargo_of(m, Some(bp)).taken, k) <==> nested(m, bp, k)),
{
    cargo_is_all_that_is_nested(m, bp);
    let start = Cargo { taken: Seq::empty(), left: m };
    let waiting = seq![(bp, 1usize)];
    if m.contains_key(bp) {
        assert(leads(m, seq![bp], bp, bp));
        assert(leads_within(m, bp, bp, 1));
    }
    lemma_walk_depth(m, bp, start, waiting);
    assert(was_taken(cargo_of(m, Some(bp)).taken, k) ==> leads_within(m, bp, k, 64));
    if forall|path: Seq<u32>|
        #[trigger] leads(m, path, bp, path.last()) && path.no_duplicates() ==> path.len() <= 64 {
        assert(shallow(m, bp));
        assert(was_taken(cargo_of(m, Some(bp)).taken, k) <==> nested(m, bp, k));
    }
}

} // verus!

//! Multi-objects: houses, boats and the like, as parts around an origin.

use std::collections::HashMap;

use vstd::prelude::*;
use vstd::seq_lib::seq_to_set_is_finite;

use crate::collections::map_keys;
use crate::vessel::static_data::MultiPart;

verus! {

broadcast use vstd::std_specs::hash::group_hash_axioms;

/// A part on a tile of a multi-object.
#[derive(Debug, Clone, Copy, PartialEq, Eq, Structural)]
pub struct PartEntry {
    pub tile_id: u16,
    /// Height over the origin.
    pub z: i16,
}

/// The offsets that a multi-object spans.
#[derive(Debug, Clone, Copy, PartialEq, Eq, Structural)]
pub struct MultiExtent {
    pub x_min: i16,
    pub x_max: i16,
    pub y_min: i16,
    pub y_max: i16,
}

impl Default for MultiExtent {
    fn default() -> (e: MultiExtent)
        ensures
            e == (MultiExtent { x_min: 0, x_max: 0, y_min: 0, y_max: 0 }),
    {
        MultiExtent { x_min: 0, x_max: 0, y_min: 0, y_max: 0 }
    }
}

impl MultiExtent {
    pub open spec fn holds(self, dx: int, dy: int) -> bool {
        self.x_min <= dx <= self.x_max && self.y_min <= dy <= self.y_max
    }

    /// Whether an offset lies within the extent.
    pub fn contains(&self, dx: i16, dy: i16) -> (b: bool)
        ensures
            b == self.holds(dx as int, dy as int),
    {
        dx >= self.x_min && dx <= self.x_max && dy >= self.y_min && dy <= self.y_max
    }
}

/// Number of an offset.
pub open spec fn offset_key(dx: i16, dy: i16) -> i32 {
    (dx * 0x1_0000 + dy + 0x8000) as i32
}

fn pack_offset(dx: i16, dy: i16) -> (k: i32)
    ensures
        k == offset_key(dx, dy),
{
    dx as i32 * 0x1_0000 + (dy as i32 + 0x8000)
}

pub proof fn lemma_offset_keys(dx: i16, dy: i16, ex: i16, ey: i16)
    ensures
        offset_key(dx, dy) == offset_key(ex, ey) <==> dx == ex && dy == ey,
{
}

/// The visible parts at an offset, in order.
pub open spec fn visible_parts(parts: Seq<MultiPart>, dx: i16, dy: i16) -> Seq<PartEntry>
    decreases parts.len(),
{
    if parts.len() == 0 {
        Seq::empty()
    } else {
        let head = visible_parts(parts.drop_last(), dx, dy);
        let p = parts.last();
        if p.flags != 0 && p.x == dx && p.y == dy {
            head.push(PartEntry { tile_id: p.tile_id, z: p.z })
        } else {
            head
        }
    }
}

/// The bounding box of the visible parts, none if nothing is visible.
pub open spec fn bounding_box(parts: Seq<MultiPart>) -> Option<MultiExtent>
    decreases parts.len(),
{
    if parts.len() == 0 {
        None
    } else {
        let p = parts.last();
        let head = bounding_box(parts.drop_last());
        if p.flags == 0 {
            head
        } else {
            match head {
                None => Some(MultiExtent { x_min: p.x, x_max: p.x, y_min: p.y, y_max: p.y }),
                Some(e) => Some(
                    MultiExtent {
                        x_min: if p.x < e.x_min {
                            p.x
                        } else {
                            e.x_min
                        },
                        x_max: if p.x > e.x_max {
                            p.x
                        } else {
                            e.x_max
                        },
                        y_min: if p.y < e.y_min {
                            p.y
                        } else {
                            e.y_min
                        },
                        y_max: if p.y > e.y_max {
                            p.y
                        } else {
                            e.y_max
                        },
                    },
                ),
            }
        }
    }
}

/// The visible parts, in order.
pub open spec fn visible(parts: Seq<MultiPart>) -> Seq<MultiPart> {
    parts.filter(|p: MultiPart| p.flags != 0)
}

/// The offsets at which a part is visible.
pub open spec fn visible_offsets(parts: Seq<MultiPart>) -> Set<(i16, i16)> {
    visible(parts).map_values(|p: MultiPart| (p.x, p.y)).to_set()
}

/// Sum of the lengths of the lists of a map.
pub open spec fn lists_total(m: Map<i32, Vec<PartEntry>>) -> nat
    decreases m.dom().len(),
    when m.dom().finite()
{
    if m.dom().len() == 0 {
        0
    } else {
        let k = m.dom().choose();
        m[k]@.len() + lists_total(m.remove(k))
    }
}

/// A multi-object, its parts found by their offset.
#[derive(Debug)]
pub struct MultiDef {
    pub tiles: HashMap<i32, Vec<PartEntry>>,
    /// What the parts span.
    pub extent: MultiExtent,
}

impl MultiDef {
    /// The parts at an offset.
    pub open spec fn parts(&self, dx: i16, dy: i16) -> Seq<PartEntry> {
        let k = offset_key(dx, dy);
        if self.tiles@.contains_key(k) {
            self.tiles@[k]@
        } else {
            Seq::empty()
        }
    }

    /// Number of parts over all tiles.
    pub open spec fn total(&self) -> nat {
        lists_total(self.tiles@)
    }

    /// Builds a definition from a list of parts. Parts without flags are left out.
    pub fn from_parts(parts: &[MultiPart]) -> (d: MultiDef)
        ensures
            forall|dx: i16, dy: i16| #[trigger]
                d.parts(dx, dy) == visible_parts(parts@, dx, dy),
            d.extent == match bounding_box(parts@) {
                Some(e) => e,
                None => MultiExtent { x_min: 0, x_max: 0, y_min: 0, y_max: 0 },
            },
            forall|dx: i16, dy: i16|
                d.tiles@.contains_key(#[trigger] offset_key(dx, dy)) <==> visible_parts(
                    parts@,
                    dx,
                    dy,
                ).len() > 0,
            d.total() == visible(parts@).len(),
            d.tiles@.dom().len() == visible_offsets(parts@).len(),
            d.total() <= usize::MAX,
    {
        let mut d = MultiDef { tiles: HashMap::new(), extent: MultiExtent::default() };
        let mut has_any = false;
        let mut i: usize = 0;
        assert(parts@.take(0) =~= Seq::<MultiPart>::empty());
        assert forall|dx: i16, dy: i16| #[trigger] d.parts(dx, dy) == visible_parts(
            parts@.take(0),
            dx,
            dy,
        ) by {}
        proof {
            reveal(Seq::filter);
            assert(visible_offsets(parts@.take(0)) =~= Set::<(i16, i16)>::empty());
        }
        while i < parts.len()
            invariant
                i <= parts@.len(),
                forall|dx: i16, dy: i16| #[trigger]
                    d.parts(dx, dy) == visible_parts(parts@.take(i as int), dx, dy),
                forall|dx: i16, dy: i16|
                    d.tiles@.contains_key(#[trigger] offset_key(dx, dy)) <==> visible_parts(
                        parts@.take(i as int),
                        dx,
                        dy,
                    ).len() > 0,
                d.total() == visible(parts@.take(i as int)).len(),
                d.tiles@.dom().len() == visible_offsets(parts@.take(i as int)).len(),
                has_any == bounding_box(parts@.take(i as int)) is Some,
                d.extent == match bounding_box(parts@.take(i as int)) {
                    Some(e) => e,
                    None => MultiExtent { x_min: 0, x_max: 0, y_min: 0, y_max: 0 },
                },
            decreases parts@.len() - i,
        {
            let p = parts[i];
            let ghost before = d;
            proof {
                assert(parts@.take(i + 1).drop_last() =~= parts@.take(i as int));
                lemma_visible_next(parts@.take(i + 1));
            }
            if p.flags != 0 {
                let k: i32 = pack_offset(p.x, p.y);
                let mut list: Vec<PartEntry> = match d.tiles.remove(&k) {
                    Some(v) => v,
                    None => Vec::new(),
                };
                proof {
                    assert(list@ == before.parts(p.x, p.y));
                    lemma_visible_offsets(parts@.take(i as int), p.x, p.y);
                    lemma_total_remove(before.tiles@, k);
                }
                let ghost held = list@;
                list.push(PartEntry { tile_id: p.tile_id, z: p.z });
                let ghost longer = list;
                d.tiles.insert(k, list);
                proof {
                    let bare = before.tiles@.remove(k);
                    assert(d.tiles@ =~= bare.insert(k, longer));
                    lemma_total_remove(d.tiles@, k);
                    assert(d.tiles@.remove(k) =~= bare);
                    assert(d.tiles@.dom() =~= before.tiles@.dom().insert(k));
                }
                if has_any {
                    if p.x < d.extent.x_min {
                        d.extent.x_min = p.x;
                    }
                    if p.x > d.extent.x_max {
                        d.extent.x_max = p.x;
                    }
                    if p.y < d.extent.y_min {
                        d.extent.y_min = p.y;
                    }
                    if p.y > d.extent.y_max {
                        d.extent.y_max = p.y;
                    }
                } else {
                    d.extent = MultiExtent { x_min: p.x, x_max: p.x, y_min: p.y, y_max: p.y };
                    has_any = true;
                }
            }
            proof {
                assert forall|dx: i16, dy: i16| #[trigger] d.parts(dx, dy) == visible_parts(
                    parts@.take(i + 1),
                    dx,
                    dy,
                ) by {
                    lemma_offset_keys(dx, dy, p.x, p.y);
                    assert(before.parts(dx, dy) == visible_parts(parts@.take(i as int), dx, dy));
                }
                assert forall|dx: i16, dy: i16|
                    d.tiles@.contains_key(#[trigger] offset_key(dx, dy)) <==> visible_parts(
                        parts@.take(i + 1),
                        dx,
                        dy,
                    ).len() > 0 by {
                    lemma_offset_keys(dx, dy, p.x, p.y);
                    assert(before.tiles@.contains_key(offset_key(dx, dy)) <==> visible_parts(
                        parts@.take(i as int),
                        dx,
                        dy,
                    ).len() > 0);
                }
            }
            i += 1;
        }
        proof {
            assert(parts@.take(i as int) =~= parts@);
            parts@.lemma_filter_len(|p: MultiPart| p.flags != 0);
        }
        d
    }

    /// The parts at an offset from the origin.
    pub fn parts_at(&self, dx: i16, dy: i16) -> (r: &[PartEntry])
        ensures
            r@ == self.parts(dx, dy),
    {
        let k: i32 = pack_offset(dx, dy);
        match self.tiles.get(&k) {
            Some(v) => v.as_slice(),
            None => &[],
        }
    }

    /// Whether an offset lies within the extent.
    pub fn contains(&self, dx: i16, dy: i16) -> (b: bool)
        ensures
            b == self.extent.holds(dx as int, dy as int),
    {
        self.extent.contains(dx, dy)
    }

    /// Number of tiles with parts.
    pub fn tile_count(&self) -> (n: usize)
        ensures
            n == self.tiles@.dom().len(),
    {
        self.tiles.len()
    }

    /// Number of parts over all tiles.
    pub fn part_count(&self) -> (n: usize)
        requires
            self.total() <= usize::MAX,
        ensures
            n == self.total(),
    {
        let keys = map_keys(&self.tiles);
        let mut n: usize = 0;
        let mut i: usize = 0;
        let ghost mut rest = self.tiles@;
        assert(keys@.skip(0) =~= keys@);
        while i < keys.len()
            invariant
                i <= keys@.len(),
                keys@.no_duplicates(),
                forall|k: i32| #[trigger] keys@.contains(k) <==> self.tiles@.contains_key(k),
                rest.dom().finite(),
                forall|k: i32| #[trigger]
                    rest.contains_key(k) <==> keys@.skip(i as int).contains(k),
                forall|k: i32| #[trigger]
                    rest.contains_key(k) ==> self.tiles@.contains_key(k) && rest[k]
                        == self.tiles@[k],
                n + lists_total(rest) == self.total(),
                self.total() <= usize::MAX,
            decreases keys@.len() - i,
        {
            let k: i32 = keys[i];
            assert(keys@.contains(k));
            proof {
                assert(keys@.skip(i as int)[0] == k);
                assert(keys@.skip(i as int).contains(k));
                assert(rest.contains_key(k));
                lemma_total_remove(rest, k);
                let shorter = rest.remove(k);
                assert forall|x: i32| #[trigger] shorter.contains_key(x) <==> keys@.skip(
                    i + 1,
                ).contains(x) by {
                    if shorter.contains_key(x) {
                        let l = keys@.skip(i as int);
                        assert(l.contains(x));
                        let j = choose|j: int| 0 <= j < l.len() && l[j] == x;
                        assert(keys@.skip(i + 1)[j - 1] == x);
                    }
                    if keys@.skip(i + 1).contains(x) {
                        let l = keys@.skip(i + 1);
                        let j = choose|j: int| 0 <= j < l.len() && l[j] == x;
                        assert(keys@.skip(i as int)[j + 1] == x);
                        assert(keys@[i + 1 + j] != keys@[i as int]);
                        assert(rest.contains_key(x));
                    }
                }
                rest = shorter;
            }
            match self.tiles.get(&k) {
                Some(v) => {
                    n = n + v.len();
                },
                None => {},
            }
            i += 1;
        }
        proof {
            assert(rest.dom() =~= Set::<i32>::empty());
        }
        n
    }
}

/// A list counts in the sum with its length.
proof fn lemma_total_remove(m: Map<i32, Vec<PartEntry>>, k: i32)
    requires
        m.dom().finite(),
    ensures
        m.contains_key(k) ==> lists_total(m) == m[k]@.len() + lists_total(m.remove(k)),
        !m.contains_key(k) ==> lists_total(m.remove(k)) == lists_total(m),
    decreases m.dom().len(),
{
    if m.contains_key(k) {
        let c = m.dom().choose();
        assert(m.dom().contains(k));
        assert(m.dom().contains(c));
        if c != k {
            lemma_total_remove(m.remove(c), k);
            lemma_total_remove(m.remove(k), c);
            assert(m.remove(c).remove(k) =~= m.remove(k).remove(c));
        }
    } else {
        assert(m.remove(k) =~= m);
    }
}

/// One part more is visible or not.
proof fn lemma_visible_next(parts: Seq<MultiPart>)
    requires
        parts.len() > 0,
    ensures
        ({
            let p = parts.last();
            let head = parts.drop_last();
            if p.flags != 0 {
                &&& visible(parts) == visible(head).push(p)
                &&& visible_offsets(parts) == visible_offsets(head).insert((p.x, p.y))
            } else {
                &&& visible(parts) == visible(head)
                &&& visible_offsets(parts) == visible_offsets(head)
            }
        }),
        visible_offsets(parts.drop_last()).finite(),
{
    reveal(Seq::filter);
    let p = parts.last();
    let head = parts.drop_last();
    let f = |p: MultiPart| (p.x, p.y);
    let before = visible(head).map_values(f);
    seq_to_set_is_finite(before);
    if p.flags != 0 {
        let after = visible(parts).map_values(f);
        assert(after =~= before.push((p.x, p.y)));
        assert forall|o: (i16, i16)| #[trigger] after.to_set().contains(o) <==> before.to_set().insert(
            (p.x, p.y),
        ).contains(o) by {
            if before.contains(o) {
                let i = choose|i: int| 0 <= i < before.len() && before[i] == o;
                assert(after[i] == o);
            }
            assert(after[before.len() as int] == (p.x, p.y));
            if after.contains(o) {
                let i = choose|i: int| 0 <= i < after.len() && after[i] == o;
                if i < before.len() {
                    assert(before[i] == o);
                }
            }
        }
        assert(after.to_set() =~= before.to_set().insert((p.x, p.y)));
    }
}

/// An offset has visible parts if and only if one is visible there.
proof fn lemma_visible_offsets(parts: Seq<MultiPart>, dx: i16, dy: i16)
    ensures
        visible_offsets(parts).contains((dx, dy)) <==> visible_parts(parts, dx, dy).len() > 0,
    decreases parts.len(),
{
    if parts.len() == 0 {
        reveal(Seq::filter);
    } else {
        lemma_visible_next(parts);
        lemma_visible_offsets(parts.drop_last(), dx, dy);
    }
}

/// Law: a multi-object has as many parts as are visible in its list, those that are
/// listed twice counted twice; it has as many tiles as the visible parts have
/// offsets. So it has no more tiles than parts, and has either only with the other.
pub proof fn tiles_and_parts(d: MultiDef, parts: Seq<MultiPart>)
    requires
        d.total() == visible(parts).len(),
        d.tiles@.dom().len() == visible_offsets(parts).len(),
    ensures
        d.tiles@.dom().len() <= d.total(),
        d.tiles@.dom().len() == 0 <==> d.total() == 0,
        d.total() <= parts.len(),
        forall|dx: i16, dy: i16| #[trigger]
            visible_offsets(parts).contains((dx, dy)) <==> visible_parts(parts, dx, dy).len() > 0,
{
    let offsets = visible(parts).map_values(|p: MultiPart| (p.x, p.y));
    offsets.lemma_cardinality_of_set();
    seq_to_set_is_finite(offsets);
    parts.lemma_filter_len(|p: MultiPart| p.flags != 0);
    if offsets.len() > 0 {
        assert(offsets.contains(offsets[0]));
        assert(offsets.to_set().contains(offsets[0]));
    }
    assert forall|dx: i16, dy: i16| #[trigger]
        visible_offsets(parts).contains((dx, dy)) <==> visible_parts(parts, dx, dy).len() > 0 by {
        lemma_visible_offsets(parts, dx, dy);
    }
}

/// Law: every visible part lies within the extent.
pub proof fn extent_holds_parts(parts: Seq<MultiPart>, i: int)
    requires
        0 <= i < parts.len(),
        parts[i].flags != 0,
    ensures
        bounding_box(parts) is Some,
        (bounding_box(parts)->0).holds(parts[i].x as int, parts[i].y as int),
    decreases parts.len(),
{
    if i < parts.len() - 1 {
        extent_holds_parts(parts.drop_last(), i);
    }
}

/// Law: the parts at an offset are those of the list that are visible and have this offset,
/// each with its graphic and its height.
pub proof fn parts_are_where_they_say(parts: Seq<MultiPart>, dx: i16, dy: i16, e: PartEntry)
    ensures
        visible_parts(parts, dx, dy).contains(e) <==> exists|i: int|
            0 <= i < parts.len() && (#[trigger] parts[i]).flags != 0 && parts[i].x == dx
                && parts[i].y == dy && parts[i].tile_id == e.tile_id && parts[i].z == e.z,
    decreases parts.len(),
{
    if parts.len() > 0 {
        let init = parts.drop_last();
        let p = parts.last();
        parts_are_where_they_say(init, dx, dy, e);
        let head = visible_parts(init, dx, dy);
        let all = visible_parts(parts, dx, dy);
        if head.contains(e) {
            let j = choose|j: int| 0 <= j < head.len() && head[j] == e;
            assert(all[j] == e);
            let i = choose|i: int|
                0 <= i < init.len() && (#[trigger] init[i]).flags != 0 && init[i].x == dx
                    && init[i].y == dy && init[i].tile_id == e.tile_id && init[i].z == e.z;
            assert(parts[i] == init[i]);
        }
        if p.flags != 0 && p.x == dx && p.y == dy && p.tile_id == e.tile_id && p.z == e.z {
            assert(all[head.len() as int] == e);
            assert(parts[parts.len() - 1] == p);
        }
        if all.contains(e) {
            let j = choose|j: int| 0 <= j < all.len() && all[j] == e;
            if j < head.len() {
                assert(head[j] == e);
            } else {
                assert(parts[parts.len() - 1] == p);
            }
        }
        if exists|i: int|
            0 <= i < parts.len() && (#[trigger] parts[i]).flags != 0 && parts[i].x == dx
                && parts[i].y == dy && parts[i].tile_id == e.tile_id && parts[i].z == e.z {
            let i = choose|i: int|
                0 <= i < parts.len() && (#[trigger] parts[i]).flags != 0 && parts[i].x == dx
                    && parts[i].y == dy && parts[i].tile_id == e.tile_id && parts[i].z == e.z;
            if i < init.len() {
                assert(init[i] == parts[i]);
            }
        }
    }
}

/// Law: the extent reaches no farther than the visible parts: each of its four sides has one
/// of them on it.
pub proof fn extent_is_tight(parts: Seq<MultiPart>)
    requires
        bounding_box(parts) is Some,
    ensures
        ({
            let b = bounding_box(parts)->0;
            &&& exists|i: int|
                0 <= i < parts.len() && (#[trigger] parts[i]).flags != 0 && parts[i].x == b.x_min
            &&& exists|i: int|
                0 <= i < parts.len() && (#[trigger] parts[i]).flags != 0 && parts[i].x == b.x_max
            &&& exists|i: int|
                0 <= i < parts.len() && (#[trigger] parts[i]).flags != 0 && parts[i].y == b.y_min
            &&& exists|i: int|
                0 <= i < parts.len() && (#[trigger] parts[i]).flags != 0 && parts[i].y == b.y_max
        }),
    decreases parts.len(),
{
    let init = parts.drop_last();
    let last = parts.len() - 1;
    let p = parts[last];
    let b = bounding_box(parts)->0;
    if let Some(e) = bounding_box(init) {
        extent_is_tight(init);
        let i1 = choose|i: int|
            0 <= i < init.len() && (#[trigger] init[i]).flags != 0 && init[i].x == e.x_min;
        let i2 = choose|i: int|
            0 <= i < init.len() && (#[trigger] init[i]).flags != 0 && init[i].x == e.x_max;
        let i3 = choose|i: int|
            0 <= i < init.len() && (#[trigger] init[i]).flags != 0 && init[i].y == e.y_min;
        let i4 = choose|i: int|
            0 <= i < init.len() && (#[trigger] init[i]).flags != 0 && init[i].y == e.y_max;
        assert(parts[i1] == init[i1] && parts[i2] == init[i2] && parts[i3] == init[i3] && parts[i4]
            == init[i4]);
        assert(parts[if b.x_min == e.x_min {
            i1
        } else {
            last
        }].x == b.x_min);
        assert(parts[if b.x_max == e.x_max {
            i2
        } else {
            last
        }].x == b.x_max);
        assert(parts[if b.y_min == e.y_min {
            i3
        } else {
            last
        }].y == b.y_min);
        assert(parts[if b.y_max == e.y_max {
            i4
        } else {
            last
        }].y == b.y_max);
    } else {
        assert(p.flags != 0);
    }
}

} // verus!

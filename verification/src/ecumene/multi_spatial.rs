//! Which rectangles are near a tile.
//!
//! [`BlockSpatialIndex`] answers from 8 by 8 map blocks and so finds everything
//! in the block of the tile; [`BBoxSpatialIndex`] goes through all rectangles
//! and finds exactly those that hold the tile.

use std::collections::{HashMap, HashSet};

use vstd::prelude::*;

use super::tile_rect::TileRect;
use crate::coords::BlockKey;

verus! {

broadcast use vstd::std_specs::hash::group_hash_axioms;

/// A store of rectangles by serial that is asked for what is near.
pub trait SpatialIndex: Sized {
    /// The serials that a query at `(x, y)` finds, in order.
    spec fn point_list(&self, x: u16, y: u16) -> Seq<u32>;

    /// Whether a query at `(x, y)` finds the serial.
    spec fn finds(&self, serial: u32, x: u16, y: u16) -> bool;

    /// Whether a query for the rectangle finds the serial.
    spec fn finds_in(&self, serial: u32, rect: TileRect) -> bool;

    /// Whether the serial has a rectangle.
    spec fn knows(&self, serial: u32) -> bool;

    /// Whether the store is in order.
    spec fn wf(&self) -> bool;

    /// Whether a rectangle counts as near `(x, y)`.
    spec fn near(bbox: TileRect, x: u16, y: u16) -> bool;

    /// Whether a rectangle counts as near another one.
    spec fn near_rect(bbox: TileRect, rect: TileRect) -> bool;

    /// What is found in a store in order has a rectangle there.
    proof fn lemma_found_is_known(&self)
        requires
            self.wf(),
        ensures
            forall|s: u32, x: u16, y: u16| #[trigger] self.finds(s, x, y) ==> self.knows(s),
            forall|s: u32, r: TileRect| #[trigger] self.finds_in(s, r) ==> self.knows(s),
    ;

    /// Nothing is found in a store in order without rectangles.
    proof fn lemma_empty_lists(&self, x: u16, y: u16)
        requires
            self.wf(),
            forall|s: u32| !#[trigger] self.knows(s),
        ensures
            self.point_list(x, y).len() == 0,
    ;

    /// A query of a store in order lists what it finds, each once.
    proof fn lemma_point_list(&self, x: u16, y: u16)
        requires
            self.wf(),
        ensures
            self.point_list(x, y).no_duplicates(),
            forall|s: u32| #[trigger]
                self.point_list(x, y).contains(s) <==> self.finds(s, x, y),
    ;

    /// A rectangle is near the tiles in it.
    proof fn lemma_within_is_near(bbox: TileRect, x: u16, y: u16)
        requires
            bbox.has(x as int, y as int),
        ensures
            Self::near(bbox, x, y),
    ;

    /// A store without rectangles.
    fn empty() -> (i: Self)
        ensures
            i.wf(),
            forall|s: u32| !#[trigger] i.knows(s),
    ;

    /// Whether the serial has a rectangle.
    fn has(&self, serial: u32) -> (b: bool)
        ensures
            b == self.knows(serial),
    ;

    /// Whether there is no rectangle.
    fn is_empty(&self) -> (b: bool)
        ensures
            b <==> forall|s: u32| !#[trigger] self.knows(s),
    ;

    /// Adds a rectangle. The store stays in order where the serial had none.
    fn insert(&mut self, serial: u32, bbox: TileRect)
        ensures
            old(self).wf() && !old(self).knows(serial) ==> {
                &&& final(self).wf()
                &&& forall|s: u32| #[trigger]
                    final(self).knows(s) <==> old(self).knows(s) || s == serial
                &&& forall|s: u32, x: u16, y: u16| #[trigger]
                    final(self).finds(s, x, y) <==> old(self).finds(s, x, y) || (s == serial
                        && Self::near(bbox, x, y))
                &&& forall|s: u32, r: TileRect| #[trigger]
                    final(self).finds_in(s, r) <==> old(self).finds_in(s, r) || (s == serial
                        && Self::near_rect(bbox, r))
            },
    ;

    /// Removes the rectangle of a serial.
    fn remove(&mut self, serial: u32)
        ensures
            old(self).wf() ==> {
                &&& final(self).wf()
                &&& forall|s: u32| #[trigger]
                    final(self).knows(s) <==> old(self).knows(s) && s != serial
                &&& forall|s: u32, x: u16, y: u16| #[trigger]
                    final(self).finds(s, x, y) <==> old(self).finds(s, x, y) && s != serial
                &&& forall|s: u32, r: TileRect| #[trigger]
                    final(self).finds_in(s, r) <==> old(self).finds_in(s, r) && s != serial
            },
    ;

    /// The serials found at `(x, y)`.
    fn query_point(&self, x: u16, y: u16) -> (r: Vec<u32>)
        ensures
            r@ == self.point_list(x, y),
            forall|s: u32| #[trigger] r@.contains(s) <==> self.finds(s, x, y),
            self.wf() ==> r@.no_duplicates(),
            self.wf() ==> forall|s: u32| #[trigger] r@.contains(s) ==> self.knows(s),
    ;

    /// The serials found for a rectangle.
    fn query_rect(&self, rect: &TileRect) -> (r: Vec<u32>)
        ensures
            forall|s: u32| #[trigger] r@.contains(s) <==> self.finds_in(s, *rect),
            self.wf() ==> r@.no_duplicates(),
            self.wf() ==> forall|s: u32| #[trigger] r@.contains(s) ==> self.knows(s),
    ;

    /// Removes everything.
    fn clear(&mut self)
        ensures
            final(self).wf(),
            forall|s: u32| !#[trigger] final(self).knows(s),
            forall|s: u32, x: u16, y: u16| !#[trigger] final(self).finds(s, x, y),
            forall|s: u32, r: TileRect| !#[trigger] final(self).finds_in(s, r),
    ;
}

/// Packed key of block `(bx, by)`.
pub open spec fn block_id(bx: int, by: int) -> u32 {
    (bx * 0x1_0000 + by) as u32
}

/// Whether block `key` meets the blocks that the rectangle spans.
pub open spec fn in_blocks(rect: TileRect, key: u32) -> bool {
    &&& rect.x_min / 8 <= key / 0x1_0000 <= rect.x_max / 8
    &&& rect.y_min / 8 <= key % 0x1_0000 <= rect.y_max / 8
}

/// Keys of `n` blocks of column `bx`, from row `by` down.
pub open spec fn column_keys(bx: int, by: int, n: int) -> Seq<u32> {
    Seq::new(
        if n > 0 {
            n as nat
        } else {
            0
        },
        |i: int| block_id(bx, by + i),
    )
}

/// Keys of `n` columns of `m` blocks each, column by column.
pub open spec fn area_keys(bx: int, n: int, by: int, m: int) -> Seq<u32>
    decreases n,
{
    if n <= 0 {
        Seq::empty()
    } else {
        area_keys(bx, n - 1, by, m) + column_keys(bx + n - 1, by, m)
    }
}

/// Keys of all blocks that the rectangle spans, column by column.
pub open spec fn rect_keys(rect: TileRect) -> Seq<u32> {
    area_keys(
        (rect.x_min / 8) as int,
        rect.x_max / 8 - rect.x_min / 8 + 1,
        (rect.y_min / 8) as int,
        rect.y_max / 8 - rect.y_min / 8 + 1,
    )
}

proof fn lemma_area_keys(bx: int, n: int, by: int, m: int, key: u32)
    requires
        0 <= bx,
        0 <= by,
        bx + n <= 0x2000,
        by + m <= 0x2000,
    ensures
        area_keys(bx, n, by, m).contains(key) <==> (bx <= key / 0x1_0000 < bx + n && by <= key
            % 0x1_0000 < by + m),
        area_keys(bx, n, by, m).no_duplicates(),
    decreases n,
{
    if n > 0 {
        lemma_area_keys(bx, n - 1, by, m, key);
        let head = area_keys(bx, n - 1, by, m);
        let col = column_keys(bx + n - 1, by, m);
        let all = area_keys(bx, n, by, m);
        assert(all == head + col);
        if head.contains(key) {
            let i = choose|i: int| 0 <= i < head.len() && head[i] == key;
            assert(all[i] == key);
        }
        if key / 0x1_0000 == bx + n - 1 && by <= key % 0x1_0000 < by + m {
            let i = key % 0x1_0000 - by;
            assert(col[i] == key);
            assert(all[head.len() + i] == key);
        }
        if all.contains(key) {
            let i = choose|i: int| 0 <= i < all.len() && all[i] == key;
            if i < head.len() {
                assert(head[i] == key);
            } else {
                assert(col[i - head.len()] == key);
            }
        }
        assert forall|i: int, j: int| 0 <= i < j < all.len() implies all[i] != all[j] by {
            if j >= head.len() {
                assert(all[j] == col[j - head.len()]);
                if i < head.len() {
                    lemma_area_keys(bx, n - 1, by, m, head[i]);
                    assert(head.contains(head[i]));
                } else {
                    assert(all[i] == col[i - head.len()]);
                }
            }
        }
    }
}

pub proof fn lemma_rect_keys(rect: TileRect)
    ensures
        rect_keys(rect).no_duplicates(),
        forall|key: u32| #[trigger] rect_keys(rect).contains(key) <==> in_blocks(rect, key),
{
    let bx = (rect.x_min / 8) as int;
    let n = rect.x_max / 8 - rect.x_min / 8 + 1;
    let by = (rect.y_min / 8) as int;
    let m = rect.y_max / 8 - rect.y_min / 8 + 1;
    lemma_area_keys(bx, n, by, m, 0);
    assert forall|key: u32| #[trigger] rect_keys(rect).contains(key) <==> in_blocks(rect, key) by {
        lemma_area_keys(bx, n, by, m, key);
    }
}

/// Keys of all blocks that the rectangle spans, column by column.
pub fn block_keys(rect: &TileRect) -> (keys: Vec<u32>)
    ensures
        keys@ == rect_keys(*rect),
{
    let bx_min: u16 = rect.x_min / 8;
    let bx_max: u16 = rect.x_max / 8;
    let by_min: u16 = rect.y_min / 8;
    let by_max: u16 = rect.y_max / 8;
    let ghost m = by_max - by_min + 1;
    let mut keys: Vec<u32> = Vec::new();
    let mut bx: u16 = bx_min;
    while bx <= bx_max
        invariant
            bx_min <= bx,
            bx <= bx_max + 1 || bx == bx_min,
            bx_max <= 0x1FFF,
            bx_min <= 0x1FFF,
            by_min <= 0x1FFF,
            by_max <= 0x1FFF,
            m == by_max - by_min + 1,
            keys@ == area_keys(bx_min as int, bx - bx_min, by_min as int, m),
        decreases bx_max + 1 - bx,
    {
        let ghost head = keys@;
        let mut by: u16 = by_min;
        while by <= by_max
            invariant
                by_min <= by,
                by <= by_max + 1 || by == by_min,
                bx <= 0x1FFF,
                by_max <= 0x1FFF,
                keys@ == head + column_keys(bx as int, by_min as int, by - by_min),
            decreases by_max + 1 - by,
        {
            keys.push(BlockKey::new(bx, by).pack());
            proof {
                assert(keys@ =~= head + column_keys(bx as int, by_min as int, by + 1 - by_min));
            }
            by += 1;
        }
        proof {
            assert(column_keys(bx as int, by_min as int, by - by_min) =~= column_keys(
                bx as int,
                by_min as int,
                m,
            ));
        }
        bx += 1;
    }
    proof {
        if bx_max < bx_min {
            assert(area_keys(bx_min as int, bx_max - bx_min + 1, by_min as int, m) =~= Seq::<
                u32,
            >::empty());
            assert(area_keys(bx_min as int, 0, by_min as int, m) =~= Seq::<u32>::empty());
        }
    }
    keys
}

/// The list under a key, empty if there is none.
pub open spec fn list_at(lists: Map<u32, Vec<u32>>, key: u32) -> Seq<u32> {
    if lists.contains_key(key) {
        lists[key]@
    } else {
        Seq::empty()
    }
}

/// The first occurrence of each element, in order.
pub open spec fn distinct(s: Seq<u32>) -> Seq<u32>
    decreases s.len(),
{
    if s.len() == 0 {
        Seq::empty()
    } else {
        let d = distinct(s.drop_last());
        if d.contains(s.last()) {
            d
        } else {
            d.push(s.last())
        }
    }
}

/// The lists under the keys, one after the other.
pub open spec fn gathered(lists: Map<u32, Vec<u32>>, keys: Seq<u32>) -> Seq<u32>
    decreases keys.len(),
{
    if keys.len() == 0 {
        Seq::empty()
    } else {
        gathered(lists, keys.drop_last()) + list_at(lists, keys.last())
    }
}

/// An index of rectangles by the map blocks that they span.
#[derive(Debug)]
pub struct BlockSpatialIndex {
    /// Block key to the serials there.
    pub blocks: HashMap<u32, Vec<u32>>,
    /// Serial to the block keys of its rectangle.
    pub reverse: HashMap<u32, Vec<u32>>,
}

impl BlockSpatialIndex {
    /// Whether the index lists a serial under a block.
    pub open spec fn lists(&self, serial: u32, key: u32) -> bool {
        list_at(self.blocks@, key).contains(serial)
    }

    /// Whether the index is right about a serial and a block.
    pub open spec fn agrees(&self, serial: u32, key: u32) -> bool {
        self.lists(serial, key) <==> list_at(self.reverse@, serial).contains(key)
    }

    pub fn new() -> (i: BlockSpatialIndex)
        ensures
            i.wf(),
            i.blocks@ == Map::<u32, Vec<u32>>::empty(),
            i.reverse@ == Map::<u32, Vec<u32>>::empty(),
            forall|s: u32| !#[trigger] i.knows(s),
            forall|s: u32, key: u32| !#[trigger] i.lists(s, key),
    {
        BlockSpatialIndex { blocks: HashMap::new(), reverse: HashMap::new() }
    }
}

impl Default for BlockSpatialIndex {
    fn default() -> (i: BlockSpatialIndex)
        ensures
            i.wf(),
            forall|s: u32| !#[trigger] i.knows(s),
    {
        BlockSpatialIndex::new()
    }
}

pub proof fn lemma_push_has(s: Seq<u32>, x: u32, c: u32)
    ensures
        s.push(x).contains(c) <==> s.contains(c) || c == x,
{
    let p = s.push(x);
    if s.contains(c) {
        let i = choose|i: int| 0 <= i < s.len() && s[i] == c;
        assert(p[i] == c);
    }
    if c == x {
        assert(p[s.len() as int] == c);
    }
    if p.contains(c) {
        let i = choose|i: int| 0 <= i < p.len() && p[i] == c;
        if i < s.len() {
            assert(s[i] == c);
        }
    }
}

/// The elements other than `x`, in order.
pub open spec fn others(s: Seq<u32>, x: u32) -> Seq<u32> {
    s.filter(|e: u32| e != x)
}

pub proof fn lemma_others(s: Seq<u32>, x: u32)
    ensures
        forall|c: u32| #[trigger] others(s, x).contains(c) <==> s.contains(c) && c != x,
        s.no_duplicates() ==> others(s, x).no_duplicates(),
    decreases s.len(),
{
    reveal(Seq::filter);
    if s.len() > 0 {
        let init = s.drop_last();
        let last = s.last();
        lemma_others(init, x);
        assert(s =~= init.push(last));
        assert forall|c: u32| #[trigger] others(s, x).contains(c) <==> s.contains(c) && c != x by {
            lemma_push_has(init, last, c);
            lemma_push_has(others(init, x), last, c);
        }
        if s.no_duplicates() {
            assert(!init.contains(last)) by {
                if init.contains(last) {
                    let i = choose|i: int| 0 <= i < init.len() && init[i] == last;
                    assert(s[i] == s[s.len() - 1]);
                }
            }
            assert(init.no_duplicates());
            if last != x {
                let o = others(init, x);
                assert(others(s, x) == o.push(last));
                assert(!o.contains(last));
                assert forall|i: int, j: int|
                    0 <= i < o.push(last).len() && 0 <= j < o.push(last).len() && i
                        != j implies o.push(last)[i] != o.push(last)[j] by {
                    if i == o.len() {
                        assert(o[j] != last);
                    } else if j == o.len() {
                        assert(o[i] != last);
                    }
                }
            }
        }
    }
}

/// The elements other than `x`, in order.
pub fn keep_others(s: &Vec<u32>, x: u32) -> (r: Vec<u32>)
    ensures
        r@ == others(s@, x),
{
    let mut r: Vec<u32> = Vec::new();
    let mut i: usize = 0;
    proof {
        reveal(Seq::filter);
        assert(s@.take(0) =~= Seq::<u32>::empty());
    }
    while i < s.len()
        invariant
            i <= s@.len(),
            r@ == others(s@.take(i as int), x),
        decreases s@.len() - i,
    {
        proof {
            reveal(Seq::filter);
            assert(s@.take(i + 1).drop_last() =~= s@.take(i as int));
        }
        if s[i] != x {
            r.push(s[i]);
        }
        i += 1;
    }
    assert(s@.take(i as int) =~= s@);
    r
}

/// A copy of a list.
pub fn copy_list(s: &Vec<u32>) -> (r: Vec<u32>)
    ensures
        r@ == s@,
{
    let mut r: Vec<u32> = Vec::new();
    let mut i: usize = 0;
    while i < s.len()
        invariant
            i <= s@.len(),
            r@ == s@.take(i as int),
        decreases s@.len() - i,
    {
        r.push(s[i]);
        assert(r@ =~= s@.take(i + 1));
        i += 1;
    }
    assert(s@.take(i as int) =~= s@);
    r
}

pub proof fn lemma_distinct(s: Seq<u32>)
    ensures
        distinct(s).no_duplicates(),
        forall|c: u32| #[trigger] distinct(s).contains(c) <==> s.contains(c),
    decreases s.len(),
{
    if s.len() > 0 {
        let init = s.drop_last();
        lemma_distinct(init);
        let d = distinct(init);
        assert(s =~= init.push(s.last()));
        assert forall|c: u32| #[trigger] distinct(s).contains(c) <==> s.contains(c) by {
            lemma_push_has(init, s.last(), c);
            lemma_push_has(d, s.last(), c);
        }
        if !d.contains(s.last()) {
            let p = d.push(s.last());
            assert forall|i: int, j: int| 0 <= i < p.len() && 0 <= j < p.len() && i != j implies p[i]
                != p[j] by {
                if i == d.len() {
                    assert(d[j] != s.last());
                } else if j == d.len() {
                    assert(d[i] != s.last());
                }
            }
        }
    }
}

pub proof fn lemma_gathered(lists: Map<u32, Vec<u32>>, keys: Seq<u32>, c: u32)
    ensures
        gathered(lists, keys).contains(c) <==> exists|k: u32| #[trigger]
            keys.contains(k) && list_at(lists, k).contains(c),
    decreases keys.len(),
{
    if keys.len() > 0 {
        let init = keys.drop_last();
        let last = keys.last();
        lemma_gathered(lists, init, c);
        let head = gathered(lists, init);
        let tail = list_at(lists, last);
        let all = head + tail;
        assert(keys =~= init.push(last));
        if head.contains(c) {
            let i = choose|i: int| 0 <= i < head.len() && head[i] == c;
            assert(all[i] == c);
            let k = choose|k: u32| #[trigger] init.contains(k) && list_at(lists, k).contains(c);
            lemma_push_has(init, last, k);
            assert(keys.contains(k));
        }
        if tail.contains(c) {
            let i = choose|i: int| 0 <= i < tail.len() && tail[i] == c;
            assert(all[head.len() + i] == c);
            lemma_push_has(init, last, last);
            assert(keys.contains(last));
        }
        if all.contains(c) {
            let i = choose|i: int| 0 <= i < all.len() && all[i] == c;
            if i < head.len() {
                assert(head[i] == c);
            } else {
                assert(tail[i - head.len()] == c);
            }
        }
        if exists|k: u32| #[trigger] keys.contains(k) && list_at(lists, k).contains(c) {
            let k = choose|k: u32| #[trigger] keys.contains(k) && list_at(lists, k).contains(c);
            lemma_push_has(init, last, k);
            if k != last {
                assert(init.contains(k));
            }
        }
    }
}

impl SpatialIndex for BlockSpatialIndex {
    open spec fn point_list(&self, x: u16, y: u16) -> Seq<u32> {
        list_at(self.blocks@, BlockKey::of_tile(x, y).packed())
    }

    proof fn lemma_found_is_known(&self) {
        assert(self.wf());
        assert forall|s: u32, x: u16, y: u16| #[trigger] self.finds(s, x, y) implies self.knows(
            s,
        ) by {
            assert(self.agrees(s, BlockKey::of_tile(x, y).packed()));
        }
        assert forall|s: u32, r: TileRect| #[trigger] self.finds_in(s, r) implies self.knows(s) by {
            let key = choose|key: u32| #[trigger] in_blocks(r, key) && self.lists(s, key);
            assert(self.agrees(s, key));
        }
    }

    proof fn lemma_empty_lists(&self, x: u16, y: u16) {
        assert(self.wf());
        let l = self.point_list(x, y);
        if l.len() > 0 {
            assert(l.contains(l[0]));
            assert(self.agrees(l[0], BlockKey::of_tile(x, y).packed()));
            assert(self.knows(l[0]));
        }
    }

    proof fn lemma_point_list(&self, x: u16, y: u16) {
        let key = BlockKey::of_tile(x, y).packed();
        if self.blocks@.contains_key(key) {
            assert(self.blocks@[key]@.no_duplicates());
        }
    }

    proof fn lemma_within_is_near(bbox: TileRect, x: u16, y: u16) {
        blocks_miss_nothing(bbox, x, y);
        assert(Self::near(bbox, x, y));
    }

    fn empty() -> (i: Self) {
        BlockSpatialIndex::new()
    }

    fn has(&self, serial: u32) -> (b: bool) {
        self.reverse.contains_key(&serial)
    }

    fn is_empty(&self) -> (b: bool) {
        let b = self.reverse.len() == 0;
        proof {
            if b {
                assert forall|s: u32| !#[trigger] self.knows(s) by {
                    assert(self.reverse@.dom() =~= Set::<u32>::empty());
                }
            } else {
                let s = self.reverse@.dom().choose();
                assert(self.reverse@.dom().contains(s));
                assert(self.knows(s));
            }
        }
        b
    }

    open spec fn finds(&self, serial: u32, x: u16, y: u16) -> bool {
        self.lists(serial, BlockKey::of_tile(x, y).packed())
    }

    open spec fn finds_in(&self, serial: u32, rect: TileRect) -> bool {
        exists|key: u32| #[trigger] in_blocks(rect, key) && self.lists(serial, key)
    }

    open spec fn knows(&self, serial: u32) -> bool {
        self.reverse@.contains_key(serial)
    }

    open spec fn wf(&self) -> bool {
        &&& forall|s: u32, key: u32| #[trigger] self.agrees(s, key)
        &&& forall|key: u32| #[trigger]
            self.blocks@.contains_key(key) ==> self.blocks@[key]@.no_duplicates()
        &&& forall|s: u32| #[trigger]
            self.reverse@.contains_key(s) ==> self.reverse@[s]@.no_duplicates()
    }

    open spec fn near(bbox: TileRect, x: u16, y: u16) -> bool {
        in_blocks(bbox, BlockKey::of_tile(x, y).packed())
    }

    open spec fn near_rect(bbox: TileRect, rect: TileRect) -> bool {
        exists|key: u32| #[trigger] in_blocks(rect, key) && in_blocks(bbox, key)
    }

    fn insert(&mut self, serial: u32, bbox: TileRect)
        ensures
            forall|key: u32| #[trigger]
                list_at(final(self).blocks@, key) == if in_blocks(bbox, key) {
                    list_at(old(self).blocks@, key).push(serial)
                } else {
                    list_at(old(self).blocks@, key)
                },
            forall|s: u32| #[trigger]
                list_at(final(self).reverse@, s) == if s == serial {
                    rect_keys(bbox)
                } else {
                    list_at(old(self).reverse@, s)
                },
    {
        let keys = block_keys(&bbox);
        let ghost before = self.blocks@;
        proof {
            lemma_rect_keys(bbox);
        }
        let mut i: usize = 0;
        while i < keys.len()
            invariant
                i <= keys@.len(),
                keys@.no_duplicates(),
                self.reverse == old(self).reverse,
                forall|key: u32| #[trigger]
                    list_at(self.blocks@, key) == if keys@.take(i as int).contains(key) {
                        list_at(before, key).push(serial)
                    } else {
                        list_at(before, key)
                    },
                forall|key: u32| #[trigger]
                    self.blocks@.contains_key(key) <==> before.contains_key(key) || keys@.take(
                        i as int,
                    ).contains(key),
            decreases keys@.len() - i,
        {
            let k: u32 = keys[i];
            let ghost mid = self.blocks@;
            let mut list: Vec<u32> = match self.blocks.remove(&k) {
                Some(v) => v,
                None => Vec::new(),
            };
            list.push(serial);
            self.blocks.insert(k, list);
            proof {
                let pre = keys@.take(i as int);
                assert(keys@.take(i + 1) =~= pre.push(k));
                assert(!pre.contains(k));
                assert forall|key: u32| #[trigger] list_at(self.blocks@, key) == if keys@.take(
                    i + 1,
                ).contains(key) {
                    list_at(before, key).push(serial)
                } else {
                    list_at(before, key)
                } by {
                    lemma_push_has(pre, k, key);
                    assert(list_at(mid, key) == if pre.contains(key) {
                        list_at(before, key).push(serial)
                    } else {
                        list_at(before, key)
                    });
                }
                assert forall|key: u32| #[trigger] self.blocks@.contains_key(key)
                    <==> before.contains_key(key) || keys@.take(i + 1).contains(key) by {
                    lemma_push_has(pre, k, key);
                    assert(mid.contains_key(key) <==> before.contains_key(key) || pre.contains(
                        key,
                    ));
                }
            }
            i += 1;
        }
        proof {
            assert(keys@.take(i as int) =~= keys@);
        }
        self.reverse.insert(serial, keys);
        proof {
            assert forall|key: u32| #[trigger] list_at(self.blocks@, key) == if in_blocks(
                bbox,
                key,
            ) {
                list_at(before, key).push(serial)
            } else {
                list_at(before, key)
            } by {
                assert(rect_keys(bbox).contains(key) <==> in_blocks(bbox, key));
            }
            if old(self).wf() && !old(self).knows(serial) {
                self.lemma_inserted(*old(self), serial, bbox);
            }
        }
    }

    fn remove(&mut self, serial: u32)
        ensures
            final(self).reverse@ == old(self).reverse@.remove(serial),
            forall|key: u32| #[trigger]
                list_at(final(self).blocks@, key) == if list_at(old(self).reverse@, serial).contains(
                    key,
                ) {
                    others(list_at(old(self).blocks@, key), serial)
                } else {
                    list_at(old(self).blocks@, key)
                },
    {
        let ghost before = self.blocks@;
        let keys: Vec<u32> = match self.reverse.remove(&serial) {
            Some(v) => v,
            None => Vec::new(),
        };
        assert(keys@ == list_at(old(self).reverse@, serial));
        assert(old(self).reverse@.remove(serial) =~= self.reverse@);
        let mut i: usize = 0;
        while i < keys.len()
            invariant
                i <= keys@.len(),
                self.reverse@ == old(self).reverse@.remove(serial),
                forall|key: u32| #[trigger]
                    list_at(self.blocks@, key) == if keys@.take(i as int).contains(key) {
                        others(list_at(before, key), serial)
                    } else {
                        list_at(before, key)
                    },
            decreases keys@.len() - i,
        {
            let k: u32 = keys[i];
            let ghost mid = self.blocks@;
            let mut changed = false;
            if let Some(list) = self.blocks.get(&k) {
                let rest = keep_others(list, serial);
                changed = true;
                if rest.len() == 0 {
                    self.blocks.remove(&k);
                } else {
                    self.blocks.insert(k, rest);
                }
            }
            proof {
                let pre = keys@.take(i as int);
                assert(keys@.take(i + 1) =~= pre.push(k));
                let was = list_at(before, k);
                lemma_others_twice(was, serial);
                assert(list_at(mid, k) == if pre.contains(k) {
                    others(was, serial)
                } else {
                    was
                });
                if !changed {
                    assert(others(Seq::<u32>::empty(), serial) =~= Seq::<u32>::empty()) by {
                        reveal(Seq::filter);
                    }
                    assert(list_at(mid, k) == Seq::<u32>::empty());
                }
                assert(list_at(self.blocks@, k) =~= others(was, serial));
                assert forall|key: u32| #[trigger] list_at(self.blocks@, key) == if keys@.take(
                    i + 1,
                ).contains(key) {
                    others(list_at(before, key), serial)
                } else {
                    list_at(before, key)
                } by {
                    lemma_push_has(pre, k, key);
                    assert(list_at(mid, key) == if pre.contains(key) {
                        others(list_at(before, key), serial)
                    } else {
                        list_at(before, key)
                    });
                }
            }
            i += 1;
        }
        proof {
            assert(keys@.take(i as int) =~= keys@);
            if old(self).wf() {
                self.lemma_removed(*old(self), serial);
            }
        }
    }

    fn query_point(&self, x: u16, y: u16) -> (r: Vec<u32>)
        ensures
            r@ == list_at(self.blocks@, BlockKey::of_tile(x, y).packed()),
    {
        let key: u32 = BlockKey::from_tile(x, y).pack();
        let r: Vec<u32> = match self.blocks.get(&key) {
            Some(list) => copy_list(list),
            None => Vec::new(),
        };
        proof {
            if self.wf() {
                assert forall|s: u32| #[trigger] r@.contains(s) implies self.knows(s) by {
                    assert(self.agrees(s, key));
                }
            }
        }
        r
    }

    fn query_rect(&self, rect: &TileRect) -> (r: Vec<u32>)
        ensures
            r@ == distinct(gathered(self.blocks@, rect_keys(*rect))),
    {
        let keys = block_keys(rect);
        let mut seen: HashSet<u32> = HashSet::new();
        let mut result: Vec<u32> = Vec::new();
        let mut i: usize = 0;
        assert(keys@.take(0) =~= Seq::<u32>::empty());
        assert(seen@ =~= result@.to_set());
        while i < keys.len()
            invariant
                i <= keys@.len(),
                result@ == distinct(gathered(self.blocks@, keys@.take(i as int))),
                forall|c: u32| #[trigger] seen@.contains(c) <==> result@.contains(c),
            decreases keys@.len() - i,
        {
            let ghost head = gathered(self.blocks@, keys@.take(i as int));
            let ghost here = list_at(self.blocks@, keys@[i as int]);
            proof {
                assert(keys@.take(i + 1).drop_last() =~= keys@.take(i as int));
                assert(head + here.take(0) =~= head);
            }
            if let Some(list) = self.blocks.get(&keys[i]) {
                let mut j: usize = 0;
                while j < list.len()
                    invariant
                        j <= list@.len(),
                        list@ == here,
                        result@ == distinct(head + here.take(j as int)),
                        forall|c: u32| #[trigger] seen@.contains(c) <==> result@.contains(c),
                    decreases list@.len() - j,
                {
                    let s: u32 = list[j];
                    let ghost done = result@;
                    proof {
                        assert((head + here.take(j + 1)).drop_last() =~= head + here.take(
                            j as int,
                        ));
                    }
                    if seen.insert(s) {
                        result.push(s);
                    }
                    proof {
                        assert forall|c: u32| #[trigger] seen@.contains(c)
                            <==> result@.contains(c) by {
                            lemma_push_has(done, s, c);
                        }
                    }
                    j += 1;
                }
                assert(here.take(j as int) =~= here);
            } else {
                assert(head + here =~= head);
            }
            i += 1;
        }
        proof {
            assert(keys@.take(i as int) =~= keys@);
            lemma_rect_keys(*rect);
            lemma_distinct(gathered(self.blocks@, keys@));
            if self.wf() {
                assert forall|s: u32| #[trigger] result@.contains(s) implies self.knows(s) by {
                    lemma_gathered(self.blocks@, keys@, s);
                    let k = choose|k: u32| #[trigger]
                        keys@.contains(k) && list_at(self.blocks@, k).contains(s);
                    assert(self.agrees(s, k));
                }
            }
            assert forall|s: u32| #[trigger] result@.contains(s) <==> self.finds_in(s, *rect) by {
                lemma_gathered(self.blocks@, keys@, s);
                if result@.contains(s) {
                    let k = choose|k: u32| #[trigger]
                        keys@.contains(k) && list_at(self.blocks@, k).contains(s);
                    assert(in_blocks(*rect, k) && self.lists(s, k));
                }
                if self.finds_in(s, *rect) {
                    let k = choose|k: u32| #[trigger] in_blocks(*rect, k) && self.lists(s, k);
                    assert(rect_keys(*rect).contains(k));
                }
            }
        }
        result
    }

    fn clear(&mut self) {
        self.blocks.clear();
        self.reverse.clear();
    }
}

proof fn lemma_others_twice(s: Seq<u32>, x: u32)
    ensures
        others(others(s, x), x) == others(s, x),
    decreases s.len(),
{
    reveal(Seq::filter);
    if s.len() > 0 {
        lemma_others_twice(s.drop_last(), x);
        let o = others(s.drop_last(), x);
        if s.last() != x {
            assert(o.push(s.last()).drop_last() =~= o);
        }
    }
}

impl BlockSpatialIndex {
    proof fn lemma_inserted(self, before: BlockSpatialIndex, serial: u32, bbox: TileRect)
        requires
            before.wf(),
            !before.knows(serial),
            forall|key: u32| #[trigger]
                list_at(self.blocks@, key) == if in_blocks(bbox, key) {
                    list_at(before.blocks@, key).push(serial)
                } else {
                    list_at(before.blocks@, key)
                },
            self.reverse@.dom() == before.reverse@.dom().insert(serial),
            forall|s: u32| #[trigger]
                list_at(self.reverse@, s) == if s == serial {
                    rect_keys(bbox)
                } else {
                    list_at(before.reverse@, s)
                },
        ensures
            self.wf(),
            forall|s: u32| #[trigger] self.knows(s) <==> before.knows(s) || s == serial,
            forall|s: u32, key: u32| #[trigger]
                self.lists(s, key) <==> before.lists(s, key) || (s == serial && in_blocks(
                    bbox,
                    key,
                )),
            forall|s: u32, x: u16, y: u16| #[trigger]
                self.finds(s, x, y) <==> before.finds(s, x, y) || (s == serial && Self::near(
                    bbox,
                    x,
                    y,
                )),
            forall|s: u32, r: TileRect| #[trigger]
                self.finds_in(s, r) <==> before.finds_in(s, r) || (s == serial
                    && Self::near_rect(bbox, r)),
    {
        lemma_rect_keys(bbox);
        assert forall|s: u32, key: u32| #[trigger] self.lists(s, key) <==> before.lists(s, key) || (
        s == serial && in_blocks(bbox, key)) by {
            assert(list_at(self.blocks@, key) == if in_blocks(bbox, key) {
                list_at(before.blocks@, key).push(serial)
            } else {
                list_at(before.blocks@, key)
            });
            lemma_push_has(list_at(before.blocks@, key), serial, s);
        }
        assert forall|s: u32, key: u32| #[trigger] self.agrees(s, key) by {
            assert(before.agrees(s, key));
            assert(self.lists(s, key) <==> before.lists(s, key) || (s == serial && in_blocks(
                bbox,
                key,
            )));
            assert(rect_keys(bbox).contains(key) <==> in_blocks(bbox, key));
            assert(list_at(self.reverse@, s) == if s == serial {
                rect_keys(bbox)
            } else {
                list_at(before.reverse@, s)
            });
        }
        assert forall|key: u32| #[trigger] self.blocks@.contains_key(key) implies self.blocks@[key]@.no_duplicates() by {
            let l = list_at(before.blocks@, key);
            assert(list_at(self.blocks@, key) == if in_blocks(bbox, key) {
                l.push(serial)
            } else {
                l
            });
            assert(before.agrees(serial, key));
            assert(!l.contains(serial));
            if before.blocks@.contains_key(key) {
                assert(l.no_duplicates());
            }
            let p = l.push(serial);
            assert forall|i: int, j: int| 0 <= i < p.len() && 0 <= j < p.len() && i != j implies p[i]
                != p[j] by {
                if i == l.len() {
                    assert(l[j] != serial);
                } else if j == l.len() {
                    assert(l[i] != serial);
                }
            }
        }
        assert forall|s: u32| #[trigger] self.reverse@.contains_key(s) implies self.reverse@[s]@.no_duplicates() by {
            assert(list_at(self.reverse@, s) == if s == serial {
                rect_keys(bbox)
            } else {
                list_at(before.reverse@, s)
            });
            if s != serial {
                assert(before.reverse@.contains_key(s));
            }
        }
        assert forall|s: u32, r: TileRect| #[trigger] self.finds_in(s, r) <==> before.finds_in(s, r)
            || (s == serial && Self::near_rect(bbox, r)) by {
            if self.finds_in(s, r) {
                let key = choose|key: u32| #[trigger] in_blocks(r, key) && self.lists(s, key);
                assert(before.lists(s, key) || (s == serial && in_blocks(bbox, key)));
            }
            if before.finds_in(s, r) {
                let key = choose|key: u32| #[trigger] in_blocks(r, key) && before.lists(s, key);
                assert(self.lists(s, key));
            }
            if s == serial && Self::near_rect(bbox, r) {
                let key = choose|key: u32| #[trigger] in_blocks(r, key) && in_blocks(bbox, key);
                assert(self.lists(s, key));
            }
        }
    }

    proof fn lemma_removed(self, before: BlockSpatialIndex, serial: u32)
        requires
            before.wf(),
            self.reverse@ == before.reverse@.remove(serial),
            forall|key: u32| #[trigger]
                list_at(self.blocks@, key) == if list_at(before.reverse@, serial).contains(key) {
                    others(list_at(before.blocks@, key), serial)
                } else {
                    list_at(before.blocks@, key)
                },
        ensures
            self.wf(),
            forall|s: u32| #[trigger] self.knows(s) <==> before.knows(s) && s != serial,
            forall|s: u32, key: u32| #[trigger]
                self.lists(s, key) <==> before.lists(s, key) && s != serial,
            forall|s: u32, x: u16, y: u16| #[trigger]
                self.finds(s, x, y) <==> before.finds(s, x, y) && s != serial,
            forall|s: u32, r: TileRect| #[trigger]
                self.finds_in(s, r) <==> before.finds_in(s, r) && s != serial,
    {
        assert forall|s: u32, key: u32| #[trigger] self.lists(s, key) <==> before.lists(s, key) && s
            != serial by {
            assert(before.agrees(serial, key));
            lemma_others(list_at(before.blocks@, key), serial);
            assert(list_at(self.blocks@, key) == if list_at(before.reverse@, serial).contains(key) {
                others(list_at(before.blocks@, key), serial)
            } else {
                list_at(before.blocks@, key)
            });
        }
        assert forall|s: u32, key: u32| #[trigger] self.agrees(s, key) by {
            assert(before.agrees(s, key));
            assert(self.lists(s, key) <==> before.lists(s, key) && s != serial);
        }
        assert forall|key: u32| #[trigger] self.blocks@.contains_key(key) implies self.blocks@[key]@.no_duplicates() by {
            lemma_others(list_at(before.blocks@, key), serial);
            assert(list_at(self.blocks@, key) == if list_at(before.reverse@, serial).contains(key) {
                others(list_at(before.blocks@, key), serial)
            } else {
                list_at(before.blocks@, key)
            });
            if !before.blocks@.contains_key(key) {
                assert(list_at(before.blocks@, key) == Seq::<u32>::empty());
            }
        }
        assert forall|s: u32, r: TileRect| #[trigger] self.finds_in(s, r) <==> before.finds_in(s, r)
            && s != serial by {
            if self.finds_in(s, r) {
                let key = choose|key: u32| #[trigger] in_blocks(r, key) && self.lists(s, key);
                assert(before.lists(s, key));
            }
            if before.finds_in(s, r) && s != serial {
                let key = choose|key: u32| #[trigger] in_blocks(r, key) && before.lists(s, key);
                assert(self.lists(s, key));
            }
        }
    }
}

/// Law: a block index finds every rectangle that holds the tile: what holds
/// the tile spans its block.
pub proof fn blocks_miss_nothing(rect: TileRect, x: u16, y: u16)
    requires
        rect.has(x as int, y as int),
    ensures
        in_blocks(rect, BlockKey::of_tile(x, y).packed()),
{
}

/// A list of rectangles.
#[derive(Debug)]
pub struct BBoxSpatialIndex {
    pub entries: Vec<(u32, TileRect)>,
}

/// The entries of other serials, in order.
pub open spec fn entries_without(e: Seq<(u32, TileRect)>, serial: u32) -> Seq<(u32, TileRect)> {
    e.filter(|p: (u32, TileRect)| p.0 != serial)
}

/// The serials of the entries that `hit` picks, in order.
pub open spec fn hits(e: Seq<(u32, TileRect)>, hit: spec_fn(TileRect) -> bool) -> Seq<u32>
    decreases e.len(),
{
    if e.len() == 0 {
        Seq::empty()
    } else if hit(e.last().1) {
        hits(e.drop_last(), hit).push(e.last().0)
    } else {
        hits(e.drop_last(), hit)
    }
}

proof fn lemma_entries_without(e: Seq<(u32, TileRect)>, serial: u32)
    ensures
        forall|p: (u32, TileRect)| #[trigger]
            entries_without(e, serial).contains(p) <==> e.contains(p) && p.0 != serial,
        no_serial_twice(e) ==> no_serial_twice(entries_without(e, serial)),
    decreases e.len(),
{
    reveal(Seq::filter);
    if e.len() > 0 {
        let init = e.drop_last();
        let last = e.last();
        lemma_entries_without(init, serial);
        let o = entries_without(init, serial);
        assert(e =~= init.push(last));
        assert forall|p: (u32, TileRect)| #[trigger] entries_without(e, serial).contains(p)
            <==> e.contains(p) && p.0 != serial by {
            lemma_push_entry(init, last, p);
            lemma_push_entry(o, last, p);
        }
        if no_serial_twice(e) {
            assert forall|i: int, j: int| 0 <= i < j < init.len() implies (#[trigger] init[i]).0 != (
            #[trigger] init[j]).0 by {
                assert(init[i] == e[i] && init[j] == e[j]);
            }
            if last.0 != serial {
                let p = o.push(last);
                assert forall|i: int, j: int| 0 <= i < j < p.len() implies (#[trigger] p[i]).0 != (
                #[trigger] p[j]).0 by {
                    if j == o.len() {
                        assert(o.contains(o[i]));
                        assert(init.contains(o[i]));
                        let k = choose|k: int| 0 <= k < init.len() && init[k] == o[i];
                        assert(e[k].0 != e[e.len() - 1].0);
                    } else {
                        assert(o[i].0 != o[j].0);
                    }
                }
            }
        }
    }
}

proof fn lemma_push_entry(s: Seq<(u32, TileRect)>, x: (u32, TileRect), c: (u32, TileRect))
    ensures
        s.push(x).contains(c) <==> s.contains(c) || c == x,
{
    let p = s.push(x);
    if s.contains(c) {
        let i = choose|i: int| 0 <= i < s.len() && s[i] == c;
        assert(p[i] == c);
    }
    if c == x {
        assert(p[s.len() as int] == c);
    }
    if p.contains(c) {
        let i = choose|i: int| 0 <= i < p.len() && p[i] == c;
        if i < s.len() {
            assert(s[i] == c);
        }
    }
}

/// Whether each serial has at most one entry.
pub open spec fn no_serial_twice(e: Seq<(u32, TileRect)>) -> bool {
    forall|i: int, j: int| 0 <= i < j < e.len() ==> (#[trigger] e[i]).0 != (#[trigger] e[j]).0
}

proof fn lemma_hits(e: Seq<(u32, TileRect)>, hit: spec_fn(TileRect) -> bool, s: u32)
    ensures
        hits(e, hit).contains(s) <==> exists|r: TileRect| #[trigger] e.contains((s, r)) && hit(r),
        no_serial_twice(e) ==> hits(e, hit).no_duplicates(),
    decreases e.len(),
{
    if e.len() > 0 {
        let init = e.drop_last();
        let last = e.last();
        lemma_hits(init, hit, s);
        lemma_hits(init, hit, last.0);
        let h = hits(init, hit);
        assert(e =~= init.push(last));
        lemma_push_has(h, last.0, s);
        if hits(e, hit).contains(s) {
            if s == last.0 && hit(last.1) {
                lemma_push_entry(init, last, last);
                assert(e.contains((s, last.1)));
            } else {
                let r = choose|r: TileRect| #[trigger] init.contains((s, r)) && hit(r);
                lemma_push_entry(init, last, (s, r));
                assert(e.contains((s, r)));
            }
        }
        if exists|r: TileRect| #[trigger] e.contains((s, r)) && hit(r) {
            let r = choose|r: TileRect| #[trigger] e.contains((s, r)) && hit(r);
            lemma_push_entry(init, last, (s, r));
            if (s, r) != last {
                assert(init.contains((s, r)));
            }
        }
        if no_serial_twice(e) {
            assert forall|i: int, j: int| 0 <= i < j < init.len() implies (#[trigger] init[i]).0 != (
            #[trigger] init[j]).0 by {
                assert(init[i] == e[i] && init[j] == e[j]);
            }
            if hit(last.1) {
                assert(!h.contains(last.0)) by {
                    if h.contains(last.0) {
                        let r = choose|r: TileRect| #[trigger] init.contains((last.0, r)) && hit(r);
                        let k = choose|k: int| 0 <= k < init.len() && init[k] == (last.0, r);
                        assert(e[k].0 != e[e.len() - 1].0);
                    }
                }
                let p = h.push(last.0);
                assert forall|i: int, j: int|
                    0 <= i < p.len() && 0 <= j < p.len() && i != j implies p[i] != p[j] by {
                    if i == h.len() {
                        assert(h[j] != last.0);
                    } else if j == h.len() {
                        assert(h[i] != last.0);
                    }
                }
            }
        }
    }
}

impl BBoxSpatialIndex {
    pub fn new() -> (i: BBoxSpatialIndex)
        ensures
            i.entries@ == Seq::<(u32, TileRect)>::empty(),
            i.wf(),
    {
        BBoxSpatialIndex { entries: Vec::new() }
    }
}

impl Default for BBoxSpatialIndex {
    fn default() -> (i: BBoxSpatialIndex)
        ensures
            i.entries@ == Seq::<(u32, TileRect)>::empty(),
    {
        BBoxSpatialIndex::new()
    }
}

impl SpatialIndex for BBoxSpatialIndex {
    open spec fn point_list(&self, x: u16, y: u16) -> Seq<u32> {
        hits(self.entries@, |b: TileRect| b.has(x as int, y as int))
    }

    proof fn lemma_found_is_known(&self) {
        assert forall|s: u32, x: u16, y: u16| #[trigger] self.finds(s, x, y) implies self.knows(
            s,
        ) by {
            let b = choose|b: TileRect| #[trigger]
                self.entries@.contains((s, b)) && b.has(x as int, y as int);
            assert(self.entries@.contains((s, b)));
        }
        assert forall|s: u32, r: TileRect| #[trigger] self.finds_in(s, r) implies self.knows(s) by {
            let b = choose|b: TileRect| #[trigger]
                self.entries@.contains((s, b)) && b.meets(r);
            assert(self.entries@.contains((s, b)));
        }
    }

    proof fn lemma_empty_lists(&self, x: u16, y: u16) {
        if self.entries@.len() > 0 {
            let e = self.entries@[0];
            assert(self.entries@.contains((e.0, e.1)));
            assert(self.knows(e.0));
        }
    }

    proof fn lemma_point_list(&self, x: u16, y: u16) {
        let hit = |b: TileRect| b.has(x as int, y as int);
        assert(self.wf());
        lemma_hits(self.entries@, hit, 0);
        assert(self.point_list(x, y) == hits(self.entries@, hit));
        assert forall|s: u32| #[trigger] self.point_list(x, y).contains(s) <==> self.finds(
            s,
            x,
            y,
        ) by {
            lemma_hits(self.entries@, hit, s);
            if self.point_list(x, y).contains(s) {
                let r = choose|r: TileRect| #[trigger] self.entries@.contains((s, r)) && hit(r);
                assert(self.entries@.contains((s, r)) && r.has(x as int, y as int));
            }
            if self.finds(s, x, y) {
                let r = choose|r: TileRect| #[trigger]
                    self.entries@.contains((s, r)) && r.has(x as int, y as int);
                assert(self.entries@.contains((s, r)) && hit(r));
            }
        }
    }

    proof fn lemma_within_is_near(bbox: TileRect, x: u16, y: u16) {
        assert(Self::near(bbox, x, y));
    }

    fn empty() -> (i: Self) {
        BBoxSpatialIndex::new()
    }

    fn has(&self, serial: u32) -> (b: bool) {
        let mut i: usize = 0;
        while i < self.entries.len()
            invariant
                i <= self.entries@.len(),
                forall|j: int| 0 <= j < i ==> (#[trigger] self.entries@[j]).0 != serial,
            decreases self.entries@.len() - i,
        {
            if self.entries[i].0 == serial {
                proof {
                    let e = self.entries@[i as int];
                    assert(self.entries@.contains((serial, e.1)));
                }
                return true;
            }
            i += 1;
        }
        proof {
            if self.knows(serial) {
                let r = choose|r: TileRect| #[trigger] self.entries@.contains((serial, r));
                let j = choose|j: int|
                    0 <= j < self.entries@.len() && self.entries@[j] == (serial, r);
                assert(self.entries@[j].0 == serial);
            }
        }
        false
    }

    fn is_empty(&self) -> (b: bool) {
        proof {
            if self.entries@.len() > 0 {
                let e = self.entries@[0];
                assert(self.entries@.contains((e.0, e.1)));
                assert(self.knows(e.0));
            }
        }
        self.entries.len() == 0
    }

    open spec fn finds(&self, serial: u32, x: u16, y: u16) -> bool {
        exists|r: TileRect| #[trigger]
            self.entries@.contains((serial, r)) && r.has(x as int, y as int)
    }

    open spec fn finds_in(&self, serial: u32, rect: TileRect) -> bool {
        exists|r: TileRect| #[trigger] self.entries@.contains((serial, r)) && r.meets(rect)
    }

    open spec fn knows(&self, serial: u32) -> bool {
        exists|r: TileRect| #[trigger] self.entries@.contains((serial, r))
    }

    open spec fn wf(&self) -> bool {
        no_serial_twice(self.entries@)
    }

    open spec fn near(bbox: TileRect, x: u16, y: u16) -> bool {
        bbox.has(x as int, y as int)
    }

    open spec fn near_rect(bbox: TileRect, rect: TileRect) -> bool {
        bbox.meets(rect)
    }

    fn insert(&mut self, serial: u32, bbox: TileRect)
        ensures
            final(self).entries@ == old(self).entries@.push((serial, bbox)),
    {
        self.entries.push((serial, bbox));
        proof {
            let e = old(self).entries@;
            let p = self.entries@;
            assert forall|q: (u32, TileRect)| p.contains(q) <==> e.contains(q) || q == (
                serial,
                bbox,
            ) by {
                lemma_push_entry(e, (serial, bbox), q);
            }
            if old(self).wf() && !old(self).knows(serial) {
                assert forall|i: int, j: int| 0 <= i < j < p.len() implies (#[trigger] p[i]).0 != (
                #[trigger] p[j]).0 by {
                    if j == e.len() {
                        assert(e.contains((p[i].0, p[i].1)));
                    }
                }
                assert(p.contains((serial, bbox)));
                assert forall|s: u32| #[trigger] self.knows(s) <==> old(self).knows(s) || s
                    == serial by {
                    if old(self).knows(s) {
                        let r = choose|r: TileRect| #[trigger] e.contains((s, r));
                        assert(p.contains((s, r)));
                    }
                }
                assert forall|s: u32, x: u16, y: u16| #[trigger] self.finds(s, x, y) <==> old(self).finds(s, x, y) || (s == serial && Self::near(bbox, x, y)) by {
                    if old(self).finds(s, x, y) {
                        let r = choose|r: TileRect| #[trigger]
                            e.contains((s, r)) && r.has(x as int, y as int);
                        assert(p.contains((s, r)));
                    }
                }
                assert forall|s: u32, q: TileRect| #[trigger] self.finds_in(s, q) <==> old(self).finds_in(s, q) || (s == serial && Self::near_rect(bbox, q)) by {
                    if old(self).finds_in(s, q) {
                        let r = choose|r: TileRect| #[trigger] e.contains((s, r)) && r.meets(q);
                        assert(p.contains((s, r)));
                    }
                }
            }
        }
    }

    fn remove(&mut self, serial: u32)
        ensures
            final(self).entries@ == entries_without(old(self).entries@, serial),
    {
        let mut kept: Vec<(u32, TileRect)> = Vec::new();
        let ghost all = self.entries@;
        let mut i: usize = 0;
        proof {
            reveal(Seq::filter);
            assert(all.take(0) =~= Seq::<(u32, TileRect)>::empty());
        }
        while i < self.entries.len()
            invariant
                i <= self.entries@.len(),
                self.entries@ == all,
                kept@ == entries_without(all.take(i as int), serial),
            decreases self.entries@.len() - i,
        {
            proof {
                reveal(Seq::filter);
                assert(all.take(i + 1).drop_last() =~= all.take(i as int));
            }
            if self.entries[i].0 != serial {
                kept.push(self.entries[i]);
            }
            i += 1;
        }
        assert(all.take(i as int) =~= all);
        self.entries = kept;
        proof {
            lemma_entries_without(all, serial);
            let p = self.entries@;
            if old(self).wf() {
                assert forall|s: u32| #[trigger] self.knows(s) <==> old(self).knows(s) && s
                    != serial by {
                    if old(self).knows(s) && s != serial {
                        let r = choose|r: TileRect| #[trigger] all.contains((s, r));
                        assert(p.contains((s, r)));
                    }
                }
                assert forall|s: u32, x: u16, y: u16| #[trigger] self.finds(s, x, y) <==> old(self).finds(s, x, y) && s != serial by {
                    if old(self).finds(s, x, y) && s != serial {
                        let r = choose|r: TileRect| #[trigger]
                            all.contains((s, r)) && r.has(x as int, y as int);
                        assert(p.contains((s, r)));
                    }
                }
                assert forall|s: u32, q: TileRect| #[trigger] self.finds_in(s, q) <==> old(self).finds_in(s, q) && s != serial by {
                    if old(self).finds_in(s, q) && s != serial {
                        let r = choose|r: TileRect| #[trigger] all.contains((s, r)) && r.meets(q);
                        assert(p.contains((s, r)));
                    }
                }
            }
        }
    }

    fn query_point(&self, x: u16, y: u16) -> (r: Vec<u32>)
        ensures
            r@ == hits(self.entries@, |b: TileRect| b.has(x as int, y as int)),
    {
        let ghost hit = |b: TileRect| b.has(x as int, y as int);
        let mut found: Vec<u32> = Vec::new();
        let mut i: usize = 0;
        assert(self.entries@.take(0) =~= Seq::<(u32, TileRect)>::empty());
        while i < self.entries.len()
            invariant
                i <= self.entries@.len(),
                hit == |b: TileRect| b.has(x as int, y as int),
                found@ == hits(self.entries@.take(i as int), hit),
            decreases self.entries@.len() - i,
        {
            proof {
                assert(self.entries@.take(i + 1).drop_last() =~= self.entries@.take(i as int));
            }
            if self.entries[i].1.contains_xy(x, y) {
                found.push(self.entries[i].0);
            }
            i += 1;
        }
        proof {
            assert(self.entries@.take(i as int) =~= self.entries@);
            lemma_hits(self.entries@, hit, 0);
            assert forall|s: u32| #[trigger] found@.contains(s) <==> self.finds(s, x, y) by {
                lemma_hits(self.entries@, hit, s);
                if found@.contains(s) {
                    let r = choose|r: TileRect| #[trigger]
                        self.entries@.contains((s, r)) && hit(r);
                    assert(r.has(x as int, y as int));
                }
                if self.finds(s, x, y) {
                    let r = choose|r: TileRect| #[trigger]
                        self.entries@.contains((s, r)) && r.has(x as int, y as int);
                    assert(hit(r));
                }
            }
        }
        found
    }

    fn query_rect(&self, rect: &TileRect) -> (r: Vec<u32>)
        ensures
            r@ == hits(self.entries@, |b: TileRect| b.meets(*rect)),
    {
        let ghost hit = |b: TileRect| b.meets(*rect);
        let mut found: Vec<u32> = Vec::new();
        let mut i: usize = 0;
        assert(self.entries@.take(0) =~= Seq::<(u32, TileRect)>::empty());
        while i < self.entries.len()
            invariant
                i <= self.entries@.len(),
                hit == |b: TileRect| b.meets(*rect),
                found@ == hits(self.entries@.take(i as int), hit),
            decreases self.entries@.len() - i,
        {
            proof {
                assert(self.entries@.take(i + 1).drop_last() =~= self.entries@.take(i as int));
            }
            if self.entries[i].1.overlaps(rect) {
                found.push(self.entries[i].0);
            }
            i += 1;
        }
        proof {
            assert(self.entries@.take(i as int) =~= self.entries@);
            lemma_hits(self.entries@, hit, 0);
            assert forall|s: u32| #[trigger] found@.contains(s) <==> self.finds_in(s, *rect) by {
                lemma_hits(self.entries@, hit, s);
                if found@.contains(s) {
                    let r = choose|r: TileRect| #[trigger]
                        self.entries@.contains((s, r)) && hit(r);
                    assert(r.meets(*rect));
                }
                if self.finds_in(s, *rect) {
                    let r = choose|r: TileRect| #[trigger]
                        self.entries@.contains((s, r)) && r.meets(*rect);
                    assert(hit(r));
                }
            }
        }
        found
    }

    fn clear(&mut self) {
        self.entries.clear();
    }
}

/// Law: a list of rectangles finds a rectangle just on its own tiles, and for just the
/// rectangles that it meets; a block index finds it in all blocks that it touches.
pub proof fn indices_find_what_is_near(b: TileRect, r: TileRect, x: u16, y: u16)
    ensures
        BBoxSpatialIndex::near(b, x, y) <==> b.x_min <= x <= b.x_max && b.y_min <= y <= b.y_max,
        BBoxSpatialIndex::near_rect(b, r) <==> b.x_min <= r.x_max && r.x_min <= b.x_max && b.y_min
            <= r.y_max && r.y_min <= b.y_max,
        BlockSpatialIndex::near(b, x, y) <==> b.x_min / 8 <= x / 8 <= b.x_max / 8 && b.y_min / 8 <= y
            / 8 <= b.y_max / 8,
        b.x_min <= b.x_max && b.y_min <= b.y_max && r.x_min <= r.x_max && r.y_min <= r.y_max ==> (
        BlockSpatialIndex::near_rect(b, r) <==> b.x_min / 8 <= r.x_max / 8 && r.x_min / 8 <= b.x_max
            / 8 && b.y_min / 8 <= r.y_max / 8 && r.y_min / 8 <= b.y_max / 8),
{
    if b.x_min <= b.x_max && b.y_min <= b.y_max && r.x_min <= r.x_max && r.y_min <= r.y_max {
        if BlockSpatialIndex::near_rect(b, r) {
            let key = choose|key: u32| #[trigger] in_blocks(r, key) && in_blocks(b, key);
            assert(in_blocks(r, key) && in_blocks(b, key));
        }
        if b.x_min / 8 <= r.x_max / 8 && r.x_min / 8 <= b.x_max / 8 && b.y_min / 8 <= r.y_max / 8
            && r.y_min / 8 <= b.y_max / 8 {
            let bx = if b.x_min >= r.x_min {
                b.x_min / 8
            } else {
                r.x_min / 8
            };
            let by = if b.y_min >= r.y_min {
                b.y_min / 8
            } else {
                r.y_min / 8
            };
            let key = (bx * 0x1_0000 + by) as u32;
            assert(key / 0x1_0000 == bx && key % 0x1_0000 == by);
            assert(in_blocks(r, key) && in_blocks(b, key));
        }
    }
}

} // verus!

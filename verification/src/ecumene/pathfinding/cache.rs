//! Blocks of tile stacks, kept during a search.
//!
//! A search looks at the same block many times. It is fetched from the source once
//! and answers for its tiles from then on.

use std::collections::HashMap;

use vstd::prelude::*;

use crate::coords::{BlockKey, Heading};
use crate::ecumene::movement::{
    climb_from, compute_dest_position, compute_source_range, dest_height, fall_limit, gait,
    lemma_one_height, reach_limit, step_coord, stepped,
};
use crate::ecumene::tile_block::TileBlock;
use crate::ecumene::tile_provider::TileProvider;
use crate::vessel::tile_shape::TileShape;

verus! {

broadcast use vstd::std_specs::hash::group_hash_axioms;

/// How often the blocks that were kept could answer.
#[derive(Debug, Clone, Copy, PartialEq, Eq, Structural)]
pub struct CacheStats {
    /// Questions answered without the source.
    pub hits: u64,
    /// Blocks fetched from the source.
    pub misses: u64,
    /// Blocks that are kept.
    pub blocks_loaded: u64,
}

impl Default for CacheStats {
    fn default() -> (s: CacheStats)
        ensures
            s == (CacheStats { hits: 0, misses: 0, blocks_loaded: 0 }),
    {
        CacheStats { hits: 0, misses: 0, blocks_loaded: 0 }
    }
}

/// A count one greater, as far as it goes.
pub open spec fn counted(n: u64) -> u64 {
    if n == u64::MAX {
        n
    } else {
        (n + 1) as u64
    }
}

/// A count greater by `n`, as far as it goes.
pub open spec fn counted_by(count: u64, n: int) -> u64 {
    if count + n > u64::MAX {
        u64::MAX
    } else {
        (count + n) as u64
    }
}

/// The counts after questions for the blocks of some keys, one after the other: a block
/// that was kept, or was fetched for an earlier question, is a hit.
pub open spec fn after_questions(stats: CacheStats, kept: Set<u32>, keys: Seq<u32>) -> CacheStats
    decreases keys.len(),
{
    if keys.len() == 0 {
        stats
    } else {
        let earlier = keys.drop_last();
        let s = after_questions(stats, kept, earlier);
        if kept.contains(keys.last()) || earlier.contains(keys.last()) {
            s.hit()
        } else {
            s.missed()
        }
    }
}

/// The keys of the blocks that a step looks at: those of its start and of its end.
pub open spec fn step_keys(x: u16, y: u16, h: Heading) -> Seq<u32> {
    seq![
        BlockKey::of_tile(x, y).packed(),
        BlockKey::of_tile(stepped(x, h.dx()), stepped(y, h.dy())).packed(),
    ]
}

/// The keys of the blocks that are asked for to test a step: a diagonal one that is not
/// barred is followed by the cardinal ones beside it, until one of them is barred.
pub open spec fn test_keys<T: TileProvider>(
    inner: &T,
    mask: u64,
    fly: bool,
    x: u16,
    y: u16,
    z: i8,
    h: Heading,
) -> Seq<u32> {
    let right = Heading::at(h.index_spec() + 1);
    let left = Heading::at(h.index_spec() - 1);
    if !h.diagonal() || flat_step(inner, mask, fly, x, y, z, h, None) {
        step_keys(x, y, h)
    } else if flat_step(inner, mask, fly, x, y, z, right, None) {
        step_keys(x, y, h) + step_keys(x, y, right)
    } else {
        step_keys(x, y, h) + step_keys(x, y, right) + step_keys(x, y, left)
    }
}

impl CacheStats {
    /// After a question that was answered without the source.
    pub open spec fn hit(self) -> CacheStats {
        CacheStats { hits: counted(self.hits), ..self }
    }

    /// After a block was fetched.
    pub open spec fn missed(self) -> CacheStats {
        CacheStats {
            misses: counted(self.misses),
            blocks_loaded: counted(self.blocks_loaded),
            ..self
        }
    }

    /// After so many blocks were fetched.
    pub open spec fn missed_by(self, n: int) -> CacheStats {
        CacheStats {
            misses: counted_by(self.misses, n),
            blocks_loaded: counted_by(self.blocks_loaded, n),
            ..self
        }
    }

    fn count_hit(&mut self)
        ensures
            *final(self) == old(self).hit(),
    {
        self.hits = self.hits.saturating_add(1);
    }

    fn count_miss(&mut self)
        ensures
            *final(self) == old(self).missed(),
    {
        self.misses = self.misses.saturating_add(1);
        self.blocks_loaded = self.blocks_loaded.saturating_add(1);
    }
}

/// A source of tile stacks with the blocks that were fetched from it.
pub struct CachingProvider<'a, T: TileProvider> {
    pub inner: &'a T,
    /// Packed key to block.
    pub cache: HashMap<u32, TileBlock>,
    pub stats: CacheStats,
}

/// Whether a block is the one that a source has under a key.
pub open spec fn is_block_of<T: TileProvider>(inner: &T, key: BlockKey, b: TileBlock) -> bool {
    &&& key.on_map()
    &&& b.wf()
    &&& b.block_key == key
    &&& forall|i: int|
        0 <= i < 64 ==> (#[trigger] b@[i]) == inner.flat_stack(
            (key.bx * 8 + i % 8) as u16,
            (key.by * 8 + i / 8) as u16,
        )
}

/// Whether `r` is the outcome of one step between two tiles, whatever the slope under
/// the walker, without a look at the tiles beside the way.
pub open spec fn flat_step<T: TileProvider>(
    inner: &T,
    mask: u64,
    fly: bool,
    x: u16,
    y: u16,
    z: i8,
    direction: Heading,
    r: Option<i8>,
) -> bool {
    let source = inner.flat_stack(x, y);
    let dest = inner.flat_stack(stepped(x, direction.dx()), stepped(y, direction.dy())).push(
        TileShape::cap_spec(),
    );
    let n = source.len() as int;
    dest_height(
        dest,
        gait(z, fall_limit(source, z, n), climb_from(reach_limit(source, z, n)), mask, fly),
        r,
    )
}

/// Whether `r` is the outcome of a step: a diagonal one also needs both cardinal steps
/// beside it.
pub open spec fn flat_leads<T: TileProvider>(
    inner: &T,
    mask: u64,
    fly: bool,
    x: u16,
    y: u16,
    z: i8,
    h: Heading,
    r: Option<i8>,
) -> bool {
    let barred = flat_step(inner, mask, fly, x, y, z, h, None) || (h.diagonal() && (flat_step(
        inner,
        mask,
        fly,
        x,
        y,
        z,
        Heading::at(h.index_spec() + 1),
        None,
    ) || flat_step(inner, mask, fly, x, y, z, Heading::at(h.index_spec() - 1), None)));
    &&& r is None <==> barred
    &&& r is Some ==> flat_step(inner, mask, fly, x, y, z, h, r)
}

/// Whether a source can be asked about the blocks of both tiles of a step.
pub open spec fn step_blocks<T: TileProvider>(inner: &T, x: u16, y: u16, h: Heading) -> bool {
    &&& inner.covers_block(BlockKey::of_tile(x, y))
    &&& inner.covers_block(BlockKey::of_tile(stepped(x, h.dx()), stepped(y, h.dy())))
}

/// Whether a source can be asked about the blocks of all tiles that a step looks at.
pub open spec fn all_step_blocks<T: TileProvider>(inner: &T, x: u16, y: u16, h: Heading) -> bool {
    &&& step_blocks(inner, x, y, h)
    &&& h.diagonal() ==> step_blocks(inner, x, y, Heading::at(h.index_spec() + 1)) && step_blocks(
        inner,
        x,
        y,
        Heading::at(h.index_spec() - 1),
    )
}

/// The block index of a tile coordinate, from zero up.
pub open spec fn block_index(c: int) -> int {
    if c < 0 {
        0
    } else {
        c / 8
    }
}

impl<'a, T: TileProvider> CachingProvider<'a, T> {
    /// Whether what is kept under a key is right.
    pub open spec fn kept_right(&self, k: u32) -> bool {
        self.cache@.contains_key(k) ==> exists|key: BlockKey|
            key.packed() == k && #[trigger] is_block_of(self.inner, key, self.cache@[k])
    }

    /// All blocks that are kept are those of the source.
    pub open spec fn wf(&self) -> bool {
        forall|k: u32| #[trigger] self.kept_right(k)
    }

    pub fn new(inner: &'a T) -> (c: Self)
        ensures
            c.wf(),
            c.inner == inner,
            c.cache@ == Map::<u32, TileBlock>::empty(),
            c.stats == (CacheStats { hits: 0, misses: 0, blocks_loaded: 0 }),
    {
        let c = CachingProvider { inner, cache: HashMap::new(), stats: CacheStats::default() };
        assert forall|k: u32| #[trigger] c.kept_right(k) by {}
        c
    }

    /// Room for so many blocks is made at once.
    pub fn with_capacity(inner: &'a T, expected_blocks: usize) -> (c: Self)
        ensures
            c.wf(),
            c.inner == inner,
            c.cache@ == Map::<u32, TileBlock>::empty(),
            c.stats == (CacheStats { hits: 0, misses: 0, blocks_loaded: 0 }),
    {
        let c = CachingProvider {
            inner,
            cache: HashMap::with_capacity(expected_blocks),
            stats: CacheStats::default(),
        };
        assert forall|k: u32| #[trigger] c.kept_right(k) by {}
        c
    }

    pub fn stats(&self) -> (s: CacheStats)
        ensures
            s == self.stats,
    {
        self.stats
    }

    /// Number of blocks that are kept.
    pub fn cached_blocks(&self) -> (n: usize)
        ensures
            n == self.cache@.dom().len(),
    {
        self.cache.len()
    }

    /// Fetches a block that is missing.
    fn load(&mut self, key: BlockKey) -> (fetched: bool)
        requires
            old(self).wf(),
            key.on_map(),
            old(self).inner.covers_block(key),
        ensures
            final(self).wf(),
            final(self).inner == old(self).inner,
            fetched == !old(self).cache@.contains_key(key.packed()),
            final(self).cache@.contains_key(key.packed()),
            is_block_of(final(self).inner, key, final(self).cache@[key.packed()]),
            final(self).cache@ == old(self).cache@.insert(
                key.packed(),
                final(self).cache@[key.packed()],
            ),
            !fetched ==> *final(self) == *old(self),
            fetched ==> final(self).stats == old(self).stats.missed(),
    {
        let k: u32 = key.pack();
        let ghost before = *self;
        if self.cache.contains_key(&k) {
            proof {
                assert(before.kept_right(k));
                let other = choose|other: BlockKey|
                    other.packed() == k && #[trigger] is_block_of(
                        before.inner,
                        other,
                        before.cache@[k],
                    );
                crate::coords::packed_is_injective(key, other);
                assert(before.cache@.insert(k, before.cache@[k]) =~= before.cache@);
            }
            return false;
        }
        let block = self.inner.query_block(key);
        let ghost b = block;
        self.cache.insert(k, block);
        self.stats.count_miss();
        proof {
            assert(is_block_of(self.inner, key, b));
            assert forall|j: u32| #[trigger] self.kept_right(j) by {
                assert(before.kept_right(j));
                if j == k {
                    assert(is_block_of(self.inner, key, self.cache@[k]));
                } else if before.cache@.contains_key(j) {
                    let other = choose|other: BlockKey|
                        other.packed() == j && #[trigger] is_block_of(
                            before.inner,
                            other,
                            before.cache@[j],
                        );
                    assert(is_block_of(self.inner, other, self.cache@[j]));
                }
            }
        }
        true
    }

    /// Fetches all missing blocks that meet a rectangle of tiles, and those one past
    /// its far sides.
    pub fn prefetch_rect(
        &mut self,
        tile_left: isize,
        tile_top: isize,
        tile_right: isize,
        tile_bottom: isize,
    )
        requires
            old(self).wf(),
            tile_right <= isize::MAX - 7,
            tile_bottom <= isize::MAX - 7,
            block_index(tile_left as int) <= u16::MAX,
            block_index(tile_top as int) <= u16::MAX,
            forall|key: BlockKey|
                block_index(tile_left as int) <= key.bx <= block_index(tile_right + 7)
                    && block_index(tile_top as int) <= key.by <= block_index(tile_bottom + 7)
                    ==> key.on_map() && #[trigger] old(self).inner.covers_block(key),
            block_index(tile_right + 7) <= 0x1FFF,
            block_index(tile_bottom + 7) <= 0x1FFF,
        ensures
            final(self).wf(),
            final(self).inner == old(self).inner,
            forall|k: u32| #[trigger]
                final(self).cache@.contains_key(k) <==> old(self).cache@.contains_key(k) || exists|
                    key: BlockKey|
                    {
                        &&& block_index(tile_left as int) <= key.bx <= block_index(tile_right + 7)
                        &&& block_index(tile_top as int) <= key.by <= block_index(tile_bottom + 7)
                        &&& #[trigger] key.packed() == k
                    },
            forall|k: u32| #[trigger]
                old(self).cache@.contains_key(k) ==> final(self).cache@[k] == old(self).cache@[k],
            final(self).stats == old(self).stats.missed_by(
                final(self).cache@.dom().len() - old(self).cache@.dom().len(),
            ),
    {
        let bx_min: u16 = if tile_left < 0 {
            0
        } else {
            (tile_left / 8) as u16
        };
        let by_min: u16 = if tile_top < 0 {
            0
        } else {
            (tile_top / 8) as u16
        };
        let bx_max: u16 = if tile_right + 7 < 0 {
            0
        } else {
            ((tile_right + 7) / 8) as u16
        };
        let by_max: u16 = if tile_bottom + 7 < 0 {
            0
        } else {
            ((tile_bottom + 7) / 8) as u16
        };
        let ghost start = self.cache@;
        let ghost inner = self.inner;
        let ghost stats = self.stats;
        let mut bx: u16 = bx_min;
        while bx <= bx_max
            invariant
                bx_min <= bx,
                bx <= bx_max + 1 || bx == bx_min,
                bx_max <= 0x1FFF,
                by_max <= 0x1FFF,
                self.wf(),
                self.inner == inner,
                self.cache@.dom().len() >= start.dom().len(),
                self.stats == stats.missed_by(self.cache@.dom().len() - start.dom().len()),
                forall|k: u32| #[trigger]
                    start.contains_key(k) ==> self.cache@.contains_key(k) && self.cache@[k]
                        == start[k],
                forall|key: BlockKey|
                    bx_min <= key.bx <= bx_max && by_min <= key.by <= by_max ==> key.on_map()
                        && #[trigger] inner.covers_block(key),
                forall|k: u32| #[trigger]
                    self.cache@.contains_key(k) <==> start.contains_key(k) || exists|key: BlockKey|
                        {
                            &&& bx_min <= key.bx < bx
                            &&& key.bx <= bx_max
                            &&& by_min <= key.by <= by_max
                            &&& #[trigger] key.packed() == k
                        },
            decreases bx_max + 1 - bx,
        {
            let ghost before = self.cache@;
            let mut by: u16 = by_min;
            while by <= by_max
                invariant
                    bx_min <= bx <= bx_max,
                    bx_max <= 0x1FFF,
                    by_min <= by,
                    by <= by_max + 1 || by == by_min,
                    by_max <= 0x1FFF,
                    self.wf(),
                    self.inner == inner,
                    self.cache@.dom().len() >= start.dom().len(),
                    self.stats == stats.missed_by(self.cache@.dom().len() - start.dom().len()),
                    forall|k: u32| #[trigger]
                        start.contains_key(k) ==> self.cache@.contains_key(k) && self.cache@[k]
                            == start[k],
                    forall|key: BlockKey|
                        bx_min <= key.bx <= bx_max && by_min <= key.by <= by_max ==> key.on_map()
                            && #[trigger] inner.covers_block(key),
                    forall|k: u32| #[trigger]
                        self.cache@.contains_key(k) <==> before.contains_key(k) || exists|
                            key: BlockKey|
                            {
                                &&& key.bx == bx
                                &&& by_min <= key.by < by
                                &&& key.by <= by_max
                                &&& #[trigger] key.packed() == k
                            },
                decreases by_max + 1 - by,
            {
                let key = BlockKey::new(bx, by);
                let ghost mid = self.cache@;
                assert(inner.covers_block(key));
                self.load(key);
                proof {
                    assert(self.cache@.dom() =~= mid.dom().insert(key.packed()));
                    assert forall|k: u32| #[trigger] self.cache@.contains_key(k)
                        <==> before.contains_key(k) || exists|o: BlockKey|
                        {
                            &&& o.bx == bx
                            &&& by_min <= o.by < by + 1
                            &&& o.by <= by_max
                            &&& #[trigger] o.packed() == k
                        } by {
                        if self.cache@.contains_key(k) {
                            if k == key.packed() {
                                assert(key.packed() == k);
                            } else {
                                assert(mid.contains_key(k));
                            }
                        }
                        if exists|o: BlockKey|
                            {
                                &&& o.bx == bx
                                &&& by_min <= o.by < by + 1
                                &&& o.by <= by_max
                                &&& #[trigger] o.packed() == k
                            } {
                            let o = choose|o: BlockKey|
                                {
                                    &&& o.bx == bx
                                    &&& by_min <= o.by < by + 1
                                    &&& o.by <= by_max
                                    &&& #[trigger] o.packed() == k
                                };
                            if o.by == by {
                                assert(o == key);
                            } else {
                                assert(mid.contains_key(k));
                            }
                        }
                    }
                }
                by = by + 1;
            }
            proof {
                assert forall|k: u32| #[trigger] self.cache@.contains_key(k) <==> start.contains_key(
                    k,
                ) || exists|key: BlockKey|
                    {
                        &&& bx_min <= key.bx < bx + 1
                        &&& key.bx <= bx_max
                        &&& by_min <= key.by <= by_max
                        &&& #[trigger] key.packed() == k
                    } by {
                    if exists|key: BlockKey|
                        {
                            &&& bx_min <= key.bx < bx + 1
                            &&& key.bx <= bx_max
                            &&& by_min <= key.by <= by_max
                            &&& #[trigger] key.packed() == k
                        } {
                        let o = choose|key: BlockKey|
                            {
                                &&& bx_min <= key.bx < bx + 1
                                &&& key.bx <= bx_max
                                &&& by_min <= key.by <= by_max
                                &&& #[trigger] key.packed() == k
                            };
                        if o.bx < bx {
                            assert(before.contains_key(k));
                        }
                    }
                    if self.cache@.contains_key(k) {
                        if before.contains_key(k) {
                        } else {
                            let o = choose|key: BlockKey|
                                {
                                    &&& key.bx == bx
                                    &&& by_min <= key.by < by
                                    &&& key.by <= by_max
                                    &&& #[trigger] key.packed() == k
                                };
                            assert(o.packed() == k);
                        }
                    }
                }
            }
            bx = bx + 1;
        }
    }

    /// Fetches the block of a tile if it is missing, and counts.
    fn block_for(&mut self, key: BlockKey)
        requires
            old(self).wf(),
            key.on_map(),
            old(self).inner.covers_block(key),
        ensures
            final(self).wf(),
            final(self).inner == old(self).inner,
            final(self).cache@.contains_key(key.packed()),
            is_block_of(final(self).inner, key, final(self).cache@[key.packed()]),
            final(self).cache@ == old(self).cache@.insert(
                key.packed(),
                final(self).cache@[key.packed()],
            ),
            old(self).cache@.contains_key(key.packed()) ==> final(self).cache@
                == old(self).cache@,
            final(self).stats == if old(self).cache@.contains_key(key.packed()) {
                old(self).stats.hit()
            } else {
                old(self).stats.missed()
            },
    {
        let ghost before = *self;
        let fetched = self.load(key);
        if !fetched {
            self.stats.count_hit();
            proof {
                assert forall|j: u32| #[trigger] self.kept_right(j) by {
                    assert(before.kept_right(j));
                    if before.cache@.contains_key(j) {
                        let other = choose|other: BlockKey|
                            other.packed() == j && #[trigger] is_block_of(
                                before.inner,
                                other,
                                before.cache@[j],
                            );
                        assert(is_block_of(self.inner, other, self.cache@[j]));
                    }
                }
            }
        }
    }

    /// The stack of a tile.
    pub fn tile_stack(&mut self, x: u16, y: u16) -> (r: Vec<TileShape>)
        requires
            old(self).wf(),
            old(self).inner.covers_block(BlockKey::of_tile(x, y)),
        ensures
            final(self).wf(),
            final(self).inner == old(self).inner,
            r@ == old(self).inner.flat_stack(x, y),
            old(self).asked(final(self), x, y),
    {
        let mut out: Vec<TileShape> = Vec::new();
        self.append_tile_stack(x, y, &mut out);
        assert(out@ =~= self.inner.flat_stack(x, y));
        out
    }

    /// What a question about a tile leaves: its block is kept.
    pub open spec fn asked(&self, after: &Self, x: u16, y: u16) -> bool {
        self.answered(after, seq![BlockKey::of_tile(x, y).packed()])
    }

    /// What questions for the blocks of some keys leave: those blocks are kept beside all
    /// that were, which stay as they are, and the questions are counted.
    pub open spec fn answered(&self, after: &Self, keys: Seq<u32>) -> bool {
        &&& forall|k: u32| #[trigger]
            after.cache@.contains_key(k) <==> self.cache@.contains_key(k) || keys.contains(k)
        &&& forall|k: u32| #[trigger] self.cache@.contains_key(k) ==> after.cache@[k] == self.cache@[k]
        &&& after.stats == after_questions(self.stats, self.cache@.dom(), keys)
    }

    /// Questions one after the other are questions.
    proof fn lemma_answered_on(&self, mid: &Self, after: &Self, first: Seq<u32>, next: Seq<u32>)
        requires
            self.answered(mid, first),
            mid.answered(after, next),
        ensures
            self.answered(after, first + next),
    {
        let all = first + next;
        assert forall|k: u32| #[trigger] all.contains(k) <==> first.contains(k) || next.contains(
            k,
        ) by {
            lemma_joined(first, next, k);
        }
        lemma_questions_on(
            self.stats,
            self.cache@.dom(),
            mid.cache@.dom(),
            first,
            next,
        );
        assert forall|k: u32| #[trigger] self.cache@.contains_key(k) implies after.cache@[k]
            == self.cache@[k] by {
            assert(mid.cache@.contains_key(k));
        }
        assert forall|k: u32| #[trigger] after.cache@.contains_key(k) <==> self.cache@.contains_key(
            k,
        ) || all.contains(k) by {
            assert(mid.cache@.contains_key(k) <==> self.cache@.contains_key(k) || first.contains(
                k,
            ));
        }
    }

    /// Adds the stack of a tile to a list.
    pub fn append_tile_stack(&mut self, x: u16, y: u16, out: &mut Vec<TileShape>)
        requires
            old(self).wf(),
            old(self).inner.covers_block(BlockKey::of_tile(x, y)),
        ensures
            final(self).wf(),
            final(self).inner == old(self).inner,
            final(out)@ == old(out)@ + old(self).inner.flat_stack(x, y),
            old(self).asked(final(self), x, y),
    {
        let ghost start = out@;
        let stack = self.tile_stack_ref(x, y);
        let mut i: usize = 0;
        assert(out@ =~= start + stack@.take(0));
        while i < stack.len()
            invariant
                i <= stack@.len(),
                out@ == start + stack@.take(i as int),
            decreases stack@.len() - i,
        {
            out.push(stack[i]);
            assert(out@ =~= start + stack@.take(i + 1));
            i += 1;
        }
        assert(stack@.take(i as int) =~= stack@);
    }

    /// The stack of a tile, as it is kept.
    pub fn tile_stack_ref(&mut self, x: u16, y: u16) -> (r: &[TileShape])
        requires
            old(self).wf(),
            old(self).inner.covers_block(BlockKey::of_tile(x, y)),
        ensures
            final(self).wf(),
            final(self).inner == old(self).inner,
            r@ == old(self).inner.flat_stack(x, y),
            old(self).asked(final(self), x, y),
    {
        let key = BlockKey::from_tile(x, y);
        let k: u32 = key.pack();
        let ghost before = *self;
        self.block_for(key);
        proof {
            let one = seq![k];
            assert(one[0] == k);
            assert(one.drop_last() =~= Seq::<u32>::empty());
            assert(after_questions(before.stats, before.cache@.dom(), one.drop_last())
                == before.stats);
            assert(before.asked(self, x, y));
        }
        let ox: u8 = (x % 8) as u8;
        let oy: u8 = (y % 8) as u8;
        proof {
            let b = self.cache@[k];
            let i = oy * 8 + ox;
            assert(i % 8 == ox && i / 8 == oy);
            assert(key.bx * 8 + ox == x && key.by * 8 + oy == y);
            assert(b@[i] == self.inner.flat_stack(x, y));
        }
        match self.cache.get(&k) {
            Some(b) => b.tile_stack(ox, oy),
            None => &[],
        }
    }

    /// The standing height after a step, without a look at the tiles beside the way.
    pub fn test_step_single(
        &mut self,
        x: u16,
        y: u16,
        z: i8,
        dir: Heading,
        passable_mask: u64,
        can_fly: bool,
    ) -> (r: Option<i8>)
        requires
            old(self).wf(),
            step_blocks(old(self).inner, x, y, dir),
        ensures
            final(self).wf(),
            final(self).inner == old(self).inner,
            flat_step(old(self).inner, passable_mask, can_fly, x, y, z, dir, r),
            old(self).answered(final(self), step_keys(x, y, dir)),
    {
        let ghost before = *self;
        let (dx, dy) = dir.delta();
        let to_x: u16 = step_coord(x, dx);
        let to_y: u16 = step_coord(y, dy);
        let source = self.tile_stack(x, y);
        let ghost mid = *self;
        let (z_low, z_high) = compute_source_range(source.as_slice(), z);
        let mut dest = self.tile_stack(to_x, to_y);
        proof {
            let first = seq![BlockKey::of_tile(x, y).packed()];
            let next = seq![BlockKey::of_tile(to_x, to_y).packed()];
            before.lemma_answered_on(&mid, self, first, next);
            assert(first + next =~= step_keys(x, y, dir));
        }
        dest.push(TileShape::cap());
        compute_dest_position(dest.as_slice(), z, z_low, z_high, passable_mask, can_fly)
    }

    /// The standing height after a step, or `None` where it is blocked. A diagonal step
    /// also needs both cardinal steps beside it.
    pub fn test_step(
        &mut self,
        x: u16,
        y: u16,
        z: i8,
        dir: Heading,
        passable_mask: u64,
        can_fly: bool,
    ) -> (r: Option<i8>)
        requires
            old(self).wf(),
            all_step_blocks(old(self).inner, x, y, dir),
        ensures
            final(self).wf(),
            final(self).inner == old(self).inner,
            flat_leads(old(self).inner, passable_mask, can_fly, x, y, z, dir, r),
            old(self).answered(
                final(self),
                test_keys(old(self).inner, passable_mask, can_fly, x, y, z, dir),
            ),
    {
        let ghost inner = self.inner;
        let ghost before = *self;
        let ghost right_way = Heading::at(dir.index_spec() + 1);
        let ghost left_way = Heading::at(dir.index_spec() - 1);
        let dest = self.test_step_single(x, y, z, dir, passable_mask, can_fly);
        proof {
            lemma_one_step(inner, passable_mask, can_fly, x, y, z, dir, dest);
        }
        if dest.is_none() {
            return None;
        }
        if dir.is_diagonal() {
            let ghost mid = *self;
            let right = self.test_step_single(x, y, z, dir.turn(1), passable_mask, can_fly);
            proof {
                lemma_one_step(
                    inner,
                    passable_mask,
                    can_fly,
                    x,
                    y,
                    z,
                    right_way,
                    right,
                );
                before.lemma_answered_on(
                    &mid,
                    self,
                    step_keys(x, y, dir),
                    step_keys(x, y, right_way),
                );
            }
            if right.is_none() {
                return None;
            }
            let ghost mid = *self;
            let left = self.test_step_single(x, y, z, dir.turn(-1), passable_mask, can_fly);
            proof {
                lemma_one_step(
                    inner,
                    passable_mask,
                    can_fly,
                    x,
                    y,
                    z,
                    left_way,
                    left,
                );
                before.lemma_answered_on(
                    &mid,
                    self,
                    step_keys(x, y, dir) + step_keys(x, y, right_way),
                    step_keys(x, y, left_way),
                );
            }
            if left.is_none() {
                return None;
            }
        }
        dest
    }
}

proof fn lemma_joined(a: Seq<u32>, b: Seq<u32>, k: u32)
    ensures
        (a + b).contains(k) <==> a.contains(k) || b.contains(k),
{
    let all = a + b;
    if a.contains(k) {
        let i = choose|i: int| 0 <= i < a.len() && a[i] == k;
        assert(all[i] == k);
    }
    if b.contains(k) {
        let i = choose|i: int| 0 <= i < b.len() && b[i] == k;
        assert(all[a.len() + i] == k);
    }
    if all.contains(k) {
        let i = choose|i: int| 0 <= i < all.len() && all[i] == k;
        if i < a.len() {
            assert(a[i] == k);
        } else {
            assert(b[i - a.len()] == k);
        }
    }
}

/// The counts of questions that follow others.
proof fn lemma_questions_on(
    stats: CacheStats,
    kept: Set<u32>,
    then_kept: Set<u32>,
    first: Seq<u32>,
    next: Seq<u32>,
)
    requires
        forall|k: u32| #[trigger]
            then_kept.contains(k) <==> kept.contains(k) || first.contains(k),
    ensures
        after_questions(after_questions(stats, kept, first), then_kept, next) == after_questions(
            stats,
            kept,
            first + next,
        ),
    decreases next.len(),
{
    let all = first + next;
    if next.len() == 0 {
        assert(all =~= first);
    } else {
        let init = next.drop_last();
        lemma_questions_on(stats, kept, then_kept, first, init);
        assert(all.drop_last() =~= first + init);
        assert(all.last() == next.last());
        lemma_joined(first, init, next.last());
    }
}

/// A step has one outcome.
pub proof fn lemma_one_step<T: TileProvider>(
    inner: &T,
    mask: u64,
    fly: bool,
    x: u16,
    y: u16,
    z: i8,
    h: Heading,
    r: Option<i8>,
)
    requires
        flat_step(inner, mask, fly, x, y, z, h, r),
    ensures
        forall|q: Option<i8>| #[trigger] flat_step(inner, mask, fly, x, y, z, h, q) <==> q == r,
{
    let source = inner.flat_stack(x, y);
    let dest = inner.flat_stack(stepped(x, h.dx()), stepped(y, h.dy())).push(TileShape::cap_spec());
    let n = source.len() as int;
    let g = gait(z, fall_limit(source, z, n), climb_from(reach_limit(source, z, n)), mask, fly);
    assert forall|q: Option<i8>| #[trigger] flat_step(inner, mask, fly, x, y, z, h, q) implies q
        == r by {
        lemma_one_height(dest, g, q, r);
    }
}

/// Law: each question is counted once, as a hit where the block was there and as a miss where
/// it had to be fetched; as many blocks are fetched as there are misses.
pub proof fn questions_are_counted(stats: CacheStats, kept: Set<u32>, keys: Seq<u32>)
    requires
        stats.hits + keys.len() <= u64::MAX,
        stats.misses + keys.len() <= u64::MAX,
        stats.blocks_loaded + keys.len() <= u64::MAX,
    ensures
        ({
            let s = after_questions(stats, kept, keys);
            &&& s.hits >= stats.hits
            &&& s.misses >= stats.misses
            &&& (s.hits - stats.hits) + (s.misses - stats.misses) == keys.len()
            &&& s.blocks_loaded - stats.blocks_loaded == s.misses - stats.misses
            &&& (forall|i: int| 0 <= i < keys.len() ==> kept.contains(#[trigger] keys[i]))
                ==> s.misses == stats.misses
        }),
    decreases keys.len(),
{
    if keys.len() > 0 {
        questions_are_counted(stats, kept, keys.drop_last());
        assert(keys[keys.len() - 1] == keys.last());
        if forall|i: int| 0 <= i < keys.len() ==> kept.contains(#[trigger] keys[i]) {
            assert forall|i: int| 0 <= i < keys.drop_last().len() implies kept.contains(
                #[trigger] keys.drop_last()[i],
            ) by {
                assert(keys[i] == keys.drop_last()[i]);
            }
        }
    }
}

/// Law: a block that is asked for the first time is fetched, and one that was asked for before
/// is not fetched again.
pub proof fn blocks_are_fetched_once(stats: CacheStats, kept: Set<u32>, k: u32)
    requires
        stats.hits < u64::MAX,
        stats.misses < u64::MAX,
        stats.blocks_loaded < u64::MAX,
        !kept.contains(k),
    ensures
        after_questions(stats, kept, seq![k]).misses == stats.misses + 1,
        after_questions(stats, kept, seq![k]).hits == stats.hits,
        after_questions(stats, kept, seq![k, k]).misses == stats.misses + 1,
        after_questions(stats, kept, seq![k, k]).hits == stats.hits + 1,
{
    reveal_with_fuel(after_questions, 3);
    let one = seq![k];
    let two = seq![k, k];
    assert(one.drop_last() =~= Seq::<u32>::empty());
    assert(two.drop_last() =~= one);
    assert(one[0] == k);
}

} // verus!

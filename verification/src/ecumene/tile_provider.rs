//! Sources of tile stacks.

use vstd::prelude::*;

use super::tile_block::TileBlock;
use crate::coords::{BlockKey, Heading};
use crate::vessel::tile_shape::TileShape;

verus! {

/// Order of a stack: by base, then by top.
pub open spec fn below(a: TileShape, b: TileShape) -> bool {
    a.base() < b.base() || (a.base() == b.base() && a.top() <= b.top())
}

/// Whether a stack is ordered from bottom to top.
pub open spec fn stack_sorted(s: Seq<TileShape>) -> bool {
    forall|i: int, j: int| 0 <= i <= j < s.len() ==> below(#[trigger] s[i], #[trigger] s[j])
}

/// The stack with a shape put above all that are not above it.
pub open spec fn insert_shape(s: Seq<TileShape>, t: TileShape) -> Seq<TileShape>
    decreases s.len(),
{
    if s.len() == 0 {
        seq![t]
    } else if below(s.last(), t) {
        s.push(t)
    } else {
        insert_shape(s.drop_last(), t).push(s.last())
    }
}

/// The shapes from bottom to top; those of equal heights in the order given.
pub open spec fn sorted_stack(s: Seq<TileShape>) -> Seq<TileShape>
    decreases s.len(),
{
    if s.len() == 0 {
        Seq::empty()
    } else {
        insert_shape(sorted_stack(s.drop_last()), s.last())
    }
}

proof fn lemma_insert_sorted(s: Seq<TileShape>, t: TileShape)
    requires
        stack_sorted(s),
    ensures
        stack_sorted(insert_shape(s, t)),
        insert_shape(s, t).len() == s.len() + 1,
        insert_shape(s, t).to_multiset() == s.to_multiset().insert(t),
        forall|i: int|
            0 <= i < insert_shape(s, t).len() ==> #[trigger] insert_shape(s, t)[i] == t
                || s.contains(insert_shape(s, t)[i]),
    decreases s.len(),
{
    broadcast use vstd::seq_lib::group_to_multiset_ensures;

    if s.len() == 0 {
        assert(seq![t] =~= s.push(t));
    } else if below(s.last(), t) {
        let r = s.push(t);
        assert forall|i: int, j: int| 0 <= i <= j < r.len() implies below(
            #[trigger] r[i],
            #[trigger] r[j],
        ) by {
            if i < s.len() && j == s.len() {
                assert(below(s[i], s[s.len() - 1]));
            }
        }
    } else {
        let init = s.drop_last();
        let r0 = insert_shape(init, t);
        assert(stack_sorted(init));
        lemma_insert_sorted(init, t);
        let r = r0.push(s.last());
        assert(init.push(s.last()) =~= s);
        assert forall|i: int| 0 <= i < r0.len() implies below(#[trigger] r0[i], s.last()) by {
            if r0[i] != t {
                assert(init.contains(r0[i]));
                let k = choose|k: int| 0 <= k < init.len() && init[k] == r0[i];
                assert(below(s[k], s[s.len() - 1]));
            }
        }
        assert forall|i: int, j: int| 0 <= i <= j < r.len() implies below(
            #[trigger] r[i],
            #[trigger] r[j],
        ) by {
            if j < r0.len() {
                assert(below(r0[i], r0[j]));
            } else if i < r0.len() {
                assert(below(r0[i], s.last()));
            }
        }
        assert(r.to_multiset() =~= s.to_multiset().insert(t));
        assert forall|i: int| 0 <= i < r.len() implies #[trigger] r[i] == t || s.contains(r[i]) by {
            if i < r0.len() {
                if r0[i] != t {
                    let k = choose|k: int| 0 <= k < init.len() && init[k] == r0[i];
                    assert(s[k] == r[i]);
                }
            } else {
                assert(s[s.len() - 1] == r[i]);
            }
        }
    }
}

/// Law: sorting orders a stack from bottom to top and keeps its shapes.
pub proof fn sorted_stack_is_sorted(s: Seq<TileShape>)
    ensures
        stack_sorted(sorted_stack(s)),
        sorted_stack(s).to_multiset() == s.to_multiset(),
        sorted_stack(s).len() == s.len(),
    decreases s.len(),
{
    broadcast use vstd::seq_lib::group_to_multiset_ensures;

    if s.len() > 0 {
        sorted_stack_is_sorted(s.drop_last());
        lemma_insert_sorted(sorted_stack(s.drop_last()), s.last());
        assert(s =~= s.drop_last().push(s.last()));
    } else {
        assert(sorted_stack(s) =~= s);
    }
}

/// Law: a stack that is in order stays as it is.
pub proof fn sorting_keeps_order(s: Seq<TileShape>)
    requires
        stack_sorted(s),
    ensures
        sorted_stack(s) == s,
    decreases s.len(),
{
    if s.len() > 0 {
        let init = s.drop_last();
        assert(stack_sorted(init));
        sorting_keeps_order(init);
        assert(init.push(s.last()) =~= s);
        if init.len() > 0 {
            assert(below(s[s.len() - 2], s[s.len() - 1]));
            assert(init.last() == s[s.len() - 2]);
        } else {
            assert(seq![s.last()] =~= s);
        }
    } else {
        assert(sorted_stack(s) =~= s);
    }
}

proof fn lemma_insert_at(s: Seq<TileShape>, t: TileShape, p: int)
    requires
        0 <= p <= s.len(),
        p > 0 ==> below(s[p - 1], t),
        forall|i: int| p <= i < s.len() ==> !below(#[trigger] s[i], t),
    ensures
        insert_shape(s, t) == s.insert(p, t),
    decreases s.len(),
{
    if s.len() == 0 {
        assert(s.insert(p, t) =~= seq![t]);
    } else if p == s.len() {
        assert(s.insert(p, t) =~= s.push(t));
    } else {
        assert(!below(s[s.len() - 1], t));
        let init = s.drop_last();
        assert forall|i: int| p <= i < init.len() implies !below(#[trigger] init[i], t) by {
            assert(init[i] == s[i]);
        }
        lemma_insert_at(init, t, p);
        assert(s.insert(p, t) =~= init.insert(p, t).push(s.last()));
    }
}

fn is_below(a: &TileShape, b: &TileShape) -> (r: bool)
    ensures
        r == below(*a, *b),
{
    a.z_base() < b.z_base() || (a.z_base() == b.z_base() && a.z_top() <= b.z_top())
}

/// Sorts a stack from bottom to top; shapes of equal heights keep their order.
pub fn sort_stack(shapes: &mut Vec<TileShape>)
    ensures
        final(shapes)@ == sorted_stack(old(shapes)@),
{
    let ghost all = shapes@;
    let mut out: Vec<TileShape> = Vec::new();
    let mut i: usize = 0;
    assert(all.take(0) =~= Seq::<TileShape>::empty());
    while i < shapes.len()
        invariant
            i <= shapes@.len(),
            shapes@ == all,
            out@ == sorted_stack(all.take(i as int)),
            out@.len() == i,
        decreases shapes@.len() - i,
    {
        let t = shapes[i];
        let mut p: usize = out.len();
        while p > 0 && !is_below(&out[p - 1], &t)
            invariant
                p <= out@.len(),
                forall|k: int| p <= k < out@.len() ==> !below(#[trigger] out@[k], t),
            decreases p,
        {
            p = p - 1;
        }
        proof {
            lemma_insert_at(out@, t, p as int);
            assert(all.take(i + 1).drop_last() =~= all.take(i as int));
            sorted_stack_is_sorted(all.take(i as int));
        }
        out.insert(p, t);
        i += 1;
    }
    assert(all.take(i as int) =~= all);
    *shapes = out;
}

/// Adds shapes to the end of a stack.
pub fn add_shapes(stack: &mut Vec<TileShape>, more: &Vec<TileShape>)
    ensures
        final(stack)@ == old(stack)@ + more@,
{
    let ghost start = stack@;
    let mut i: usize = 0;
    assert(stack@ =~= start + more@.take(0));
    while i < more.len()
        invariant
            i <= more@.len(),
            stack@ == start + more@.take(i as int),
        decreases more@.len() - i,
    {
        stack.push(more[i]);
        assert(stack@ =~= start + more@.take(i + 1));
        i += 1;
    }
    assert(more@.take(i as int) =~= more@);
}

/// A source of tile shapes: static map files, moving things, or both.
pub trait TileProvider {
    /// The stack of tile `(x, y)` as one who approaches along `direction` meets it.
    spec fn stack(&self, x: u16, y: u16, direction: Heading) -> Seq<TileShape>;

    /// The stack of tile `(x, y)` whatever the approach.
    spec fn flat_stack(&self, x: u16, y: u16) -> Seq<TileShape>;

    /// Whether a multi-object occupies tile `(x, y)`.
    spec fn multi_on(&self, x: u16, y: u16) -> bool;

    /// Whether the source can be asked about tile `(x, y)`.
    spec fn covers(&self, x: u16, y: u16) -> bool;

    /// Whether the source can be asked about a block.
    spec fn covers_block(&self, block: BlockKey) -> bool;

    /// All shapes of tile `(x, y)` from bottom to top. The height at which one
    /// stands on sloped ground depends on `direction`.
    fn query_tile_stack(&self, x: u16, y: u16, direction: Heading) -> (s: Vec<TileShape>)
        requires
            self.covers(x, y),
        ensures
            s@ == self.stack(x, y, direction),
            stack_sorted(s@),
    ;

    /// Whether a multi-object occupies tile `(x, y)`.
    fn is_multi_on(&self, x: u16, y: u16) -> (b: bool)
        requires
            self.covers_block(BlockKey::of_tile(x, y)),
        ensures
            b == self.multi_on(x, y),
    ;

    /// The stacks of all 64 tiles of a block, whatever the approach.
    fn query_block(&self, block: BlockKey) -> (b: TileBlock)
        requires
            block.on_map(),
            self.covers_block(block),
        ensures
            b.wf(),
            b.block_key == block,
            forall|i: int|
                0 <= i < 64 ==> (#[trigger] b@[i]) == self.flat_stack(
                    (block.bx * 8 + i % 8) as u16,
                    (block.by * 8 + i / 8) as u16,
                ),
    ;
}

/// The stacks of a block, gathered tile by tile with a northward approach. A
/// source that keeps nothing per block answers block queries with it.
pub fn query_block_tilewise<T: TileProvider>(provider: &T, block: BlockKey) -> (b: TileBlock)
    requires
        block.on_map(),
        forall|ox: int, oy: int|
            0 <= ox < 8 && 0 <= oy < 8 ==> #[trigger] provider.covers(
                (block.bx * 8 + ox) as u16,
                (block.by * 8 + oy) as u16,
            ),
    ensures
        b.wf(),
        b.block_key == block,
        forall|i: int|
            0 <= i < 64 ==> (#[trigger] b@[i]) == provider.stack(
                (block.bx * 8 + i % 8) as u16,
                (block.by * 8 + i / 8) as u16,
                Heading::North,
            ),
{
    let (x0, y0) = block.origin();
    let mut tb = TileBlock::empty(block);
    let mut n: u8 = 0;
    while n < 64
        invariant
            block.on_map(),
            x0 == block.bx * 8,
            y0 == block.by * 8,
            n <= 64,
            tb.wf(),
            tb.block_key == block,
            forall|ox: int, oy: int|
                0 <= ox < 8 && 0 <= oy < 8 ==> #[trigger] provider.covers(
                    (block.bx * 8 + ox) as u16,
                    (block.by * 8 + oy) as u16,
                ),
            forall|i: int|
                0 <= i < n ==> (#[trigger] tb@[i]) == provider.stack(
                    (block.bx * 8 + i % 8) as u16,
                    (block.by * 8 + i / 8) as u16,
                    Heading::North,
                ),
        decreases 64 - n,
    {
        let ox: u8 = n % 8;
        let oy: u8 = n / 8;
        let x: u16 = x0 + ox as u16;
        let y: u16 = y0 + oy as u16;
        assert(provider.covers((block.bx * 8 + ox) as u16, (block.by * 8 + oy) as u16));
        let stack = provider.query_tile_stack(x, y, Heading::North);
        *tb.tile_stack_mut(ox, oy) = stack;
        assert(oy * 8 + ox == n);
        n += 1;
    }
    tb
}

} // verus!

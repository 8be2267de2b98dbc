//! Tile stacks of all 64 tiles of a map block.

use vstd::prelude::*;

use crate::coords::BlockKey;
use crate::vessel::tile_shape::TileShape;

verus! {

/// Sum of the lengths of the first `n` stacks.
pub open spec fn stack_total(stacks: Seq<Seq<TileShape>>, n: int) -> nat
    decreases n,
{
    if n <= 0 {
        0
    } else {
        stack_total(stacks, n - 1) + stacks[n - 1].len()
    }
}

/// Tile stacks of an 8 by 8 block. The stack of local tile `(ox, oy)` has index
/// `oy * 8 + ox`.
pub struct TileBlock {
    /// Which block this data belongs to.
    pub block_key: BlockKey,
    /// The 64 stacks, row by row.
    pub stacks: Vec<Vec<TileShape>>,
}

impl View for TileBlock {
    type V = Seq<Seq<TileShape>>;

    open spec fn view(&self) -> Seq<Seq<TileShape>> {
        Seq::new(self.stacks@.len(), |i: int| self.stacks@[i]@)
    }
}

impl TileBlock {
    /// A block holds 64 stacks.
    pub open spec fn wf(&self) -> bool {
        self@.len() == 64
    }

    pub open spec fn at(&self, ox: int, oy: int) -> Seq<TileShape> {
        self@[oy * 8 + ox]
    }

    /// A block whose stacks are all empty.
    pub fn empty(block_key: BlockKey) -> (b: TileBlock)
        ensures
            b.wf(),
            b.block_key == block_key,
            forall|i: int| 0 <= i < 64 ==> (#[trigger] b@[i]) == Seq::<TileShape>::empty(),
    {
        let mut stacks: Vec<Vec<TileShape>> = Vec::new();
        let mut n: usize = 0;
        while n < 64
            invariant
                n <= 64,
                stacks@.len() == n,
                forall|i: int| 0 <= i < n ==> (#[trigger] stacks@[i])@ == Seq::<TileShape>::empty(),
            decreases 64 - n,
        {
            stacks.push(Vec::new());
            n += 1;
        }
        TileBlock { block_key, stacks }
    }

    /// The tile stack at local offset `(ox, oy)`.
    pub fn tile_stack(&self, ox: u8, oy: u8) -> (s: &[TileShape])
        requires
            self.wf(),
            ox < 8,
            oy < 8,
        ensures
            s@ == self.at(ox as int, oy as int),
    {
        self.stacks[oy as usize * 8 + ox as usize].as_slice()
    }

    /// Access to the tile stack at local offset `(ox, oy)`.
    pub fn tile_stack_mut(&mut self, ox: u8, oy: u8) -> (s: &mut Vec<TileShape>)
        requires
            old(self).wf(),
            ox < 8,
            oy < 8,
        ensures
            s@ == old(self).at(ox as int, oy as int),
            final(self)@ == old(self)@.update(oy * 8 + ox, final(s)@),
            final(self).block_key == old(self).block_key,
    {
        &mut self.stacks[oy as usize * 8 + ox as usize]
    }

    /// All cells as `(ox, oy, stack)`, row by row.
    pub fn iter(&self) -> (cells: Vec<(u8, u8, &[TileShape])>)
        requires
            self.wf(),
        ensures
            cells@.len() == 64,
            forall|i: int|
                0 <= i < 64 ==> {
                    &&& (#[trigger] cells@[i]).0 == i % 8
                    &&& cells@[i].1 == i / 8
                    &&& cells@[i].2@ == self@[i]
                },
    {
        let mut cells: Vec<(u8, u8, &[TileShape])> = Vec::new();
        let mut n: u8 = 0;
        while n < 64
            invariant
                self.wf(),
                n <= 64,
                cells@.len() == n,
                forall|i: int|
                    0 <= i < n ==> {
                        &&& (#[trigger] cells@[i]).0 == i % 8
                        &&& cells@[i].1 == i / 8
                        &&& cells@[i].2@ == self@[i]
                    },
            decreases 64 - n,
        {
            cells.push((n % 8, n / 8, self.stacks[n as usize].as_slice()));
            n += 1;
        }
        cells
    }

    /// Total number of shapes over all 64 stacks.
    pub fn total_shapes(&self) -> (n: usize)
        requires
            self.wf(),
            stack_total(self@, 64) <= usize::MAX,
        ensures
            n == stack_total(self@, 64),
    {
        let mut total: usize = 0;
        let mut k: usize = 0;
        while k < 64
            invariant
                self.wf(),
                k <= 64,
                stack_total(self@, 64) <= usize::MAX,
                total == stack_total(self@, k as int),
            decreases 64 - k,
        {
            proof {
                lemma_stack_total_grows(self@, k + 1, 64);
            }
            total = total + self.stacks[k].len();
            k += 1;
        }
        total
    }
}

proof fn lemma_stack_total_grows(stacks: Seq<Seq<TileShape>>, a: int, b: int)
    requires
        0 <= a <= b,
    ensures
        stack_total(stacks, a) <= stack_total(stacks, b),
    decreases b - a,
{
    if a < b {
        lemma_stack_total_grows(stacks, a, b - 1);
    }
}

} // verus!

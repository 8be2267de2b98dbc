//! Obstacles that come and go.

use std::collections::HashMap;

use vstd::prelude::*;

use super::tile_provider::add_shapes;
use crate::collections::{in_order, map_keys_in_order};
use crate::coords::BlockKey;
use crate::vessel::tile_shape::TileShape;

verus! {

broadcast use vstd::std_specs::hash::group_hash_axioms;

/// The shapes of a tile by the tag of who put them there.
pub type Tagged = HashMap<u64, Vec<TileShape>>;

/// What the shapes of a tile amount to.
pub open spec fn by_tag(m: Map<u64, Vec<TileShape>>) -> Map<u64, Seq<TileShape>> {
    m.map_values(|v: Vec<TileShape>| v@)
}

/// The shapes of the listed tags, one after the other.
pub open spec fn shapes_of_tags(m: Map<u64, Seq<TileShape>>, tags: Seq<u64>) -> Seq<TileShape>
    decreases tags.len(),
{
    if tags.len() == 0 {
        Seq::empty()
    } else {
        shapes_of_tags(m, tags.drop_last()) + m[tags.last()]
    }
}

/// All shapes of a tile, by ascending tag.
pub open spec fn all_shapes(m: Map<u64, Seq<TileShape>>) -> Seq<TileShape> {
    shapes_of_tags(m, in_order(m.dom()))
}

fn push_all(by: &Tagged, out: &mut Vec<TileShape>)
    ensures
        final(out)@ == old(out)@ + all_shapes(by_tag(by@)),
{
    let ghost start = out@;
    let ghost m = by_tag(by@);
    let tags = map_keys_in_order(by);
    assert(m.dom() =~= by@.dom());
    let mut i: usize = 0;
    assert(tags@.take(0) =~= Seq::<u64>::empty());
    assert(out@ =~= start + shapes_of_tags(m, tags@.take(0)));
    while i < tags.len()
        invariant
            i <= tags@.len(),
            m == by_tag(by@),
            forall|k: u64| #[trigger] tags@.contains(k) <==> by@.dom().contains(k),
            out@ == start + shapes_of_tags(m, tags@.take(i as int)),
        decreases tags@.len() - i,
    {
        let t: u64 = tags[i];
        assert(tags@.contains(t));
        assert(tags@.take(i + 1).drop_last() =~= tags@.take(i as int));
        match by.get(&t) {
            Some(list) => {
                add_shapes(out, list);
            },
            None => {},
        }
        assert(out@ =~= start + shapes_of_tags(m, tags@.take(i + 1)));
        i += 1;
    }
    assert(tags@.take(i as int) =~= tags@);
}

/// The obstacles of a map block, by local tile index `oy * 8 + ox`.
#[derive(Debug)]
pub struct PathBlock {
    pub tiles: HashMap<u8, HashMap<u64, Vec<TileShape>>>,
}

impl PathBlock {
    /// The obstacles of a tile.
    pub open spec fn at(&self, local_idx: u8) -> Map<u64, Seq<TileShape>> {
        if self.tiles@.contains_key(local_idx) {
            by_tag(self.tiles@[local_idx]@)
        } else {
            Map::empty()
        }
    }

    /// Whether only tiles with obstacles are kept.
    pub open spec fn tidy(&self) -> bool {
        forall|i: u8| #[trigger]
            self.tiles@.contains_key(i) ==> self.tiles@[i]@.dom().len() > 0
    }

    fn new() -> (b: PathBlock)
        ensures
            b.tiles@ == Map::<u8, HashMap<u64, Vec<TileShape>>>::empty(),
    {
        PathBlock { tiles: HashMap::new() }
    }

    /// Adds the shapes of a tile to `out`, by ascending tag.
    pub fn collect_shapes_at(&self, local_idx: u8, out: &mut Vec<TileShape>)
        ensures
            final(out)@ == old(out)@ + all_shapes(self.at(local_idx)),
    {
        match self.tiles.get(&local_idx) {
            Some(by) => {
                push_all(by, out);
            },
            None => {
                proof {
                    lemma_nothing_there();
                    assert(out@ + all_shapes(Map::<u64, Seq<TileShape>>::empty()) =~= out@);
                }
            },
        }
    }
}

pub proof fn lemma_nothing_there()
    ensures
        all_shapes(Map::<u64, Seq<TileShape>>::empty()) == Seq::<TileShape>::empty(),
{
    let none = Map::<u64, Seq<TileShape>>::empty();
    let s = in_order(none.dom());
    assert(crate::collections::lists_up(Seq::<u64>::empty(), none.dom()));
    if s.len() > 0 {
        assert(s.contains(s[0]));
    }
    assert(s =~= Seq::<u64>::empty());
}

/// Index of a tile within its block.
pub open spec fn local_index(x: u16, y: u16) -> u8 {
    ((y % 8) * 8 + x % 8) as u8
}

fn local_of(x: u16, y: u16) -> (i: u8)
    ensures
        i == local_index(x, y),
        i < 64,
{
    ((y % 8) * 8 + x % 8) as u8
}

proof fn lemma_tile_key(x: u16, y: u16, p: u16, q: u16)
    ensures
        BlockKey::of_tile(x, y).packed() == BlockKey::of_tile(p, q).packed() && local_index(x, y)
            == local_index(p, q) <==> x == p && y == q,
{
}

/// The obstacles of a map, by block.
#[derive(Debug)]
pub struct CollisionSnapshot {
    pub active_blocks: HashMap<u32, PathBlock>,
}

impl CollisionSnapshot {
    /// The obstacles of tile `(x, y)`.
    pub open spec fn at(&self, x: u16, y: u16) -> Map<u64, Seq<TileShape>> {
        let key = BlockKey::of_tile(x, y).packed();
        if self.active_blocks@.contains_key(key) {
            self.active_blocks@[key].at(local_index(x, y))
        } else {
            Map::empty()
        }
    }

    /// Whether only blocks and tiles with obstacles are kept.
    pub open spec fn tidy(&self) -> bool {
        forall|k: u32| #[trigger]
            self.active_blocks@.contains_key(k) ==> self.active_blocks@[k].tidy()
                && self.active_blocks@[k].tiles@.dom().len() > 0
    }

    /// No obstacles.
    pub fn new() -> (c: CollisionSnapshot)
        ensures
            c.tidy(),
            c.active_blocks@ == Map::<u32, PathBlock>::empty(),
            forall|x: u16, y: u16|
                (#[trigger] c.at(x, y)) == Map::<u64, Seq<TileShape>>::empty(),
    {
        CollisionSnapshot { active_blocks: HashMap::new() }
    }

    /// Adds a shape to what `tag` has put on tile `(x, y)`.
    pub fn add_shape(&mut self, x: u16, y: u16, tag: u64, shape: TileShape)
        ensures
            old(self).tidy() ==> final(self).tidy(),
            forall|p: u16, q: u16| #[trigger]
                final(self).at(p, q) == if p == x && q == y {
                    old(self).at(x, y).insert(
                        tag,
                        (if old(self).at(x, y).contains_key(tag) {
                            old(self).at(x, y)[tag]
                        } else {
                            Seq::empty()
                        }).push(shape),
                    )
                } else {
                    old(self).at(p, q)
                },
    {
        let ghost before = *self;
        let key: u32 = BlockKey::from_tile(x, y).pack();
        let idx: u8 = local_of(x, y);
        let mut block: PathBlock = match self.active_blocks.remove(&key) {
            Some(b) => b,
            None => PathBlock::new(),
        };
        let ghost block0 = block;
        let mut by: Tagged = match block.tiles.remove(&idx) {
            Some(b) => b,
            None => HashMap::new(),
        };
        let ghost by0 = by@;
        let mut list: Vec<TileShape> = match by.remove(&tag) {
            Some(l) => l,
            None => Vec::new(),
        };
        let ghost list0 = list@;
        list.push(shape);
        by.insert(tag, list);
        let ghost by1 = by@;
        block.tiles.insert(idx, by);
        let ghost block1 = block;
        self.active_blocks.insert(key, block);
        proof {
            assert(before.at(x, y) == by_tag(by0)) by {
                if !before.active_blocks@.contains_key(key) || !block0.tiles@.contains_key(idx) {
                    assert(by_tag(by0) =~= Map::<u64, Seq<TileShape>>::empty());
                }
            }
            assert(by_tag(by1) =~= by_tag(by0).insert(tag, list0.push(shape)));
            assert forall|p: u16, q: u16| #[trigger] self.at(p, q) == if p == x && q == y {
                by_tag(by1)
            } else {
                before.at(p, q)
            } by {
                lemma_tile_key(x, y, p, q);
                let k2 = BlockKey::of_tile(p, q).packed();
                if k2 == key && !before.active_blocks@.contains_key(key) && local_index(p, q)
                    != idx {
                    assert(!block1.tiles@.contains_key(local_index(p, q)));
                }
            }
            if before.tidy() {
                assert(by1.dom().contains(tag));
                assert(by1.dom().len() > 0) by {
                    if by1.dom().len() == 0 {
                        assert(by1.dom() =~= Set::<u64>::empty());
                    }
                }
                assert(block1.tiles@.dom().contains(idx));
                assert(block1.tiles@.dom().len() > 0) by {
                    if block1.tiles@.dom().len() == 0 {
                        assert(block1.tiles@.dom() =~= Set::<u8>::empty());
                    }
                }
                assert(block1.tidy());
            }
        }
    }

    /// Removes all that `tag` has put on tile `(x, y)`. What others have put
    /// there stays.
    pub fn remove_entity_shapes(&mut self, x: u16, y: u16, tag: u64)
        ensures
            old(self).tidy() ==> final(self).tidy(),
            forall|p: u16, q: u16| #[trigger]
                final(self).at(p, q) == if p == x && q == y {
                    old(self).at(x, y).remove(tag)
                } else {
                    old(self).at(p, q)
                },
    {
        let ghost before = *self;
        let ghost none = Map::<u64, Seq<TileShape>>::empty();
        let key: u32 = BlockKey::from_tile(x, y).pack();
        let idx: u8 = local_of(x, y);
        let taken = self.active_blocks.remove(&key);
        match taken {
            None => {
                proof {
                    assert(none.remove(tag) =~= none);
                    assert(self.active_blocks@ =~= before.active_blocks@);
                }
            },
            Some(b) => {
                let mut block = b;
                let ghost block0 = block;
                let found = block.tiles.remove(&idx);
                let ghost mut by1: Map<u64, Vec<TileShape>> = Map::empty();
                match found {
                    None => {
                        proof {
                            assert(none.remove(tag) =~= none);
                            assert(block.tiles@ =~= block0.tiles@);
                        }
                    },
                    Some(t) => {
                        let mut by = t;
                        let ghost by0 = by@;
                        by.remove(&tag);
                        proof {
                            by1 = by@;
                            assert(by_tag(by1) =~= by_tag(by0).remove(tag));
                        }
                        if by.len() > 0 {
                            block.tiles.insert(idx, by);
                        } else {
                            proof {
                                assert(by1.dom() =~= Set::<u64>::empty());
                                assert(by_tag(by1) =~= none);
                            }
                        }
                    },
                }
                let ghost block1 = block;
                let gone = block.tiles.len() == 0;
                if !gone {
                    self.active_blocks.insert(key, block);
                }
                proof {
                    if gone {
                        assert(block1.tiles@.dom() =~= Set::<u8>::empty());
                    }
                    assert forall|i: u8| #[trigger] block1.at(i) == if i == idx {
                        block0.at(idx).remove(tag)
                    } else {
                        block0.at(i)
                    } by {}
                    assert forall|p: u16, q: u16| #[trigger] self.at(p, q) == if p == x && q == y {
                        before.at(x, y).remove(tag)
                    } else {
                        before.at(p, q)
                    } by {
                        lemma_tile_key(x, y, p, q);
                        let k2 = BlockKey::of_tile(p, q).packed();
                        if k2 == key {
                            let i2 = local_index(p, q);
                            assert(block1.at(i2) == if i2 == idx {
                                block0.at(idx).remove(tag)
                            } else {
                                block0.at(i2)
                            });
                            if gone {
                                assert(!block1.tiles@.dom().contains(i2));
                            }
                        }
                    }
                    if before.tidy() {
                        assert(block0.tidy());
                        assert(block1.tidy());
                    }
                }
            },
        }
    }

    /// All shapes of tile `(x, y)` by ascending tag, `None` where there is none.
    pub fn get_dynamic_shapes(&self, x: u16, y: u16) -> (r: Option<Vec<TileShape>>)
        ensures
            r is None <==> all_shapes(self.at(x, y)).len() == 0,
            r matches Some(v) ==> v@ == all_shapes(self.at(x, y)),
    {
        let key: u32 = BlockKey::from_tile(x, y).pack();
        let mut out: Vec<TileShape> = Vec::new();
        match self.active_blocks.get(&key) {
            Some(block) => {
                block.collect_shapes_at(local_of(x, y), &mut out);
            },
            None => {
                proof {
                    lemma_nothing_there();
                }
            },
        }
        assert(out@ =~= all_shapes(self.at(x, y)));
        if out.len() == 0 {
            None
        } else {
            Some(out)
        }
    }

    /// The obstacles of a block, if there are any.
    pub fn get_path_block(&self, block: BlockKey) -> (r: Option<&PathBlock>)
        ensures
            r is Some <==> self.active_blocks@.contains_key(block.packed()),
            r matches Some(b) ==> *b == self.active_blocks@[block.packed()],
    {
        self.active_blocks.get(&block.pack())
    }
}

impl Default for CollisionSnapshot {
    fn default() -> (c: CollisionSnapshot)
        ensures
            c.tidy(),
            c.active_blocks@ == Map::<u32, PathBlock>::empty(),
    {
        CollisionSnapshot::new()
    }
}

/// Law: what one entity put on a tile comes off again and leaves what others
/// have put there.
pub proof fn removal_undoes_adding(m: Map<u64, Seq<TileShape>>, tag: u64, s: Seq<TileShape>)
    requires
        !m.contains_key(tag),
    ensures
        m.insert(tag, s).remove(tag) == m,
{
    assert(m.insert(tag, s).remove(tag) =~= m);
}

} // verus!

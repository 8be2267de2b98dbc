//! Blocks of the map that a server has patched, per world.

use std::collections::HashMap;

use vstd::prelude::*;

use crate::vessel::static_data::{offsets_ok, pick_tiles, tiles_at, MapBlock, StaticTile};

verus! {

broadcast use vstd::std_specs::hash::group_hash_axioms;

/// Number of worlds.
pub const MAX_WORLDS: usize = 6;

/// Patched land blocks by block index.
#[derive(Debug)]
pub struct MapDiffData {
    pub blocks: HashMap<u64, MapBlock>,
}

impl MapDiffData {
    pub open spec fn wf(&self) -> bool {
        forall|i: u64| #[trigger] self.blocks@.contains_key(i) ==> self.blocks@[i].wf()
    }

    /// The patched block with this index.
    pub fn get(&self, index: u64) -> (r: Option<&MapBlock>)
        ensures
            r is Some <==> self.blocks@.contains_key(index),
            r matches Some(b) ==> *b == self.blocks@[index],
    {
        self.blocks.get(&index)
    }

    pub fn is_empty(&self) -> (b: bool)
        ensures
            b == (self.blocks@.dom().len() == 0),
    {
        self.blocks.len() == 0
    }
}

/// Patched static objects by block index.
#[derive(Debug)]
pub struct StaticDiffData {
    pub blocks: HashMap<u64, Vec<StaticTile>>,
}

impl StaticDiffData {
    pub open spec fn wf(&self) -> bool {
        forall|i: u64| #[trigger] self.blocks@.contains_key(i) ==> offsets_ok(self.blocks@[i]@)
    }

    /// The objects of the patched block with this index.
    pub fn get(&self, index: u64) -> (r: Option<&[StaticTile]>)
        ensures
            r is Some <==> self.blocks@.contains_key(index),
            r matches Some(s) ==> s@ == self.blocks@[index]@,
    {
        match self.blocks.get(&index) {
            Some(v) => Some(v.as_slice()),
            None => None,
        }
    }

    /// The objects at an offset of the patched block with this index.
    pub fn get_tile(&self, index: u64, ox: u8, oy: u8) -> (r: Option<Vec<StaticTile>>)
        ensures
            r is Some <==> self.blocks@.contains_key(index),
            r matches Some(v) ==> v@ == tiles_at(self.blocks@[index]@, ox as int, oy as int),
    {
        match self.blocks.get(&index) {
            Some(v) => Some(pick_tiles(v.as_slice(), ox, oy)),
            None => None,
        }
    }

    pub fn is_empty(&self) -> (b: bool)
        ensures
            b == (self.blocks@.dom().len() == 0),
    {
        self.blocks.len() == 0
    }
}

/// The patches of one session, a slot per world.
#[derive(Debug)]
pub struct DiffOverlay {
    pub map_diffs: Vec<Option<MapDiffData>>,
    pub static_diffs: Vec<Option<StaticDiffData>>,
}

/// What a load of patches brought: the data, or nothing where it failed.
pub type LoadedDiff = Option<(MapDiffData, StaticDiffData)>;

impl DiffOverlay {
    /// One slot per world, with the data in order.
    pub open spec fn wf(&self) -> bool {
        &&& self.map_diffs@.len() == MAX_WORLDS
        &&& self.static_diffs@.len() == MAX_WORLDS
        &&& forall|w: int|
            0 <= w < MAX_WORLDS && (#[trigger] self.map_diffs@[w]) is Some ==> (
            self.map_diffs@[w]->0).wf()
        &&& forall|w: int|
            0 <= w < MAX_WORLDS && (#[trigger] self.static_diffs@[w]) is Some ==> (
            self.static_diffs@[w]->0).wf()
    }

    /// The land patches of a world.
    pub open spec fn land(&self, world: u8) -> Option<MapDiffData> {
        if world < MAX_WORLDS {
            self.map_diffs@[world as int]
        } else {
            None
        }
    }

    /// The object patches of a world.
    pub open spec fn objects(&self, world: u8) -> Option<StaticDiffData> {
        if world < MAX_WORLDS {
            self.static_diffs@[world as int]
        } else {
            None
        }
    }

    /// An overlay without patches.
    pub fn new() -> (o: DiffOverlay)
        ensures
            o.wf(),
            forall|w: u8| (#[trigger] o.land(w)) is None,
            forall|w: u8| (#[trigger] o.objects(w)) is None,
    {
        let mut map_diffs: Vec<Option<MapDiffData>> = Vec::new();
        let mut static_diffs: Vec<Option<StaticDiffData>> = Vec::new();
        let mut i: usize = 0;
        while i < MAX_WORLDS
            invariant
                i <= MAX_WORLDS,
                map_diffs@.len() == i,
                static_diffs@.len() == i,
                forall|w: int| 0 <= w < i ==> (#[trigger] map_diffs@[w]) is None,
                forall|w: int| 0 <= w < i ==> (#[trigger] static_diffs@[w]) is None,
            decreases MAX_WORLDS - i,
        {
            map_diffs.push(None);
            static_diffs.push(None);
            i += 1;
        }
        DiffOverlay { map_diffs, static_diffs }
    }

    /// Replaces the patches of a world. Empty data is no patch; a world that
    /// there is not is passed over.
    pub fn apply(&mut self, world: u8, map_diff: MapDiffData, static_diff: StaticDiffData)
        requires
            old(self).wf(),
            map_diff.wf(),
            static_diff.wf(),
        ensures
            final(self).wf(),
            forall|w: u8| #[trigger]
                final(self).land(w) == if w == world && world < MAX_WORLDS {
                    if map_diff.blocks@.dom().len() == 0 {
                        None
                    } else {
                        Some(map_diff)
                    }
                } else {
                    old(self).land(w)
                },
            forall|w: u8| #[trigger]
                final(self).objects(w) == if w == world && world < MAX_WORLDS {
                    if static_diff.blocks@.dom().len() == 0 {
                        None
                    } else {
                        Some(static_diff)
                    }
                } else {
                    old(self).objects(w)
                },
    {
        let idx: usize = world as usize;
        if idx >= MAX_WORLDS {
            return;
        }
        let m = if map_diff.is_empty() {
            None
        } else {
            Some(map_diff)
        };
        let s = if static_diff.is_empty() {
            None
        } else {
            Some(static_diff)
        };
        self.map_diffs.set(idx, m);
        self.static_diffs.set(idx, s);
    }

    /// Removes the patches of a world.
    pub fn clear_world(&mut self, world: u8)
        requires
            old(self).wf(),
        ensures
            final(self).wf(),
            forall|w: u8| #[trigger]
                final(self).land(w) == if w == world {
                    None
                } else {
                    old(self).land(w)
                },
            forall|w: u8| #[trigger]
                final(self).objects(w) == if w == world {
                    None
                } else {
                    old(self).objects(w)
                },
    {
        let idx: usize = world as usize;
        if idx < MAX_WORLDS {
            self.map_diffs.set(idx, None);
            self.static_diffs.set(idx, None);
        }
    }

    /// What a list of patch counts and a loaded result make of one world: a
    /// world without patches and one whose load failed are cleared, the others
    /// get what was loaded.
    pub fn apply_loaded(
        &mut self,
        world: u8,
        map_patches: u32,
        static_patches: u32,
        loaded: LoadedDiff,
    )
        requires
            old(self).wf(),
            loaded matches Some(d) ==> d.0.wf() && d.1.wf(),
        ensures
            final(self).wf(),
            ({
                let none = (map_patches == 0 && static_patches == 0) || loaded is None;
                &&& forall|w: u8| #[trigger]
                    final(self).land(w) == if w != world {
                        old(self).land(w)
                    } else if none || (loaded->0).0.blocks@.dom().len() == 0 || world >= MAX_WORLDS {
                        None
                    } else {
                        Some((loaded->0).0)
                    }
                &&& forall|w: u8| #[trigger]
                    final(self).objects(w) == if w != world {
                        old(self).objects(w)
                    } else if none || (loaded->0).1.blocks@.dom().len() == 0 || world >= MAX_WORLDS {
                        None
                    } else {
                        Some((loaded->0).1)
                    }
            }),
    {
        if map_patches == 0 && static_patches == 0 {
            self.clear_world(world);
            return;
        }
        match loaded {
            Some((m, s)) => {
                self.apply(world, m, s);
            },
            None => {
                self.clear_world(world);
            },
        }
    }

    /// Takes over the patches of all worlds that a server announced: `entries`
    /// counts the land and object patches per world, `loaded` holds what was
    /// read of them, world by world.
    pub fn load_and_apply(&mut self, entries: &Vec<(u32, u32)>, loaded: Vec<LoadedDiff>)
        requires
            old(self).wf(),
            entries@.len() == loaded@.len(),
            forall|i: int|
                0 <= i < loaded@.len() ==> ((#[trigger] loaded@[i]) matches Some(d) ==> d.0.wf()
                    && d.1.wf()),
        ensures
            final(self).wf(),
            forall|w: u8| #[trigger]
                final(self).land(w) == land_after(
                    entries@,
                    loaded@,
                    entries@.len() as int,
                    w,
                    old(self).land(w),
                ),
            forall|w: u8| #[trigger]
                final(self).objects(w) == objects_after(
                    entries@,
                    loaded@,
                    entries@.len() as int,
                    w,
                    old(self).objects(w),
                ),
    {
        let ghost all = loaded@;
        let n: usize = loaded.len();
        let mut rest = loaded;
        let mut later: Vec<LoadedDiff> = Vec::new();
        while rest.len() > 0
            invariant
                rest@.len() + later@.len() == all.len(),
                rest@ == all.take(rest@.len() as int),
                forall|j: int|
                    0 <= j < later@.len() ==> #[trigger] later@[j] == all[all.len() - 1 - j],
            decreases rest@.len(),
        {
            match rest.pop() {
                Some(d) => {
                    later.push(d);
                    assert(rest@ =~= all.take(rest@.len() as int));
                },
                None => {},
            }
        }
        let mut i: usize = 0;
        while i < n
            invariant
                self.wf(),
                n == entries@.len(),
                n == all.len(),
                i <= n,
                later@.len() == n - i,
                forall|j: int|
                    0 <= j < later@.len() ==> #[trigger] later@[j] == all[all.len() - 1 - j],
                forall|k: int|
                    0 <= k < all.len() ==> ((#[trigger] all[k]) matches Some(d) ==> d.0.wf()
                        && d.1.wf()),
                forall|w: u8| #[trigger]
                    self.land(w) == land_after(entries@, all, i as int, w, old(self).land(w)),
                forall|w: u8| #[trigger]
                    self.objects(w) == objects_after(
                        entries@,
                        all,
                        i as int,
                        w,
                        old(self).objects(w),
                    ),
            decreases n - i,
        {
            let (map_patches, static_patches) = entries[i];
            let ghost before = *self;
            assert(later@[later@.len() - 1] == all[i as int]);
            match later.pop() {
                Some(d) => {
                    let world: u8 = (i % 256) as u8;
                    self.apply_loaded(world, map_patches, static_patches, d);
                    assert forall|w: u8| #[trigger] self.land(w) == land_after(
                        entries@,
                        all,
                        i + 1,
                        w,
                        old(self).land(w),
                    ) by {
                        assert(before.land(w) == land_after(
                            entries@,
                            all,
                            i as int,
                            w,
                            old(self).land(w),
                        ));
                    }
                    assert forall|w: u8| #[trigger] self.objects(w) == objects_after(
                        entries@,
                        all,
                        i + 1,
                        w,
                        old(self).objects(w),
                    ) by {
                        assert(before.objects(w) == objects_after(
                            entries@,
                            all,
                            i as int,
                            w,
                            old(self).objects(w),
                        ));
                    }
                },
                None => {},
            }
            i += 1;
        }
    }

    /// Removes all patches.
    pub fn clear(&mut self)
        ensures
            final(self).wf(),
            forall|w: u8| (#[trigger] final(self).land(w)) is None,
            forall|w: u8| (#[trigger] final(self).objects(w)) is None,
    {
        *self = DiffOverlay::new();
    }

    /// Whether no world has patches.
    pub fn is_empty(&self) -> (b: bool)
        requires
            self.wf(),
        ensures
            b <==> forall|w: u8|
                (#[trigger] self.land(w)) is None && self.objects(w) is None,
    {
        let mut w: u8 = 0;
        while w < 6
            invariant
                self.wf(),
                w <= 6,
                forall|k: u8| k < w ==> (#[trigger] self.land(k)) is None && self.objects(k) is None,
            decreases 6 - w,
        {
            if self.map_diffs[w as usize].is_some() || self.static_diffs[w as usize].is_some() {
                assert(!(self.land(w) is None && self.objects(w) is None));
                return false;
            }
            w += 1;
        }
        true
    }

    /// The land patches of a world.
    pub fn map_diff(&self, world: u8) -> (r: Option<&MapDiffData>)
        requires
            self.wf(),
        ensures
            r is Some <==> self.land(world) is Some,
            r matches Some(d) ==> *d == self.land(world)->0 && d.wf(),
    {
        if (world as usize) < MAX_WORLDS {
            self.map_diffs[world as usize].as_ref()
        } else {
            None
        }
    }

    /// The object patches of a world.
    pub fn static_diff(&self, world: u8) -> (r: Option<&StaticDiffData>)
        requires
            self.wf(),
        ensures
            r is Some <==> self.objects(world) is Some,
            r matches Some(d) ==> *d == self.objects(world)->0 && d.wf(),
    {
        if (world as usize) < MAX_WORLDS {
            self.static_diffs[world as usize].as_ref()
        } else {
            None
        }
    }
}

/// Land patches of world `w` after the first `n` entries were taken over.
pub open spec fn land_after(
    entries: Seq<(u32, u32)>,
    loaded: Seq<LoadedDiff>,
    n: int,
    w: u8,
    before: Option<MapDiffData>,
) -> Option<MapDiffData>
    decreases n,
{
    if n <= 0 {
        before
    } else if (n - 1) % 256 != w {
        land_after(entries, loaded, n - 1, w, before)
    } else if entries[n - 1] == (0u32, 0u32) || loaded[n - 1] is None || (
    loaded[n - 1]->0).0.blocks@.dom().len() == 0 || w >= MAX_WORLDS {
        None
    } else {
        Some((loaded[n - 1]->0).0)
    }
}

/// Object patches of world `w` after the first `n` entries were taken over.
pub open spec fn objects_after(
    entries: Seq<(u32, u32)>,
    loaded: Seq<LoadedDiff>,
    n: int,
    w: u8,
    before: Option<StaticDiffData>,
) -> Option<StaticDiffData>
    decreases n,
{
    if n <= 0 {
        before
    } else if (n - 1) % 256 != w {
        objects_after(entries, loaded, n - 1, w, before)
    } else if entries[n - 1] == (0u32, 0u32) || loaded[n - 1] is None || (
    loaded[n - 1]->0).1.blocks@.dom().len() == 0 || w >= MAX_WORLDS {
        None
    } else {
        Some((loaded[n - 1]->0).1)
    }
}

impl Default for DiffOverlay {
    fn default() -> (o: DiffOverlay)
        ensures
            o.wf(),
            forall|w: u8| (#[trigger] o.land(w)) is None,
            forall|w: u8| (#[trigger] o.objects(w)) is None,
    {
        DiffOverlay::new()
    }
}

} // verus!

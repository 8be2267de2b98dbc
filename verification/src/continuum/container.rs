//! Containers and the items inside them.
//!
//! Items inside a container have gump-relative coordinates and take no part in
//! collisions, so they are kept apart from the entities of a zone.

use std::collections::HashMap;

use vstd::prelude::*;

use crate::collections::{map_get_mut, map_keys};

verus! {

broadcast use vstd::std_specs::hash::group_hash_axioms;

/// Gump model of a container that was never seen opened.
pub const DEFAULT_GUMP: u16 = 0x003C;

/// An item inside a container.
#[derive(Debug, Clone, Copy, PartialEq, Eq, Structural)]
pub struct ContainerItem {
    pub serial: u32,
    pub graphic: u16,
    /// Stack amount, 1 where items do not stack.
    pub amount: u16,
    /// Gump-relative position.
    pub x: u16,
    pub y: u16,
    pub color: u16,
    /// Cell of a grid layout, `None` in free-form layouts.
    pub grid_index: Option<u8>,
}

/// A container: who it is, how it is shown, and what it holds.
#[derive(Debug, Clone)]
pub struct ContainerInfo {
    pub serial: u32,
    pub gump_model: u16,
    pub items: Vec<ContainerItem>,
}

/// What a container amounts to.
#[verifier::ext_equal]
pub struct ContainerView {
    pub serial: u32,
    pub gump_model: u16,
    pub items: Seq<ContainerItem>,
}

impl View for ContainerInfo {
    type V = ContainerView;

    open spec fn view(&self) -> ContainerView {
        ContainerView { serial: self.serial, gump_model: self.gump_model, items: self.items@ }
    }
}

/// What a map of containers amounts to.
pub open spec fn contents(m: Map<u32, ContainerInfo>) -> Map<u32, ContainerView> {
    m.map_values(|c: ContainerInfo| c@)
}

/// Whether an item with this serial is in the list.
pub open spec fn has_serial(items: Seq<ContainerItem>, serial: u32) -> bool {
    exists|i: int| 0 <= i < items.len() && (#[trigger] items[i]).serial == serial
}

/// Whether `i` is the first place with this serial.
pub open spec fn first_at(items: Seq<ContainerItem>, serial: u32, i: int) -> bool {
    &&& 0 <= i < items.len()
    &&& items[i].serial == serial
    &&& forall|j: int| 0 <= j < i ==> (#[trigger] items[j]).serial != serial
}

/// The first place with this serial.
pub open spec fn first_index(items: Seq<ContainerItem>, serial: u32) -> int {
    choose|i: int| first_at(items, serial, i)
}

/// The items whose serial is not in `gone`, in order.
pub open spec fn minus(items: Seq<ContainerItem>, gone: Set<u32>) -> Seq<ContainerItem> {
    items.filter(|i: ContainerItem| !gone.contains(i.serial))
}

/// The list with `item` in the first place of its serial, or at the end.
pub open spec fn upserted(items: Seq<ContainerItem>, item: ContainerItem) -> Seq<ContainerItem> {
    if has_serial(items, item.serial) {
        items.update(first_index(items, item.serial), item)
    } else {
        items.push(item)
    }
}

pub proof fn lemma_first_index(items: Seq<ContainerItem>, serial: u32, i: int)
    requires
        first_at(items, serial, i),
    ensures
        first_index(items, serial) == i,
        has_serial(items, serial),
{
    let k = first_index(items, serial);
    assert(first_at(items, serial, k));
    if k < i {
        assert(items[k].serial != serial);
    } else if i < k {
        assert(items[i].serial != serial);
    }
}

pub proof fn lemma_minus_twice(items: Seq<ContainerItem>, a: Set<u32>, b: Set<u32>)
    ensures
        minus(minus(items, a), b) == minus(items, a.union(b)),
    decreases items.len(),
{
    reveal(Seq::filter);
    if items.len() > 0 {
        lemma_minus_twice(items.drop_last(), a, b);
        let keep = minus(items.drop_last(), a);
        if !a.contains(items.last().serial) {
            assert(minus(items, a) == keep.push(items.last()));
            assert(keep.push(items.last()).drop_last() =~= keep);
        }
    }
}

pub proof fn lemma_minus_absent(items: Seq<ContainerItem>, gone: Set<u32>)
    requires
        forall|i: int| 0 <= i < items.len() ==> !gone.contains((#[trigger] items[i]).serial),
    ensures
        minus(items, gone) == items,
    decreases items.len(),
{
    reveal(Seq::filter);
    if items.len() > 0 {
        let init = items.drop_last();
        assert forall|i: int| 0 <= i < init.len() implies !gone.contains(
            (#[trigger] init[i]).serial,
        ) by {
            assert(init[i] == items[i]);
        }
        lemma_minus_absent(init, gone);
        assert(init.push(items.last()) =~= items);
    }
}

/// What is left of a list after a removal: the items that were there and were
/// not removed.
pub proof fn lemma_minus_members(items: Seq<ContainerItem>, gone: Set<u32>, s: u32)
    ensures
        has_serial(minus(items, gone), s) <==> has_serial(items, s) && !gone.contains(s),
    decreases items.len(),
{
    reveal(Seq::filter);
    if items.len() > 0 {
        let init = items.drop_last();
        let last = items.last();
        lemma_minus_members(init, gone, s);
        assert(items =~= init.push(last));
        lemma_push_members(init, last, s);
        if !gone.contains(last.serial) {
            lemma_push_members(minus(init, gone), last, s);
            assert(minus(items, gone) == minus(init, gone).push(last));
        }
    }
}

pub proof fn lemma_push_members(items: Seq<ContainerItem>, item: ContainerItem, s: u32)
    ensures
        has_serial(items.push(item), s) <==> has_serial(items, s) || item.serial == s,
{
    let p = items.push(item);
    if has_serial(items, s) {
        let i = choose|i: int| 0 <= i < items.len() && (#[trigger] items[i]).serial == s;
        assert(p[i].serial == s);
    }
    if item.serial == s {
        assert(p[items.len() as int].serial == s);
    }
    if has_serial(p, s) {
        let i = choose|i: int| 0 <= i < p.len() && (#[trigger] p[i]).serial == s;
        if i < items.len() {
            assert(items[i].serial == s);
        }
    }
}

pub proof fn lemma_upserted_members(items: Seq<ContainerItem>, item: ContainerItem, s: u32)
    ensures
        has_serial(upserted(items, item), s) <==> has_serial(items, s) || item.serial == s,
{
    if has_serial(items, item.serial) {
        lemma_has_first(items, item.serial);
        let f = first_index(items, item.serial);
        let u = items.update(f, item);
        assert(u[f].serial == item.serial);
        if has_serial(items, s) {
            let i = choose|i: int| 0 <= i < items.len() && (#[trigger] items[i]).serial == s;
            assert(u[i].serial == s);
        }
        if has_serial(u, s) {
            let i = choose|i: int| 0 <= i < u.len() && (#[trigger] u[i]).serial == s;
            assert(items[i].serial == s);
        }
    } else {
        lemma_push_members(items, item, s);
    }
}

pub proof fn lemma_has_first(items: Seq<ContainerItem>, serial: u32)
    requires
        has_serial(items, serial),
    ensures
        first_at(items, serial, first_index(items, serial)),
    decreases items.len(),
{
    let init = items.drop_last();
    if has_serial(init, serial) {
        lemma_has_first(init, serial);
        let i = first_index(init, serial);
        assert forall|j: int| 0 <= j < i implies (#[trigger] items[j]).serial != serial by {
            assert(init[j] == items[j]);
        }
        assert(init[i] == items[i]);
        assert(first_at(items, serial, i));
    } else {
        let i = items.len() - 1;
        assert forall|j: int| 0 <= j < i implies (#[trigger] items[j]).serial != serial by {
            assert(init[j] == items[j]);
        }
        let k = choose|k: int| 0 <= k < items.len() && (#[trigger] items[k]).serial == serial;
        assert(k == i);
        assert(first_at(items, serial, i));
    }
}

impl ContainerInfo {
    /// An empty container.
    pub fn new(serial: u32, gump_model: u16) -> (c: ContainerInfo)
        ensures
            c@ == (ContainerView { serial, gump_model, items: Seq::empty() }),
    {
        ContainerInfo { serial, gump_model, items: Vec::new() }
    }

    pub fn serial(&self) -> (s: u32)
        ensures
            s == self.serial,
    {
        self.serial
    }

    pub fn gump_model(&self) -> (g: u16)
        ensures
            g == self.gump_model,
    {
        self.gump_model
    }

    /// Number of items inside.
    pub fn item_count(&self) -> (n: usize)
        ensures
            n == self.items@.len(),
    {
        self.items.len()
    }

    /// Replaces all items.
    pub fn set_items(&mut self, items: Vec<ContainerItem>)
        ensures
            final(self)@ == (ContainerView { items: items@, ..old(self)@ }),
    {
        self.items = items;
    }

    fn find_index(&self, serial: u32) -> (r: Option<usize>)
        ensures
            match r {
                Some(i) => first_at(self.items@, serial, i as int),
                None => !has_serial(self.items@, serial),
            },
    {
        let mut i: usize = 0;
        while i < self.items.len()
            invariant
                i <= self.items@.len(),
                forall|j: int| 0 <= j < i ==> (#[trigger] self.items@[j]).serial != serial,
            decreases self.items@.len() - i,
        {
            if self.items[i].serial == serial {
                return Some(i);
            }
            i += 1;
        }
        None
    }

    /// Puts an item in the place of the one with its serial, or at the end.
    pub fn upsert_item(&mut self, item: ContainerItem)
        ensures
            final(self)@ == (ContainerView { items: upserted(old(self)@.items, item), ..old(self)@
            }),
    {
        match self.find_index(item.serial) {
            Some(i) => {
                proof {
                    lemma_first_index(self.items@, item.serial, i as int);
                }
                self.items.set(i, item);
            },
            None => {
                self.items.push(item);
            },
        }
    }

    /// Removes every item with this serial. Returns whether there was one.
    pub fn remove_item(&mut self, serial: u32) -> (found: bool)
        ensures
            found == has_serial(old(self)@.items, serial),
            final(self)@ == (ContainerView {
                items: minus(old(self)@.items, set![serial]),
                ..old(self)@
            }),
            !found ==> final(self)@ == old(self)@,
    {
        let ghost all = self.items@;
        let mut kept: Vec<ContainerItem> = Vec::new();
        let mut found = false;
        let mut i: usize = 0;
        proof {
            reveal(Seq::filter);
            assert(all.take(0) =~= Seq::<ContainerItem>::empty());
        }
        while i < self.items.len()
            invariant
                i <= self.items@.len(),
                self.items@ == all,
                *self == *old(self),
                kept@ == minus(all.take(i as int), set![serial]),
                found == exists|j: int| 0 <= j < i && (#[trigger] all[j]).serial == serial,
            decreases self.items@.len() - i,
        {
            let item = self.items[i];
            proof {
                reveal(Seq::filter);
                assert(all.take(i + 1).drop_last() =~= all.take(i as int));
                assert(all[i as int] == item);
            }
            if item.serial == serial {
                found = true;
            } else {
                kept.push(item);
            }
            i += 1;
        }
        proof {
            assert(all.take(i as int) =~= all);
            if !found {
                lemma_minus_absent(all, set![serial]);
            }
        }
        self.items = kept;
        found
    }

    /// The serials of all items, in order.
    pub fn item_serials(&self) -> (serials: Vec<u32>)
        ensures
            serials@ == self.items@.map_values(|i: ContainerItem| i.serial),
    {
        let mut serials: Vec<u32> = Vec::new();
        let mut i: usize = 0;
        while i < self.items.len()
            invariant
                i <= self.items@.len(),
                serials@.len() == i,
                forall|j: int| 0 <= j < i ==> serials@[j] == (#[trigger] self.items@[j]).serial,
            decreases self.items@.len() - i,
        {
            serials.push(self.items[i].serial);
            i += 1;
        }
        assert(serials@ =~= self.items@.map_values(|i: ContainerItem| i.serial));
        serials
    }

    /// The first item with this serial.
    pub fn find_item(&self, serial: u32) -> (r: Option<&ContainerItem>)
        ensures
            r == if has_serial(self.items@, serial) {
                Some(&self.items@[first_index(self.items@, serial)])
            } else {
                None
            },
    {
        match self.find_index(serial) {
            Some(i) => {
                proof {
                    lemma_first_index(self.items@, serial, i as int);
                }
                Some(&self.items[i])
            },
            None => None,
        }
    }

    /// Access to the first item with this serial.
    pub fn find_item_mut(&mut self, serial: u32) -> (r: Option<&mut ContainerItem>)
        ensures
            match r {
                Some(item) => {
                    &&& has_serial(old(self)@.items, serial)
                    &&& *item == old(self)@.items[first_index(old(self)@.items, serial)]
                    &&& final(self)@ == (ContainerView {
                        items: old(self)@.items.update(
                            first_index(old(self)@.items, serial),
                            *final(item),
                        ),
                        ..old(self)@
                    })
                },
                None => !has_serial(old(self)@.items, serial) && final(self)@ == old(self)@,
            },
    {
        match self.find_index(serial) {
            Some(i) => {
                proof {
                    lemma_first_index(self.items@, serial, i as int);
                }
                Some(&mut self.items[i])
            },
            None => None,
        }
    }
}

pub proof fn lemma_contents(m: Map<u32, ContainerInfo>, k: u32, c: ContainerInfo)
    ensures
        contents(m.insert(k, c)) == contents(m).insert(k, c@),
        contents(m.remove(k)) == contents(m).remove(k),
        contents(m).contains_key(k) == m.contains_key(k),
        m.contains_key(k) ==> contents(m)[k] == m[k]@,
{
    assert(contents(m.insert(k, c)) =~= contents(m).insert(k, c@));
    assert(contents(m.remove(k)) =~= contents(m).remove(k));
}

/// The container under `cs` with its gump model replaced, a new one if there is none.
pub open spec fn opened(
    m: Map<u32, ContainerView>,
    cs: u32,
    gump_model: u16,
) -> Map<u32, ContainerView> {
    m.insert(
        cs,
        if m.contains_key(cs) {
            ContainerView { gump_model, ..m[cs] }
        } else {
            ContainerView { serial: cs, gump_model, items: Seq::empty() }
        },
    )
}

/// The container under `cs`, or an unopened empty one.
pub open spec fn container_or_new(m: Map<u32, ContainerView>, cs: u32) -> ContainerView {
    if m.contains_key(cs) {
        m[cs]
    } else {
        ContainerView { serial: cs, gump_model: DEFAULT_GUMP, items: Seq::empty() }
    }
}

/// The containers other than `cs` without the items of `gone(c)`, and `cs`
/// holding `items`.
pub open spec fn replaced(
    m: Map<u32, ContainerView>,
    cs: u32,
    items: Seq<ContainerItem>,
    gone: spec_fn(u32) -> Set<u32>,
) -> Map<u32, ContainerView> {
    Map::new(
        |c: u32| m.contains_key(c) || c == cs,
        |c: u32|
            if c == cs {
                ContainerView { items, ..container_or_new(m, cs) }
            } else {
                ContainerView { items: minus(m[c].items, gone(c)), ..m[c] }
            },
    )
}

/// The serials of a list.
pub open spec fn serials_of(items: Seq<ContainerItem>) -> Set<u32> {
    Set::new(|s: u32| has_serial(items, s))
}

fn open_in(containers: &mut HashMap<u32, ContainerInfo>, serial: u32, gump_model: u16)
    ensures
        contents(final(containers)@) == opened(contents(old(containers)@), serial, gump_model),
{
    match map_get_mut(containers, serial) {
        Some(c) => {
            c.gump_model = gump_model;
            proof {
                lemma_contents(old(containers)@, serial, *c);
            }
        },
        None => {
            let c = ContainerInfo::new(serial, gump_model);
            proof {
                lemma_contents(old(containers)@, serial, c);
            }
            containers.insert(serial, c);
        },
    }
}

fn set_content(containers: &mut HashMap<u32, ContainerInfo>, cs: u32, items: Vec<ContainerItem>)
    ensures
        contents(final(containers)@) == contents(old(containers)@).insert(
            cs,
            ContainerView { items: items@, ..container_or_new(contents(old(containers)@), cs) },
        ),
{
    match map_get_mut(containers, cs) {
        Some(c) => {
            c.items = items;
            proof {
                lemma_contents(old(containers)@, cs, *c);
            }
        },
        None => {
            let c = ContainerInfo { serial: cs, gump_model: DEFAULT_GUMP, items };
            proof {
                lemma_contents(old(containers)@, cs, c);
            }
            containers.insert(cs, c);
        },
    }
}

fn upsert_content(containers: &mut HashMap<u32, ContainerInfo>, cs: u32, item: ContainerItem)
    ensures
        contents(final(containers)@) == contents(old(containers)@).insert(
            cs,
            ContainerView {
                items: upserted(container_or_new(contents(old(containers)@), cs).items, item),
                ..container_or_new(contents(old(containers)@), cs)
            },
        ),
{
    match map_get_mut(containers, cs) {
        Some(c) => {
            c.upsert_item(item);
            proof {
                lemma_contents(old(containers)@, cs, *c);
            }
        },
        None => {
            let mut c = ContainerInfo::new(cs, DEFAULT_GUMP);
            c.upsert_item(item);
            proof {
                lemma_contents(old(containers)@, cs, c);
            }
            containers.insert(cs, c);
        },
    }
}

/// Takes one serial out of container `c`, where there is such a container.
fn take_out(containers: &mut HashMap<u32, ContainerInfo>, c: u32, serial: u32) -> (found: bool)
    ensures
        ({
            let m = contents(old(containers)@);
            &&& found == (m.contains_key(c) && has_serial(m[c].items, serial))
            &&& contents(final(containers)@) == if m.contains_key(c) {
                m.insert(
                    c,
                    ContainerView { items: minus(m[c].items, set![serial]), ..m[c] },
                )
            } else {
                m
            }
            &&& !found ==> contents(final(containers)@) == m
        }),
{
    match map_get_mut(containers, c) {
        Some(info) => {
            let found = info.remove_item(serial);
            proof {
                lemma_contents(old(containers)@, c, *info);
                let m = contents(old(containers)@);
                if !found {
                    assert(m.insert(c, m[c]) =~= m);
                }
            }
            found
        },
        None => false,
    }
}

/// Whether some container holds an item with this serial.
pub open spec fn held_somewhere(m: Map<u32, ContainerView>, s: u32) -> bool {
    exists|c: u32| m.contains_key(c) && has_serial((#[trigger] m[c]).items, s)
}

/// Whether `r` is `m` after the item left container `c`.
pub open spec fn taken_from(
    m: Map<u32, ContainerView>,
    r: Map<u32, ContainerView>,
    c: u32,
    s: u32,
) -> bool {
    &&& m.contains_key(c)
    &&& has_serial(m[c].items, s)
    &&& r == m.insert(c, ContainerView { items: minus(m[c].items, set![s]), ..m[c] })
}

/// Whether `r` is what the deletion of an object leaves of `m`: the container
/// with this serial is gone; or else the item with this serial, from one
/// container that held it; or else nothing.
pub open spec fn deleted(m: Map<u32, ContainerView>, r: Map<u32, ContainerView>, s: u32) -> bool {
    if m.contains_key(s) {
        r == m.remove(s)
    } else if held_somewhere(m, s) {
        exists|c: u32| #[trigger] taken_from(m, r, c, s)
    } else {
        r == m
    }
}

/// What is known of the containers of one session.
#[derive(Debug, Clone)]
pub struct ContainerStore {
    pub containers: HashMap<u32, ContainerInfo>,
}

impl View for ContainerStore {
    type V = Map<u32, ContainerView>;

    open spec fn view(&self) -> Map<u32, ContainerView> {
        contents(self.containers@)
    }
}

impl Default for ContainerStore {
    fn default() -> (s: ContainerStore)
        ensures
            s@ == Map::<u32, ContainerView>::empty(),
    {
        ContainerStore::new()
    }
}

impl From<HashMap<u32, ContainerInfo>> for ContainerStore {
    fn from(map: HashMap<u32, ContainerInfo>) -> (s: ContainerStore) {
        ContainerStore { containers: map }
    }
}

impl vstd::std_specs::convert::FromSpecImpl<HashMap<u32, ContainerInfo>> for ContainerStore {
    open spec fn obeys_from_spec() -> bool {
        true
    }

    open spec fn from_spec(map: HashMap<u32, ContainerInfo>) -> ContainerStore {
        ContainerStore { containers: map }
    }
}

impl ContainerStore {
    /// An empty store.
    pub fn new() -> (s: ContainerStore)
        ensures
            s@ == Map::<u32, ContainerView>::empty(),
    {
        let s = ContainerStore { containers: HashMap::new() };
        assert(s@ =~= Map::<u32, ContainerView>::empty());
        s
    }

    /// The container with this serial.
    pub fn get(&self, serial: u32) -> (r: Option<&ContainerInfo>)
        ensures
            r is Some <==> self@.contains_key(serial),
            r matches Some(c) ==> c@ == self@[serial],
    {
        self.containers.get(&serial)
    }

    /// Access to the container with this serial.
    pub fn get_mut(&mut self, serial: u32) -> (r: Option<&mut ContainerInfo>)
        ensures
            match r {
                Some(c) => {
                    &&& old(self)@.contains_key(serial)
                    &&& (*c)@ == old(self)@[serial]
                    &&& final(self)@ == old(self)@.insert(serial, (*final(c))@)
                },
                None => !old(self)@.contains_key(serial) && final(self)@ == old(self)@,
            },
    {
        match map_get_mut(&mut self.containers, serial) {
            Some(c) => {
                proof {
                    lemma_contents(old(self).containers@, serial, *final(c));
                }
                Some(c)
            },
            None => None,
        }
    }

    /// Number of containers.
    pub fn len(&self) -> (n: usize)
        ensures
            n == self@.dom().len(),
    {
        assert(self@.dom() =~= self.containers@.dom());
        self.containers.len()
    }

    /// Whether there is no container.
    pub fn is_empty(&self) -> (b: bool)
        ensures
            b == (self@.dom().len() == 0),
    {
        self.len() == 0
    }

    /// Forgets all containers.
    pub fn clear(&mut self)
        ensures
            final(self)@ == Map::<u32, ContainerView>::empty(),
    {
        self.containers.clear();
        assert(self@ =~= Map::<u32, ContainerView>::empty());
    }

    /// All containers with their serials, each once, in no particular order.
    pub fn iter(&self) -> (r: Vec<(u32, &ContainerInfo)>)
        ensures
            r@.len() == self@.dom().len(),
            forall|i: int|
                0 <= i < r@.len() ==> self@.contains_key((#[trigger] r@[i]).0) && r@[i].1@
                    == self@[r@[i].0],
            forall|i: int, j: int|
                0 <= i < j < r@.len() ==> (#[trigger] r@[i]).0 != (#[trigger] r@[j]).0,
    {
        let keys = map_keys(&self.containers);
        let mut out: Vec<(u32, &ContainerInfo)> = Vec::new();
        let mut i: usize = 0;
        while i < keys.len()
            invariant
                i <= keys@.len(),
                keys@.no_duplicates(),
                forall|k: u32| #[trigger]
                    keys@.contains(k) <==> self.containers@.contains_key(k),
                out@.len() == i,
                forall|j: int|
                    0 <= j < i ==> (#[trigger] out@[j]).0 == keys@[j] && *out@[j].1
                        == self.containers@[keys@[j]],
            decreases keys@.len() - i,
        {
            assert(keys@.contains(keys@[i as int]));
            match self.containers.get(&keys[i]) {
                Some(c) => {
                    out.push((keys[i], c));
                },
                None => {},
            }
            i += 1;
        }
        assert(self@.dom() =~= self.containers@.dom());
        assert forall|j: int| 0 <= j < out@.len() implies self@.contains_key((#[trigger] out@[j]).0)
            && out@[j].1@ == self@[out@[j].0] by {
            assert(keys@.contains(keys@[j]));
        }
        out
    }

    /// Removes a deleted object: the container with this serial, else the item
    /// with this serial from one container that holds it. Returns whether
    /// anything was removed.
    pub fn remove(&mut self, serial: u32) -> (found: bool)
        ensures
            found == (old(self)@.contains_key(serial) || held_somewhere(old(self)@, serial)),
            deleted(old(self)@, final(self)@, serial),
    {
        let ghost before = self@;
        let found = remove_from_container_map(&mut self.containers, serial);
        proof {
            if found && !before.contains_key(serial) {
                let c = choose|c: u32|
                    {
                        &&& before.contains_key(c)
                        &&& has_serial((#[trigger] before[c]).items, serial)
                        &&& self@ == before.insert(
                            c,
                            ContainerView {
                                items: minus(before[c].items, set![serial]),
                                ..before[c]
                            },
                        )
                    };
                assert(taken_from(before, self@, c, serial));
            }
        }
        found
    }

    /// Notes that a container was opened. [`ContainerStore::ingest_open`] has
    /// already recorded all there is to record.
    pub fn mark_opened(&mut self, _serial: u32)
        ensures
            final(self)@ == old(self)@,
    {
    }

    /// Records that a container was opened with a gump model.
    pub fn ingest_open(&mut self, serial: u32, gump_model: u16) -> (r: u32)
        ensures
            r == serial,
            final(self)@ == opened(old(self)@, serial, gump_model),
    {
        open_in(&mut self.containers, serial, gump_model);
        serial
    }

    /// Replaces the content of a container. Its items leave all other containers.
    pub fn ingest_content(&mut self, container_serial: u32, items: Vec<ContainerItem>) -> (r: u32)
        ensures
            r == container_serial,
            final(self)@ == replaced(
                old(self)@,
                container_serial,
                items@,
                |c: u32| serials_of(items@),
            ),
    {
        let ghost m = self@;
        let mut i: usize = 0;
        proof {
            assert forall|c: u32| m.contains_key(c) implies minus(
                (#[trigger] m[c]).items,
                serials_of(items@.take(0)),
            ) == m[c].items by {
                lemma_minus_absent(m[c].items, serials_of(items@.take(0)));
            }
        }
        while i < items.len()
            invariant
                i <= items@.len(),
                self@.dom() == m.dom(),
                m.contains_key(container_serial) ==> self@[container_serial]
                    == m[container_serial],
                forall|c: u32|
                    m.contains_key(c) && c != container_serial ==> (#[trigger] self@[c]) == (
                    ContainerView {
                        items: minus(m[c].items, serials_of(items@.take(i as int))),
                        ..m[c]
                    }),
            decreases items@.len() - i,
        {
            let s: u32 = items[i].serial;
            let ghost before = self@;
            self.take_from_others(container_serial, s);
            proof {
                assert(items@.take(i + 1) =~= items@.take(i as int).push(items@[i as int]));
                assert forall|c: u32|
                    m.contains_key(c) && c != container_serial implies (#[trigger] self@[c]) == (
                ContainerView {
                    items: minus(m[c].items, serials_of(items@.take(i + 1))),
                    ..m[c]
                }) by {
                    let old_set = serials_of(items@.take(i as int));
                    assert(before[c].items == minus(m[c].items, old_set));
                    lemma_minus_twice(m[c].items, old_set, set![s]);
                    assert(serials_of(items@.take(i + 1)) =~= old_set.union(set![s])) by {
                        assert forall|t: u32| serials_of(items@.take(i + 1)).contains(t)
                            <==> old_set.union(set![s]).contains(t) by {
                            lemma_push_members(items@.take(i as int), items@[i as int], t);
                        }
                    }
                }
            }
            i += 1;
        }
        assert(items@.take(i as int) =~= items@);
        let ghost list = items@;
        let ghost moved = self@;
        set_content(&mut self.containers, container_serial, items);
        assert(self@ =~= replaced(m, container_serial, list, |c: u32| serials_of(list)));
        container_serial
    }

    /// Puts an item in a container. It leaves all other containers.
    pub fn ingest_item_upsert(&mut self, container_serial: u32, item: ContainerItem) -> (r: u32)
        ensures
            r == container_serial,
            final(self)@ == replaced(
                old(self)@,
                container_serial,
                upserted(container_or_new(old(self)@, container_serial).items, item),
                |c: u32| set![item.serial],
            ),
    {
        let ghost m = self@;
        self.take_from_others(container_serial, item.serial);
        upsert_content(&mut self.containers, container_serial, item);
        assert(self@ =~= replaced(
            m,
            container_serial,
            upserted(container_or_new(m, container_serial).items, item),
            |c: u32| set![item.serial],
        ));
        container_serial
    }

    /// Takes a serial out of every container but `keep`.
    fn take_from_others(&mut self, keep: u32, serial: u32)
        ensures
            final(self)@.dom() == old(self)@.dom(),
            forall|c: u32| #[trigger]
                final(self)@.contains_key(c) ==> final(self)@[c] == if c == keep {
                    old(self)@[c]
                } else {
                    ContainerView {
                        items: minus(old(self)@[c].items, set![serial]),
                        ..old(self)@[c]
                    }
                },
    {
        let ghost m = self@;
        let keys = map_keys(&self.containers);
        let mut i: usize = 0;
        while i < keys.len()
            invariant
                i <= keys@.len(),
                keys@.no_duplicates(),
                forall|k: u32| #[trigger] keys@.contains(k) <==> m.contains_key(k),
                self@.dom() == m.dom(),
                forall|c: u32| #[trigger]
                    self@.contains_key(c) ==> self@[c] == if c == keep || !keys@.take(
                        i as int,
                    ).contains(c) {
                        m[c]
                    } else {
                        ContainerView { items: minus(m[c].items, set![serial]), ..m[c] }
                    },
            decreases keys@.len() - i,
        {
            let k: u32 = keys[i];
            let ghost before = self@;
            if k != keep {
                take_out(&mut self.containers, k, serial);
            }
            proof {
                assert(keys@.contains(k));
                assert(keys@.take(i + 1) =~= keys@.take(i as int).push(k));
                assert(!keys@.take(i as int).contains(k));
                assert forall|c: u32| #[trigger] self@.contains_key(c) implies self@[c] == if c
                    == keep || !keys@.take(i + 1).contains(c) {
                    m[c]
                } else {
                    ContainerView { items: minus(m[c].items, set![serial]), ..m[c] }
                } by {
                    assert(before.contains_key(c));
                    if c == k {
                        assert(keys@.take(i + 1)[i as int] == k);
                        assert(keys@.take(i + 1).contains(c));
                    } else {
                        lemma_push_contains(keys@.take(i as int), k, c);
                    }
                }
            }
            i += 1;
        }
        assert(keys@.take(i as int) =~= keys@);
    }

    /// All containers by serial.
    pub fn containers(&self) -> (m: &HashMap<u32, ContainerInfo>)
        ensures
            contents(m@) == self@,
            *m == self.containers,
    {
        &self.containers
    }
}

pub proof fn lemma_push_contains(s: Seq<u32>, x: u32, c: u32)
    ensures
        s.push(x).contains(c) <==> s.contains(c) || c == x,
{
    let p = s.push(x);
    if s.contains(c) {
        let i = choose|i: int| 0 <= i < s.len() && s[i] == c;
        assert(p[i] == c);
    }
    if c == x {
        assert(p[s.len() as int] == c);
    }
    if p.contains(c) {
        let i = choose|i: int| 0 <= i < p.len() && p[i] == c;
        if i < s.len() {
            assert(s[i] == c);
        }
    }
}

fn remove_from_container_map(
    containers: &mut HashMap<u32, ContainerInfo>,
    serial: u32,
) -> (found: bool)
    ensures
        ({
            let m = contents(old(containers)@);
            let r = contents(final(containers)@);
            &&& found == (m.contains_key(serial) || exists|c: u32|
                m.contains_key(c) && has_serial((#[trigger] m[c]).items, serial))
            &&& m.contains_key(serial) ==> r == m.remove(serial)
            &&& !found ==> r == m
            &&& found && !m.contains_key(serial) ==> exists|c: u32|
                {
                    &&& m.contains_key(c)
                    &&& has_serial((#[trigger] m[c]).items, serial)
                    &&& r == m.insert(
                        c,
                        ContainerView { items: minus(m[c].items, set![serial]), ..m[c] },
                    )
                }
        }),
{
    let ghost m = contents(containers@);
    if containers.contains_key(&serial) {
        let ghost before = containers@;
        let removed = containers.remove(&serial);
        assert(contents(before.remove(serial)) =~= m.remove(serial));
        return true;
    }
    let keys = map_keys(containers);
    let mut i: usize = 0;
    while i < keys.len()
        invariant
            i <= keys@.len(),
            m == contents(old(containers)@),
            !m.contains_key(serial),
            contents(containers@) == m,
            forall|k: u32| #[trigger] keys@.contains(k) <==> m.contains_key(k),
            forall|j: int| 0 <= j < i ==> !has_serial(m[#[trigger] keys@[j]].items, serial),
        decreases keys@.len() - i,
    {
        assert(keys@.contains(keys@[i as int]));
        if take_out(containers, keys[i], serial) {
            assert(has_serial(m[keys@[i as int]].items, serial));
            return true;
        }
        i += 1;
    }
    assert forall|c: u32| m.contains_key(c) implies !has_serial((#[trigger] m[c]).items, serial) by {
        assert(keys@.contains(c));
        let j = choose|j: int| 0 <= j < keys@.len() && keys@[j] == c;
        assert(!has_serial(m[keys@[j]].items, serial));
    }
    false
}


/// The index after every item of the list was entered under `cs`.
pub open spec fn index_with(
    index: Map<u32, u32>,
    items: Seq<ContainerItem>,
    cs: u32,
) -> Map<u32, u32> {
    Map::new(
        |s: u32| index.contains_key(s) || has_serial(items, s),
        |s: u32|
            if has_serial(items, s) {
                cs
            } else {
                index[s]
            },
    )
}

/// The index after every item of the list was struck out.
pub open spec fn index_without(index: Map<u32, u32>, items: Seq<ContainerItem>) -> Map<u32, u32> {
    Map::new(|s: u32| index.contains_key(s) && !has_serial(items, s), |s: u32| index[s])
}

/// Whether the index is right about serial `s` and container `c`.
pub open spec fn entry_true(
    m: Map<u32, ContainerView>,
    index: Map<u32, u32>,
    s: u32,
    c: u32,
) -> bool {
    (index.contains_key(s) && index[s] == c) <==> (m.contains_key(c) && has_serial(m[c].items, s))
}

/// Whether the index tells, for each serial, the one container that holds it.
pub open spec fn index_true(m: Map<u32, ContainerView>, index: Map<u32, u32>) -> bool {
    forall|s: u32, c: u32| #[trigger] entry_true(m, index, s, c)
}

/// The items of the list that the index places in container `c`.
pub open spec fn indexed_in(
    index: Map<u32, u32>,
    items: Seq<ContainerItem>,
    c: u32,
) -> Set<u32> {
    Set::new(|s: u32| has_serial(items, s) && index.contains_key(s) && index[s] == c)
}

fn enter_all(index: &mut HashMap<u32, u32>, items: &Vec<ContainerItem>, cs: u32)
    ensures
        final(index)@ == index_with(old(index)@, items@, cs),
{
    let ghost before = index@;
    let mut i: usize = 0;
    assert(index@ =~= index_with(before, items@.take(0), cs));
    while i < items.len()
        invariant
            i <= items@.len(),
            index@ == index_with(before, items@.take(i as int), cs),
        decreases items@.len() - i,
    {
        let ghost prev = index@;
        index.insert(items[i].serial, cs);
        proof {
            let pre = items@.take(i as int);
            assert(items@.take(i + 1) =~= pre.push(items@[i as int]));
            assert forall|s: u32| has_serial(items@.take(i + 1), s) <==> has_serial(pre, s) || s
                == items@[i as int].serial by {
                lemma_push_members(pre, items@[i as int], s);
            }
            assert(index@ =~= index_with(before, items@.take(i + 1), cs));
        }
        i += 1;
    }
    assert(items@.take(i as int) =~= items@);
}

fn strike_all(index: &mut HashMap<u32, u32>, items: &Vec<ContainerItem>)
    ensures
        final(index)@ == index_without(old(index)@, items@),
{
    let ghost before = index@;
    let mut i: usize = 0;
    assert(index@ =~= index_without(before, items@.take(0)));
    while i < items.len()
        invariant
            i <= items@.len(),
            index@ == index_without(before, items@.take(i as int)),
        decreases items@.len() - i,
    {
        index.remove(&items[i].serial);
        proof {
            let pre = items@.take(i as int);
            assert(items@.take(i + 1) =~= pre.push(items@[i as int]));
            assert forall|s: u32| has_serial(items@.take(i + 1), s) <==> has_serial(pre, s) || s
                == items@[i as int].serial by {
                lemma_push_members(pre, items@[i as int], s);
            }
            assert(index@ =~= index_without(before, items@.take(i + 1)));
        }
        i += 1;
    }
    assert(items@.take(i as int) =~= items@);
}

/// The containers of a zone, with an index from each item to its container.
#[derive(Debug, Clone)]
pub struct HashContainerStore {
    pub containers: HashMap<u32, ContainerInfo>,
    /// Item serial to the serial of the container that holds it.
    pub item_index: HashMap<u32, u32>,
}

impl View for HashContainerStore {
    type V = Map<u32, ContainerView>;

    open spec fn view(&self) -> Map<u32, ContainerView> {
        contents(self.containers@)
    }
}

impl Default for HashContainerStore {
    fn default() -> (s: HashContainerStore)
        ensures
            s@ == Map::<u32, ContainerView>::empty(),
            s.item_index@ == Map::<u32, u32>::empty(),
            s.index_ok(),
    {
        HashContainerStore::new()
    }
}

impl HashContainerStore {
    /// Whether the index tells, for each serial, the one container that holds it.
    pub open spec fn index_ok(&self) -> bool {
        index_true(self@, self.item_index@)
    }

    pub fn new() -> (s: HashContainerStore)
        ensures
            s@ == Map::<u32, ContainerView>::empty(),
            s.item_index@ == Map::<u32, u32>::empty(),
            s.index_ok(),
    {
        let s = HashContainerStore { containers: HashMap::new(), item_index: HashMap::new() };
        assert(s@ =~= Map::<u32, ContainerView>::empty());
        s
    }

    /// All containers by serial.
    pub fn containers(&self) -> (m: &HashMap<u32, ContainerInfo>)
        ensures
            *m == self.containers,
            contents(m@) == self@,
    {
        &self.containers
    }

    /// Access to the containers. The index is not kept up to date: call
    /// [`HashContainerStore::rebuild_index`] after the changes.
    pub fn containers_mut(&mut self) -> (m: &mut HashMap<u32, ContainerInfo>)
        ensures
            *m == old(self).containers,
            final(self).containers == *final(m),
            final(self).item_index == old(self).item_index,
    {
        &mut self.containers
    }

    /// Records that a container was opened with a gump model.
    pub fn ingest_open(&mut self, serial: u32, gump_model: u16) -> (r: u32)
        ensures
            r == serial,
            final(self)@ == opened(old(self)@, serial, gump_model),
            final(self).item_index@ == old(self).item_index@,
    {
        open_in(&mut self.containers, serial, gump_model);
        serial
    }

    /// Replaces the content of a container. Its items leave the containers in
    /// which the index places them.
    pub fn ingest_content(&mut self, container_serial: u32, items: Vec<ContainerItem>) -> (r: u32)
        ensures
            r == container_serial,
            final(self)@ == replaced(
                old(self)@,
                container_serial,
                items@,
                |c: u32| indexed_in(old(self).item_index@, items@, c),
            ),
            final(self).item_index@ == index_with(
                index_without(
                    old(self).item_index@,
                    container_or_new(old(self)@, container_serial).items,
                ),
                items@,
                container_serial,
            ),
    {
        let ghost m = self@;
        let ghost idx = self.item_index@;
        let ghost cs = container_serial;
        let mut i: usize = 0;
        proof {
            assert forall|c: u32| m.contains_key(c) implies minus(
                (#[trigger] m[c]).items,
                indexed_in(idx, items@.take(0), c),
            ) == m[c].items by {
                lemma_minus_absent(m[c].items, indexed_in(idx, items@.take(0), c));
            }
        }
        while i < items.len()
            invariant
                i <= items@.len(),
                cs == container_serial,
                self@.dom() == m.dom(),
                m.contains_key(cs) ==> self@[cs] == m[cs],
                forall|c: u32|
                    m.contains_key(c) && c != cs ==> (#[trigger] self@[c]) == (ContainerView {
                        items: minus(m[c].items, indexed_in(idx, items@.take(i as int), c)),
                        ..m[c]
                    }),
                forall|s: u32| #[trigger]
                    self.item_index@.contains_key(s) <==> idx.contains_key(s) && !(has_serial(
                        items@.take(i as int),
                        s,
                    ) && idx[s] != cs),
                forall|s: u32| #[trigger]
                    self.item_index@.contains_key(s) ==> self.item_index@[s] == idx[s],
            decreases items@.len() - i,
        {
            let s: u32 = items[i].serial;
            let ghost before = self@;
            let ghost idx_before = self.item_index@;
            let place: Option<u32> = self.find_container_of_item(s);
            let mut taken = false;
            if let Some(old_cs) = place {
                if old_cs != container_serial {
                    take_out(&mut self.containers, old_cs, s);
                    self.item_index.remove(&s);
                    taken = true;
                }
            }
            proof {
                let pre = items@.take(i as int);
                let post = items@.take(i + 1);
                assert(post =~= pre.push(items@[i as int]));
                assert forall|t: u32| has_serial(post, t) <==> has_serial(pre, t) || t == s by {
                    lemma_push_members(pre, items@[i as int], t);
                }
                assert forall|c: u32| m.contains_key(c) && c != cs implies (#[trigger] self@[c])
                    == (ContainerView { items: minus(m[c].items, indexed_in(idx, post, c)), ..m[c]
                }) by {
                    let a = indexed_in(idx, pre, c);
                    let b = indexed_in(idx, post, c);
                    assert(before.contains_key(c));
                    if taken && c == idx[s] {
                        lemma_minus_twice(m[c].items, a, set![s]);
                        assert(b =~= a.union(set![s]));
                    } else {
                        assert(b =~= a);
                    }
                }
                assert forall|t: u32| #[trigger] self.item_index@.contains_key(t)
                    <==> idx.contains_key(t) && !(has_serial(post, t) && idx[t] != cs) by {
                    assert(idx_before.contains_key(t) <==> idx.contains_key(t) && !(has_serial(
                        pre,
                        t,
                    ) && idx[t] != cs));
                }
            }
            i += 1;
        }
        assert(items@.take(i as int) =~= items@);
        let ghost idx_mid = self.item_index@;
        let ghost list = items@;
        let ghost held = container_or_new(m, cs).items;
        match self.containers.get(&container_serial) {
            Some(c) => {
                strike_all(&mut self.item_index, &c.items);
            },
            None => {
                proof {
                    assert(index_without(idx_mid, held) =~= idx_mid);
                }
            },
        }
        assert(self.item_index@ == index_without(idx_mid, held));
        enter_all(&mut self.item_index, &items, container_serial);
        assert(self.item_index@ =~= index_with(index_without(idx, held), list, cs));
        set_content(&mut self.containers, container_serial, items);
        assert(self@ =~= replaced(m, cs, list, |c: u32| indexed_in(idx, list, c)));
        container_serial
    }

    /// Puts an item in a container. It leaves the container in which the index
    /// places it.
    pub fn ingest_item_upsert(&mut self, container_serial: u32, item: ContainerItem) -> (r: u32)
        ensures
            r == container_serial,
            final(self)@ == replaced(
                old(self)@,
                container_serial,
                upserted(container_or_new(old(self)@, container_serial).items, item),
                |c: u32| indexed_in(old(self).item_index@, seq![item], c),
            ),
            final(self).item_index@ == old(self).item_index@.insert(item.serial, container_serial),
    {
        let ghost m = self@;
        let ghost idx = self.item_index@;
        let s: u32 = item.serial;
        let place: Option<u32> = self.find_container_of_item(s);
        let mut taken = false;
        if let Some(old_cs) = place {
            if old_cs != container_serial {
                take_out(&mut self.containers, old_cs, s);
                self.item_index.remove(&s);
                taken = true;
            }
        }
        proof {
            let one = seq![item];
            assert forall|t: u32| has_serial(one, t) <==> t == s by {
                assert(one[0].serial == s);
            }
            assert forall|c: u32| m.contains_key(c) && c != container_serial implies (
            #[trigger] self@[c]) == (ContainerView {
                items: minus(m[c].items, indexed_in(idx, one, c)),
                ..m[c]
            }) by {
                if taken && c == idx[s] {
                    assert(indexed_in(idx, one, c) =~= set![s]);
                } else {
                    lemma_minus_absent(m[c].items, indexed_in(idx, one, c));
                }
            }
        }
        let ghost mid = self@;
        upsert_content(&mut self.containers, container_serial, item);
        self.item_index.insert(s, container_serial);
        proof {
            assert(self.item_index@ =~= idx.insert(s, container_serial));
            let want = replaced(
                m,
                container_serial,
                upserted(container_or_new(m, container_serial).items, item),
                |c: u32| indexed_in(idx, seq![item], c),
            );
            assert(self@.dom() =~= want.dom());
            assert forall|c: u32| want.contains_key(c) implies #[trigger] self@[c] == want[c] by {
                if c != container_serial {
                    assert(mid.contains_key(c));
                    assert(mid[c] == self@[c]);
                }
            }
            assert(self@ =~= want);
        }
        container_serial
    }

    /// The container that holds an item, by the index.
    pub fn find_container_of_item(&self, item_serial: u32) -> (r: Option<u32>)
        ensures
            r == if self.item_index@.contains_key(item_serial) {
                Some(self.item_index@[item_serial])
            } else {
                None
            },
    {
        match self.item_index.get(&item_serial) {
            Some(c) => Some(*c),
            None => None,
        }
    }

    /// Removes an item from the container in which the index places it.
    /// Returns whether the index knew it.
    pub fn remove_item(&mut self, item_serial: u32) -> (found: bool)
        ensures
            found == old(self).item_index@.contains_key(item_serial),
            final(self).item_index@ == old(self).item_index@.remove(item_serial),
            ({
                let c = old(self).item_index@[item_serial];
                final(self)@ == if found && old(self)@.contains_key(c) {
                    old(self)@.insert(
                        c,
                        ContainerView {
                            items: minus(old(self)@[c].items, set![item_serial]),
                            ..old(self)@[c]
                        },
                    )
                } else {
                    old(self)@
                }
            }),
    {
        let place: Option<u32> = self.find_container_of_item(item_serial);
        match place {
            Some(c) => {
                self.item_index.remove(&item_serial);
                take_out(&mut self.containers, c, item_serial);
                true
            },
            None => {
                assert(self.item_index@.remove(item_serial) =~= self.item_index@);
                false
            },
        }
    }

    /// Removes an item from a given container. Returns whether it was there; only
    /// then is its index entry struck, if it names that container.
    pub fn remove_item_from(&mut self, container_serial: u32, item_serial: u32) -> (found: bool)
        ensures
            found == (old(self)@.contains_key(container_serial) && has_serial(
                old(self)@[container_serial].items,
                item_serial,
            )),
            final(self).item_index@ == if found && old(self).item_index@.contains_key(item_serial)
                && old(self).item_index@[item_serial] == container_serial {
                old(self).item_index@.remove(item_serial)
            } else {
                old(self).item_index@
            },
            final(self)@ == if old(self)@.contains_key(container_serial) {
                old(self)@.insert(
                    container_serial,
                    ContainerView {
                        items: minus(old(self)@[container_serial].items, set![item_serial]),
                        ..old(self)@[container_serial]
                    },
                )
            } else {
                old(self)@
            },
    {
        let found = take_out(&mut self.containers, container_serial, item_serial);
        if found && self.find_container_of_item(item_serial) == Some(container_serial) {
            self.item_index.remove(&item_serial);
        }
        found
    }

    /// Builds the index anew from the containers. An item that lies in several
    /// containers is entered under one of them.
    pub fn rebuild_index(&mut self)
        ensures
            final(self)@ == old(self)@,
            final(self).containers == old(self).containers,
            forall|s: u32| #[trigger]
                final(self).item_index@.contains_key(s) <==> held_somewhere(old(self)@, s),
            forall|s: u32| #[trigger]
                final(self).item_index@.contains_key(s) ==> {
                    let c = final(self).item_index@[s];
                    old(self)@.contains_key(c) && has_serial(old(self)@[c].items, s)
                },
    {
        let ghost m = self@;
        self.item_index.clear();
        let keys = map_keys(&self.containers);
        let mut i: usize = 0;
        while i < keys.len()
            invariant
                i <= keys@.len(),
                self@ == m,
                self.containers == old(self).containers,
                forall|k: u32| #[trigger] keys@.contains(k) <==> m.contains_key(k),
                forall|s: u32| #[trigger]
                    self.item_index@.contains_key(s) <==> exists|j: int|
                        0 <= j < i && has_serial(m[#[trigger] keys@[j]].items, s),
                forall|s: u32| #[trigger]
                    self.item_index@.contains_key(s) ==> {
                        let c = self.item_index@[s];
                        m.contains_key(c) && has_serial(m[c].items, s)
                    },
            decreases keys@.len() - i,
        {
            let k: u32 = keys[i];
            let ghost prev = self.item_index@;
            assert(keys@.contains(k));
            match self.containers.get(&k) {
                Some(c) => {
                    enter_all(&mut self.item_index, &c.items, k);
                },
                None => {},
            }
            proof {
                assert forall|s: u32| #[trigger] self.item_index@.contains_key(s) <==> exists|
                    j: int,
                | 0 <= j < i + 1 && has_serial(m[#[trigger] keys@[j]].items, s) by {
                    if prev.contains_key(s) {
                        let j = choose|j: int|
                            0 <= j < i && has_serial(m[#[trigger] keys@[j]].items, s);
                        assert(has_serial(m[keys@[j]].items, s));
                    }
                    if has_serial(m[k].items, s) {
                        assert(has_serial(m[keys@[i as int]].items, s));
                    }
                }
            }
            i += 1;
        }
        proof {
            assert forall|s: u32| #[trigger] self.item_index@.contains_key(s) <==> held_somewhere(
                m,
                s,
            ) by {
                if held_somewhere(m, s) {
                    let c = choose|c: u32| m.contains_key(c) && has_serial((#[trigger] m[c]).items, s);
                    assert(keys@.contains(c));
                    let j = choose|j: int| 0 <= j < keys@.len() && keys@[j] == c;
                    assert(has_serial(m[keys@[j]].items, s));
                }
                if self.item_index@.contains_key(s) {
                    let c = self.item_index@[s];
                    assert(m.contains_key(c) && has_serial(m[c].items, s));
                }
            }
        }
    }

    /// A store of the given containers, with its index built.
    pub fn from_map(containers: HashMap<u32, ContainerInfo>) -> (s: HashContainerStore)
        ensures
            s.containers == containers,
            s@ == contents(containers@),
            forall|k: u32| #[trigger]
                s.item_index@.contains_key(k) <==> held_somewhere(s@, k),
            forall|k: u32| #[trigger]
                s.item_index@.contains_key(k) ==> {
                    let c = s.item_index@[k];
                    s@.contains_key(c) && has_serial(s@[c].items, k)
                },
    {
        let mut store = HashContainerStore { containers, item_index: HashMap::new() };
        store.rebuild_index();
        store
    }

    /// The containers of a session's store, with an index.
    pub fn from_store(store: ContainerStore) -> (s: HashContainerStore)
        ensures
            s@ == store@,
            forall|k: u32| #[trigger]
                s.item_index@.contains_key(k) <==> held_somewhere(s@, k),
            forall|k: u32| #[trigger]
                s.item_index@.contains_key(k) ==> {
                    let c = s.item_index@[k];
                    s@.contains_key(c) && has_serial(s@[c].items, k)
                },
    {
        HashContainerStore::from_map(store.containers)
    }
}

/// Containers after an item was removed from one of them.
pub open spec fn without_item(m: Map<u32, ContainerView>, cs: u32, s: u32) -> Map<
    u32,
    ContainerView,
> {
    if m.contains_key(cs) {
        m.insert(cs, ContainerView { items: minus(m[cs].items, set![s]), ..m[cs] })
    } else {
        m
    }
}

/// Where the items are after one was removed from a container: its place is struck
/// if it was there and its place is this container.
pub open spec fn places_without_item(
    m: Map<u32, ContainerView>,
    places: Map<u32, u32>,
    cs: u32,
    s: u32,
) -> Map<u32, u32> {
    if m.contains_key(cs) && has_serial(m[cs].items, s) && places.contains_key(s) && places[s]
        == cs {
        places.remove(s)
    } else {
        places
    }
}

/// Where the items are after a container was stored, in place of one with its serial
/// if there was one.
pub open spec fn places_with_container(
    m: Map<u32, ContainerView>,
    places: Map<u32, u32>,
    cs: u32,
    view: ContainerView,
) -> Map<u32, u32> {
    let kept = if m.contains_key(cs) {
        index_without(places, m[cs].items)
    } else {
        places
    };
    index_with(kept, view.items, cs)
}

/// Whether no item lies in two containers.
pub open spec fn items_apart(m: Map<u32, ContainerView>) -> bool {
    forall|s: u32, a: u32, b: u32|
        m.contains_key(a) && m.contains_key(b) && #[trigger] has_serial(m[a].items, s)
            && #[trigger] has_serial(m[b].items, s) ==> a == b
}

/// Law: a true index means that no item lies in two containers.
pub proof fn true_index_keeps_items_apart(m: Map<u32, ContainerView>, index: Map<u32, u32>)
    requires
        index_true(m, index),
    ensures
        items_apart(m),
{
    assert forall|s: u32, a: u32, b: u32|
        m.contains_key(a) && m.contains_key(b) && #[trigger] has_serial(m[a].items, s)
            && #[trigger] has_serial(m[b].items, s) implies a == b by {
        assert(entry_true(m, index, s, a));
        assert(entry_true(m, index, s, b));
    }
}

/// Law: an index built anew is true wherever no item lies in two containers.
pub proof fn rebuilt_index_is_true(m: Map<u32, ContainerView>, index: Map<u32, u32>)
    requires
        items_apart(m),
        forall|s: u32| #[trigger] index.contains_key(s) <==> held_somewhere(m, s),
        forall|s: u32| #[trigger]
            index.contains_key(s) ==> m.contains_key(index[s]) && has_serial(m[index[s]].items, s),
    ensures
        index_true(m, index),
{
    assert forall|s: u32, c: u32| #[trigger] entry_true(m, index, s, c) by {
        if m.contains_key(c) && has_serial(m[c].items, s) {
            assert(has_serial(m[c].items, s));
            assert(held_somewhere(m, s));
            assert(index.contains_key(s));
            assert(has_serial(m[index[s]].items, s));
        }
    }
}

/// Law: an ingested content keeps a true index true, so each item is in one
/// container at a time, and under a true index its items leave every other
/// container.
pub proof fn content_keeps_index(
    m: Map<u32, ContainerView>,
    index: Map<u32, u32>,
    cs: u32,
    items: Seq<ContainerItem>,
)
    requires
        index_true(m, index),
    ensures
        ({
            let after = replaced(m, cs, items, |c: u32| indexed_in(index, items, c));
            &&& index_true(
                after,
                index_with(index_without(index, container_or_new(m, cs).items), items, cs),
            )
            &&& after == replaced(m, cs, items, |c: u32| serials_of(items))
        }),
{
    let after = replaced(m, cs, items, |c: u32| indexed_in(index, items, c));
    let held = container_or_new(m, cs).items;
    let index2 = index_with(index_without(index, held), items, cs);
    assert forall|s: u32, c: u32| #[trigger] entry_true(after, index2, s, c) by {
        assert(entry_true(m, index, s, c));
        assert(entry_true(m, index, s, cs));
        if c != cs && m.contains_key(c) {
            lemma_minus_members(m[c].items, indexed_in(index, items, c), s);
        }
    }
    assert forall|c: u32| m.contains_key(c) && c != cs implies minus(
        (#[trigger] m[c]).items,
        indexed_in(index, items, c),
    ) == minus(m[c].items, serials_of(items)) by {
        let a = indexed_in(index, items, c);
        let b = serials_of(items);
        let rest = b.difference(a);
        let kept = minus(m[c].items, a);
        assert forall|i: int| 0 <= i < kept.len() implies !rest.contains(
            (#[trigger] kept[i]).serial,
        ) by {
            let s = kept[i].serial;
            assert(has_serial(kept, s));
            lemma_minus_members(m[c].items, a, s);
            assert(entry_true(m, index, s, c));
        }
        lemma_minus_absent(kept, rest);
        lemma_minus_twice(m[c].items, a, rest);
        assert(a.union(rest) =~= b);
    }
    assert(after =~= replaced(m, cs, items, |c: u32| serials_of(items)));
}

/// Law: an upserted item keeps a true index true, so that it is found in the
/// container it was put in and nowhere else.
pub proof fn upsert_keeps_index(
    m: Map<u32, ContainerView>,
    index: Map<u32, u32>,
    cs: u32,
    item: ContainerItem,
)
    requires
        index_true(m, index),
    ensures
        index_true(
            replaced(
                m,
                cs,
                upserted(container_or_new(m, cs).items, item),
                |c: u32| indexed_in(index, seq![item], c),
            ),
            index.insert(item.serial, cs),
        ),
{
    let held = container_or_new(m, cs).items;
    let after = replaced(
        m,
        cs,
        upserted(held, item),
        |c: u32| indexed_in(index, seq![item], c),
    );
    let index2 = index.insert(item.serial, cs);
    assert forall|s: u32| has_serial(seq![item], s) <==> s == item.serial by {
        assert(seq![item][0].serial == item.serial);
    }
    assert forall|s: u32, c: u32| #[trigger] entry_true(after, index2, s, c) by {
        assert(entry_true(m, index, s, c));
        assert(entry_true(m, index, s, cs));
        lemma_upserted_members(held, item, s);
        if c != cs && m.contains_key(c) {
            lemma_minus_members(m[c].items, indexed_in(index, seq![item], c), s);
        }
    }
}

/// Law: to remove an item under a true index leaves it nowhere and keeps the
/// index true.
pub proof fn removal_keeps_index(m: Map<u32, ContainerView>, index: Map<u32, u32>, s: u32)
    requires
        index_true(m, index),
        index.contains_key(s),
    ensures
        ({
            let c = index[s];
            let after = m.insert(
                c,
                ContainerView { items: minus(m[c].items, set![s]), ..m[c] },
            );
            &&& m.contains_key(c)
            &&& index_true(after, index.remove(s))
            &&& !held_somewhere(after, s)
        }),
{
    let c = index[s];
    assert(entry_true(m, index, s, c));
    let after = m.insert(c, ContainerView { items: minus(m[c].items, set![s]), ..m[c] });
    let index2 = index.remove(s);
    assert forall|t: u32, d: u32| #[trigger] entry_true(after, index2, t, d) by {
        assert(entry_true(m, index, t, d));
        assert(entry_true(m, index, s, d));
        lemma_minus_members(m[c].items, set![s], t);
    }
    if held_somewhere(after, s) {
        let d = choose|d: u32| after.contains_key(d) && has_serial((#[trigger] after[d]).items, s);
        assert(entry_true(after, index2, s, d));
    }
}

/// Law: to remove an item from a given container, under a true index, leaves it not
/// there and keeps the index true. Where the container does not hold the item, the
/// index still places it where it is.
pub proof fn removal_from_keeps_index(
    m: Map<u32, ContainerView>,
    index: Map<u32, u32>,
    cs: u32,
    s: u32,
)
    requires
        index_true(m, index),
    ensures
        index_true(without_item(m, cs, s), places_without_item(m, index, cs, s)),
        without_item(m, cs, s).contains_key(cs) ==> !has_serial(
            without_item(m, cs, s)[cs].items,
            s,
        ),
        !(m.contains_key(cs) && has_serial(m[cs].items, s)) ==> without_item(m, cs, s) == m
            && places_without_item(m, index, cs, s) == index,
{
    let after = without_item(m, cs, s);
    let index2 = places_without_item(m, index, cs, s);
    assert(entry_true(m, index, s, cs));
    assert forall|t: u32, d: u32| #[trigger] entry_true(after, index2, t, d) by {
        assert(entry_true(m, index, t, d));
        assert(entry_true(m, index, s, d));
        if m.contains_key(cs) {
            lemma_minus_members(m[cs].items, set![s], t);
        }
    }
    if m.contains_key(cs) {
        lemma_minus_members(m[cs].items, set![s], s);
        if !has_serial(m[cs].items, s) {
            lemma_minus_absent(m[cs].items, set![s]);
            assert(after =~= m);
        }
    }
}

/// Law: to store a container under a true index keeps the index true where its items
/// lie in no other container. The items of a container that it replaces are placed
/// nowhere, unless it holds them too.
pub proof fn insertion_keeps_index(
    m: Map<u32, ContainerView>,
    index: Map<u32, u32>,
    cs: u32,
    view: ContainerView,
)
    requires
        index_true(m, index),
        forall|s: u32, c: u32|
            #![trigger has_serial(m[c].items, s)]
            m.contains_key(c) && c != cs && has_serial(view.items, s) ==> !has_serial(
                m[c].items,
                s,
            ),
    ensures
        index_true(m.insert(cs, view), places_with_container(m, index, cs, view)),
        forall|s: u32|
            #![trigger has_serial(view.items, s)]
            m.contains_key(cs) && has_serial(m[cs].items, s) && !has_serial(view.items, s)
                ==> !places_with_container(m, index, cs, view).contains_key(s),
{
    let after = m.insert(cs, view);
    let index2 = places_with_container(m, index, cs, view);
    assert forall|s: u32, c: u32| #[trigger] entry_true(after, index2, s, c) by {
        assert(entry_true(m, index, s, c));
        assert(entry_true(m, index, s, cs));
    }
}

/// Container storage of a zone.
pub trait ZoneContainers: Sized {
    /// What is stored.
    spec fn stored(&self) -> Map<u32, ContainerView>;

    /// Where the storage places each item.
    spec fn places(&self) -> Map<u32, u32>;

    /// Whether the storage keeps anything at all.
    spec fn keeps(&self) -> bool;

    /// Whether the storage notes where its items are. One that does not places nothing.
    spec fn indexes(&self) -> bool;

    /// The container with this serial.
    fn get(&self, serial: u32) -> (r: Option<&ContainerInfo>)
        ensures
            r is Some <==> self.stored().contains_key(serial),
            r matches Some(c) ==> c@ == self.stored()[serial],
    ;

    /// Access to the container with this serial.
    fn get_mut(&mut self, serial: u32) -> (r: Option<&mut ContainerInfo>)
        ensures
            final(self).places() == old(self).places(),
            final(self).keeps() == old(self).keeps(),
            final(self).indexes() == old(self).indexes(),
            match r {
                Some(c) => {
                    &&& old(self).stored().contains_key(serial)
                    &&& (*c)@ == old(self).stored()[serial]
                    &&& final(self).stored() == old(self).stored().insert(serial, (*final(c))@)
                },
                None => !old(self).stored().contains_key(serial) && final(self).stored()
                    == old(self).stored(),
            },
    ;

    /// Stores a container under a serial, and places its items there if places are noted.
    /// The items of a container that it replaces lose their places.
    fn insert(&mut self, serial: u32, info: ContainerInfo)
        ensures
            final(self).keeps() == old(self).keeps(),
            final(self).indexes() == old(self).indexes(),
            old(self).keeps() ==> final(self).stored() == old(self).stored().insert(serial, info@),
            old(self).keeps() ==> final(self).places() == if old(self).indexes() {
                places_with_container(old(self).stored(), old(self).places(), serial, info@)
            } else {
                old(self).places()
            },
            !old(self).keeps() ==> *final(self) == *old(self),
    ;

    /// Removes a container, and its items from their places.
    fn remove(&mut self, serial: u32)
        ensures
            final(self).keeps() == old(self).keeps(),
            final(self).indexes() == old(self).indexes(),
            final(self).stored() == old(self).stored().remove(serial),
            final(self).places() == if old(self).stored().contains_key(serial) {
                index_without(old(self).places(), old(self).stored()[serial].items)
            } else {
                old(self).places()
            },
    ;

    /// Removes a container, and its items from their places, and hands it out.
    fn remove_entry(&mut self, serial: u32) -> (r: Option<ContainerInfo>)
        ensures
            final(self).keeps() == old(self).keeps(),
            final(self).indexes() == old(self).indexes(),
            r is Some <==> old(self).stored().contains_key(serial),
            r matches Some(c) ==> c@ == old(self).stored()[serial],
            final(self).stored() == old(self).stored().remove(serial),
            final(self).places() == if old(self).stored().contains_key(serial) {
                index_without(old(self).places(), old(self).stored()[serial].items)
            } else {
                old(self).places()
            },
    ;

    /// Removes an item from a container, and from its place if that is this
    /// container. Returns whether it was there.
    fn remove_item_from(&mut self, container_serial: u32, item_serial: u32) -> (found: bool)
        ensures
            final(self).keeps() == old(self).keeps(),
            final(self).indexes() == old(self).indexes(),
            found == (old(self).stored().contains_key(container_serial) && has_serial(
                old(self).stored()[container_serial].items,
                item_serial,
            )),
            final(self).stored() == without_item(
                old(self).stored(),
                container_serial,
                item_serial,
            ),
            final(self).places() == places_without_item(
                old(self).stored(),
                old(self).places(),
                container_serial,
                item_serial,
            ),
    ;

    /// Removes everything.
    fn clear(&mut self)
        ensures
            final(self).keeps() == old(self).keeps(),
            final(self).indexes() == old(self).indexes(),
            final(self).stored() == Map::<u32, ContainerView>::empty(),
            final(self).places() == Map::<u32, u32>::empty(),
    ;

    /// Number of containers.
    fn len(&self) -> (n: usize)
        ensures
            n == self.stored().dom().len(),
    ;

    /// Whether there is no container.
    fn is_empty(&self) -> (b: bool)
        ensures
            b == (self.stored().dom().len() == 0),
    {
        self.len() == 0
    }

    /// The container in which the storage places an item.
    fn find_container_of_item(&self, item_serial: u32) -> (r: Option<u32>)
        ensures
            r == if self.places().contains_key(item_serial) {
                Some(self.places()[item_serial])
            } else {
                None
            },
    ;
}

/// Storage that keeps no containers.
#[derive(Debug, Clone, Copy, PartialEq, Eq, Structural)]
pub struct NoContainers;

impl Default for NoContainers {
    fn default() -> (c: NoContainers) {
        NoContainers
    }
}

impl ZoneContainers for NoContainers {
    open spec fn stored(&self) -> Map<u32, ContainerView> {
        Map::empty()
    }

    open spec fn places(&self) -> Map<u32, u32> {
        Map::empty()
    }

    open spec fn keeps(&self) -> bool {
        false
    }

    open spec fn indexes(&self) -> bool {
        false
    }

    fn get(&self, _serial: u32) -> (r: Option<&ContainerInfo>) {
        None
    }

    fn get_mut(&mut self, _serial: u32) -> (r: Option<&mut ContainerInfo>) {
        None
    }

    fn insert(&mut self, _serial: u32, _info: ContainerInfo) {
    }

    fn remove(&mut self, _serial: u32) {
        assert(self.stored().remove(_serial) =~= self.stored());
    }

    fn remove_entry(&mut self, _serial: u32) -> (r: Option<ContainerInfo>) {
        assert(self.stored().remove(_serial) =~= self.stored());
        None
    }

    fn remove_item_from(&mut self, _container_serial: u32, _item_serial: u32) -> (found: bool) {
        false
    }

    fn clear(&mut self) {
    }

    fn len(&self) -> (n: usize) {
        0
    }

    fn is_empty(&self) -> (b: bool) {
        true
    }

    fn find_container_of_item(&self, _item_serial: u32) -> (r: Option<u32>) {
        None
    }
}

impl ZoneContainers for HashContainerStore {
    open spec fn stored(&self) -> Map<u32, ContainerView> {
        self@
    }

    open spec fn places(&self) -> Map<u32, u32> {
        self.item_index@
    }

    open spec fn keeps(&self) -> bool {
        true
    }

    open spec fn indexes(&self) -> bool {
        true
    }

    fn get(&self, serial: u32) -> (r: Option<&ContainerInfo>) {
        self.containers.get(&serial)
    }

    fn get_mut(&mut self, serial: u32) -> (r: Option<&mut ContainerInfo>) {
        match map_get_mut(&mut self.containers, serial) {
            Some(c) => {
                proof {
                    lemma_contents(old(self).containers@, serial, *final(c));
                }
                Some(c)
            },
            None => None,
        }
    }

    fn insert(&mut self, serial: u32, info: ContainerInfo) {
        match self.containers.get(&serial) {
            Some(c) => {
                strike_all(&mut self.item_index, &c.items);
            },
            None => {},
        }
        enter_all(&mut self.item_index, &info.items, serial);
        proof {
            lemma_contents(self.containers@, serial, info);
        }
        self.containers.insert(serial, info);
    }

    fn remove(&mut self, serial: u32) {
        let _ = ZoneContainers::remove_entry(self, serial);
    }

    fn remove_entry(&mut self, serial: u32) -> (r: Option<ContainerInfo>) {
        match self.containers.get(&serial) {
            Some(c) => {
                strike_all(&mut self.item_index, &c.items);
            },
            None => {},
        }
        let ghost before = self.containers@;
        let r = self.containers.remove(&serial);
        assert(contents(before.remove(serial)) =~= contents(before).remove(serial));
        r
    }

    fn remove_item_from(&mut self, container_serial: u32, item_serial: u32) -> (found: bool) {
        HashContainerStore::remove_item_from(self, container_serial, item_serial)
    }

    fn clear(&mut self) {
        self.containers.clear();
        self.item_index.clear();
        assert(self@ =~= Map::<u32, ContainerView>::empty());
    }

    fn len(&self) -> (n: usize) {
        assert(self@.dom() =~= self.containers@.dom());
        self.containers.len()
    }

    fn find_container_of_item(&self, item_serial: u32) -> (r: Option<u32>) {
        match self.item_index.get(&item_serial) {
            Some(c) => Some(*c),
            None => None,
        }
    }
}

/// Law: a container taken out of a storage with a true index and put back
/// gives the storage it was taken from.
pub proof fn taken_out_and_put_back(m: Map<u32, ContainerView>, index: Map<u32, u32>, cs: u32)
    requires
        index_true(m, index),
        m.contains_key(cs),
    ensures
        m.remove(cs).insert(cs, m[cs]) == m,
        places_with_container(m.remove(cs), index_without(index, m[cs].items), cs, m[cs])
            == index,
        index_true(m.remove(cs), index_without(index, m[cs].items)),
{
    assert(m.remove(cs).insert(cs, m[cs]) =~= m);
    let items = m[cs].items;
    assert forall|s: u32| has_serial(items, s) implies index.contains_key(s) && index[s] == cs by {
        assert(entry_true(m, index, s, cs));
    }
    assert(index_with(index_without(index, items), items, cs) =~= index);
    let m2 = m.remove(cs);
    let i2 = index_without(index, items);
    assert forall|s: u32, c: u32| #[trigger] entry_true(m2, i2, s, c) by {
        assert(entry_true(m, index, s, c));
        assert(entry_true(m, index, s, cs));
    }
}

} // verus!

//! Properties of items, kept by serial.
//!
//! What a property is, the game decides: the storage is generic in its value.

use std::collections::HashMap;

use vstd::prelude::*;

use crate::collections::{map_get_mut, map_keys};

verus! {

broadcast use vstd::std_specs::hash::group_hash_axioms;

/// Item property storage of a zone.
pub trait ZoneItemProps: Sized {
    /// What is kept of one item.
    type Value;

    /// What is stored.
    spec fn stored(&self) -> Map<u32, Self::Value>;

    /// Whether the storage keeps anything at all.
    spec fn keeps(&self) -> bool;

    /// The properties of an item.
    fn get(&self, serial: u32) -> (r: Option<&Self::Value>)
        ensures
            r is Some <==> self.stored().contains_key(serial),
            r matches Some(v) ==> *v == self.stored()[serial],
    ;

    /// Access to the properties of an item.
    fn get_mut(&mut self, serial: u32) -> (r: Option<&mut Self::Value>)
        ensures
            final(self).keeps() == old(self).keeps(),
            match r {
                Some(v) => {
                    &&& old(self).stored().contains_key(serial)
                    &&& *v == old(self).stored()[serial]
                    &&& final(self).stored() == old(self).stored().insert(serial, *final(v))
                },
                None => !old(self).stored().contains_key(serial) && final(self).stored()
                    == old(self).stored(),
            },
    ;

    /// Sets the properties of an item.
    fn insert(&mut self, serial: u32, value: Self::Value)
        ensures
            final(self).keeps() == old(self).keeps(),
            final(self).stored() == if old(self).keeps() {
                old(self).stored().insert(serial, value)
            } else {
                old(self).stored()
            },
    ;

    /// Removes the properties of an item, and hands them out.
    fn remove(&mut self, serial: u32) -> (r: Option<Self::Value>)
        ensures
            final(self).keeps() == old(self).keeps(),
            r == if old(self).stored().contains_key(serial) {
                Some(old(self).stored()[serial])
            } else {
                None
            },
            final(self).stored() == old(self).stored().remove(serial),
    ;

    /// Removes all properties.
    fn clear(&mut self)
        ensures
            final(self).keeps() == old(self).keeps(),
            final(self).stored() == Map::<u32, Self::Value>::empty(),
    ;

    /// Number of items with properties.
    fn len(&self) -> (n: usize)
        ensures
            n == self.stored().dom().len(),
    ;

    /// Whether no item has properties.
    fn is_empty(&self) -> (b: bool)
        ensures
            b == (self.stored().dom().len() == 0),
    ;

    /// All items with their properties, each once, in no particular order.
    fn iter(&self) -> (r: Vec<(u32, &Self::Value)>)
        ensures
            r@.len() == self.stored().dom().len(),
            forall|i: int|
                0 <= i < r@.len() ==> self.stored().contains_key((#[trigger] r@[i]).0) && *r@[i].1
                    == self.stored()[r@[i].0],
            forall|i: int, j: int|
                0 <= i < j < r@.len() ==> (#[trigger] r@[i]).0 != (#[trigger] r@[j]).0,
    ;

    /// Whether one value is a copy of the other.
    spec fn copy_of(&self, value: Self::Value, copy: Self::Value) -> bool;

    /// A copy of all entries.
    fn to_map(&self) -> (m: HashMap<u32, Self::Value>)
        ensures
            m@.dom() == self.stored().dom(),
            forall|k: u32| #[trigger]
                m@.contains_key(k) ==> self.copy_of(self.stored()[k], m@[k]),
    ;
}

/// Storage that keeps no properties.
#[derive(Debug, Clone, Copy, PartialEq, Eq, Structural)]
pub struct NoItemProps;

impl Default for NoItemProps {
    fn default() -> (c: NoItemProps) {
        NoItemProps
    }
}

impl ZoneItemProps for NoItemProps {
    type Value = ();

    open spec fn stored(&self) -> Map<u32, ()> {
        Map::empty()
    }

    open spec fn keeps(&self) -> bool {
        false
    }

    open spec fn copy_of(&self, value: (), copy: ()) -> bool {
        true
    }

    fn get(&self, _serial: u32) -> (r: Option<&()>) {
        None
    }

    fn get_mut(&mut self, _serial: u32) -> (r: Option<&mut ()>) {
        None
    }

    fn insert(&mut self, _serial: u32, _value: ()) {
    }

    fn remove(&mut self, _serial: u32) -> (r: Option<()>) {
        assert(self.stored().remove(_serial) =~= self.stored());
        None
    }

    fn clear(&mut self) {
    }

    fn len(&self) -> (n: usize) {
        0
    }

    fn is_empty(&self) -> (b: bool) {
        true
    }

    fn iter(&self) -> (r: Vec<(u32, &())>) {
        Vec::new()
    }

    fn to_map(&self) -> (m: HashMap<u32, ()>) {
        let m = HashMap::new();
        assert(m@.dom() =~= self.stored().dom());
        m
    }
}

/// Storage of properties in a hash map.
#[derive(Debug)]
pub struct HashItemProps<V: Clone>(pub HashMap<u32, V>);

impl<V: Clone> Default for HashItemProps<V> {
    fn default() -> (p: HashItemProps<V>)
        ensures
            p.0@ == Map::<u32, V>::empty(),
    {
        HashItemProps(HashMap::new())
    }
}

impl<V: Clone> ZoneItemProps for HashItemProps<V> {
    type Value = V;

    open spec fn stored(&self) -> Map<u32, V> {
        self.0@
    }

    open spec fn keeps(&self) -> bool {
        true
    }

    open spec fn copy_of(&self, value: V, copy: V) -> bool {
        cloned(value, copy)
    }

    fn get(&self, serial: u32) -> (r: Option<&V>) {
        self.0.get(&serial)
    }

    fn get_mut(&mut self, serial: u32) -> (r: Option<&mut V>) {
        map_get_mut(&mut self.0, serial)
    }

    fn insert(&mut self, serial: u32, value: V) {
        self.0.insert(serial, value);
    }

    fn remove(&mut self, serial: u32) -> (r: Option<V>) {
        let r = self.0.remove(&serial);
        assert(!old(self).0@.contains_key(serial) ==> old(self).0@.remove(serial)
            =~= old(self).0@);
        r
    }

    fn clear(&mut self) {
        self.0.clear();
    }

    fn len(&self) -> (n: usize) {
        self.0.len()
    }

    fn is_empty(&self) -> (b: bool) {
        self.0.len() == 0
    }

    fn iter(&self) -> (r: Vec<(u32, &V)>) {
        let keys = map_keys(&self.0);
        let mut out: Vec<(u32, &V)> = Vec::new();
        let mut i: usize = 0;
        while i < keys.len()
            invariant
                i <= keys@.len(),
                keys@.no_duplicates(),
                forall|k: u32| #[trigger] keys@.contains(k) <==> self.0@.contains_key(k),
                out@.len() == i,
                forall|j: int|
                    0 <= j < i ==> (#[trigger] out@[j]).0 == keys@[j] && self.0@.contains_key(
                        keys@[j],
                    ) && *out@[j].1 == self.0@[keys@[j]],
            decreases keys@.len() - i,
        {
            assert(keys@.contains(keys@[i as int]));
            match self.0.get(&keys[i]) {
                Some(v) => {
                    out.push((keys[i], v));
                },
                None => {},
            }
            i += 1;
        }
        out
    }

    fn to_map(&self) -> (m: HashMap<u32, V>) {
        let keys = map_keys(&self.0);
        let mut m: HashMap<u32, V> = HashMap::new();
        let mut i: usize = 0;
        while i < keys.len()
            invariant
                i <= keys@.len(),
                keys@.no_duplicates(),
                forall|k: u32| #[trigger] keys@.contains(k) <==> self.0@.contains_key(k),
                forall|k: u32| #[trigger]
                    m@.contains_key(k) <==> exists|j: int| 0 <= j < i && #[trigger] keys@[j] == k,
                forall|k: u32| #[trigger] m@.contains_key(k) ==> cloned(self.0@[k], m@[k]),
            decreases keys@.len() - i,
        {
            let ghost before = m@;
            let k: u32 = keys[i];
            assert(keys@.contains(keys@[i as int]));
            match self.0.get(&k) {
                Some(v) => {
                    let copy = v.clone();
                    m.insert(k, copy);
                },
                None => {},
            }
            proof {
                assert forall|c: u32| #[trigger] m@.contains_key(c) <==> exists|j: int|
                    0 <= j < i + 1 && #[trigger] keys@[j] == c by {
                    if c == k {
                        assert(keys@[i as int] == c);
                    } else if before.contains_key(c) {
                        let j = choose|j: int| 0 <= j < i && #[trigger] keys@[j] == c;
                        assert(keys@[j] == c);
                    }
                }
            }
            i += 1;
        }
        proof {
            assert forall|k: u32| m@.dom().contains(k) <==> self.0@.dom().contains(k) by {
                assert(keys@.contains(k) <==> self.0@.contains_key(k));
                assert(m@.contains_key(k) <==> exists|j: int|
                    0 <= j < i && #[trigger] keys@[j] == k);
            }
            assert(m@.dom() =~= self.0@.dom());
        }
        m
    }
}

} // verus!

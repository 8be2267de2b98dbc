//! Small helpers around the standard maps and pointers.

use std::collections::hash_map::Entry;
use std::collections::HashMap;
use std::hash::Hash;
use std::sync::Arc;

use vstd::prelude::*;
use vstd::set_lib::{lemma_int_range, lemma_set_subset_finite, set_int_range};
use vstd::std_specs::hash::obeys_key_model;
use vstd::std_specs::iter::IteratorSpec;

verus! {

broadcast use vstd::std_specs::hash::group_hash_axioms;

/// Access to the value of a key.
pub fn map_get_mut<K: Eq + Hash, V>(m: &mut HashMap<K, V>, k: K) -> (r: Option<&mut V>)
    requires
        obeys_key_model::<K>(),
    ensures
        match r {
            Some(v) => {
                &&& old(m)@.contains_key(k)
                &&& *v == old(m)@[k]
                &&& final(m)@ == old(m)@.insert(k, *final(v))
            },
            None => {
                &&& !old(m)@.contains_key(k)
                &&& final(m)@ == old(m)@
            },
        },
{
    match m.entry(k) {
        Entry::Occupied(e) => Some(e.into_mut()),
        Entry::Vacant(_) => {
            assert(old(m)@.remove(k) =~= old(m)@);
            None
        },
    }
}

/// The keys of a map, each once, in no particular order.
pub fn map_keys<K: Eq + Hash + Copy, V>(m: &HashMap<K, V>) -> (keys: Vec<K>)
    requires
        obeys_key_model::<K>(),
    ensures
        keys@.no_duplicates(),
        keys@.to_set() == m@.dom(),
        forall|k: K| #[trigger] keys@.contains(k) <==> m@.contains_key(k),
        keys@.len() == m@.dom().len(),
{
    let mut keys: Vec<K> = Vec::new();
    let ghost all = m.keys().remaining().unref();
    for k in it: m.keys()
        invariant
            it.seq().unref() == all,
            keys@ == all.take(it.index() as int),
    {
        keys.push(*k);
        assert(keys@ =~= all.take(it.index() + 1));
    }
    proof {
        assert(keys@ =~= all);
        assert forall|i: int, j: int| 0 <= i < j < all.len() implies all[i] != all[j] by {
            let raw = m.keys().remaining();
            assert(*raw[i] == all[i] && *raw[j] == all[j]);
        }
        assert forall|k: K| #[trigger] keys@.contains(k) <==> m@.contains_key(k) by {
            assert(keys@.to_set().contains(k) <==> keys@.contains(k));
        }
    }
    keys
}

/// Calls `std::sync::Arc::clone`: another pointer to the same value.
#[verifier::external_body]
pub(crate) fn share<T>(a: &Arc<T>) -> (r: Arc<T>)
    ensures
        r == *a,
{
    Arc::clone(a)
}

/// Whether each number is greater than the one before.
pub open spec fn ascending(s: Seq<u64>) -> bool {
    forall|i: int, j: int| 0 <= i < j < s.len() ==> #[trigger] s[i] < #[trigger] s[j]
}

/// Whether the sequence lists the set in ascending order.
pub open spec fn lists_up(s: Seq<u64>, keys: Set<u64>) -> bool {
    &&& ascending(s)
    &&& forall|k: u64| #[trigger] s.contains(k) <==> keys.contains(k)
}

/// The numbers of a set in ascending order.
pub open spec fn in_order(keys: Set<u64>) -> Seq<u64> {
    choose|s: Seq<u64>| lists_up(s, keys)
}

proof fn lemma_one_order(a: Seq<u64>, b: Seq<u64>, keys: Set<u64>)
    requires
        lists_up(a, keys),
        lists_up(b, keys),
    ensures
        a == b,
    decreases a.len(),
{
    if a.len() == 0 {
        if b.len() > 0 {
            assert(b.contains(b[0]));
            assert(a.contains(b[0]));
        }
        assert(a =~= b);
    } else {
        let x = a.last();
        assert(a.contains(x)) by {
            assert(a[a.len() - 1] == x);
        }
        assert(b.contains(x));
        let y = b.last();
        assert(b.contains(y)) by {
            assert(b[b.len() - 1] == y);
        }
        assert(a.contains(y));
        let i = choose|i: int| 0 <= i < a.len() && a[i] == y;
        let j = choose|j: int| 0 <= j < b.len() && b[j] == x;
        assert(y <= x);
        assert(x <= y);
        let less = keys.remove(x);
        lemma_drop_greatest(a, keys);
        lemma_drop_greatest(b, keys);
        lemma_one_order(a.drop_last(), b.drop_last(), less);
        assert(a =~= a.drop_last().push(x));
        assert(b =~= b.drop_last().push(x));
    }
}

proof fn lemma_drop_greatest(a: Seq<u64>, keys: Set<u64>)
    requires
        lists_up(a, keys),
        a.len() > 0,
    ensures
        lists_up(a.drop_last(), keys.remove(a.last())),
{
    let d = a.drop_last();
    assert forall|k: u64| #[trigger] d.contains(k) <==> keys.remove(a.last()).contains(k) by {
        if d.contains(k) {
            let i = choose|i: int| 0 <= i < d.len() && d[i] == k;
            assert(a[i] == k);
            assert(a[i] < a[a.len() - 1]);
            assert(a.contains(k));
        }
        if keys.contains(k) && k != a.last() {
            assert(a.contains(k));
            let i = choose|i: int| 0 <= i < a.len() && a[i] == k;
            assert(d[i] == k);
        }
    }
}

/// Numbers in ascending order.
fn sort_up(unsorted: &Vec<u64>) -> (keys: Vec<u64>)
    requires
        unsorted@.no_duplicates(),
    ensures
        lists_up(keys@, unsorted@.to_set()),
{
    let mut keys: Vec<u64> = Vec::new();
    let mut i: usize = 0;
    while i < unsorted.len()
        invariant
            i <= unsorted@.len(),
            unsorted@.no_duplicates(),
            ascending(keys@),
            forall|k: u64| #[trigger]
                keys@.contains(k) <==> unsorted@.take(i as int).contains(k),
        decreases unsorted@.len() - i,
    {
        let k: u64 = unsorted[i];
        let ghost before = keys@;
        let ghost pre = unsorted@.take(i as int);
        proof {
            assert(!pre.contains(k));
            assert(!before.contains(k));
        }
        let mut p: usize = keys.len();
        while p > 0 && keys[p - 1] > k
            invariant
                p <= keys@.len(),
                keys@ == before,
                forall|j: int| p <= j < before.len() ==> k < #[trigger] before[j],
            decreases p,
        {
            p = p - 1;
        }
        keys.insert(p, k);
        proof {
            if p > 0 {
                assert(before[p - 1] != k);
            }
            assert(keys@ == before.insert(p as int, k));
            assert(ascending(keys@));
            assert(unsorted@.take(i + 1) =~= pre.push(k));
            assert forall|c: u64| #[trigger] keys@.contains(c) <==> unsorted@.take(i + 1).contains(
                c,
            ) by {
                let post = unsorted@.take(i + 1);
                if keys@.contains(c) {
                    let j = choose|j: int| 0 <= j < keys@.len() && keys@[j] == c;
                    if j == p {
                        assert(post[i as int] == c);
                    } else {
                        let q = if j < p {
                            j
                        } else {
                            j - 1
                        };
                        assert(before[q] == c);
                        assert(before.contains(c));
                        assert(pre.contains(c));
                        let r = choose|r: int| 0 <= r < pre.len() && pre[r] == c;
                        assert(post[r] == c);
                    }
                }
                if post.contains(c) {
                    let r = choose|r: int| 0 <= r < post.len() && post[r] == c;
                    if r == i {
                        assert(keys@[p as int] == c);
                    } else {
                        assert(pre[r] == c);
                        assert(before.contains(c));
                        let q = choose|q: int| 0 <= q < before.len() && before[q] == c;
                        if q < p {
                            assert(keys@[q] == c);
                        } else {
                            assert(keys@[q + 1] == c);
                        }
                    }
                }
            }
        }
        i += 1;
    }
    proof {
        assert(unsorted@.take(i as int) =~= unsorted@);
        assert forall|k: u64| #[trigger] keys@.contains(k) <==> unsorted@.to_set().contains(k) by {
            assert(unsorted@.contains(k) <==> unsorted@.to_set().contains(k));
        }
    }
    keys
}

/// The keys of a map in ascending order.
pub fn map_keys_in_order<V>(m: &HashMap<u64, V>) -> (keys: Vec<u64>)
    ensures
        keys@ == in_order(m@.dom()),
        lists_up(keys@, m@.dom()),
{
    let unsorted = map_keys(m);
    let keys = sort_up(&unsorted);
    proof {
        lemma_one_order(keys@, in_order(m@.dom()), m@.dom());
    }
    keys
}

/// The serials as wider numbers.
pub open spec fn widened(s: Seq<u32>) -> Seq<u64> {
    s.map_values(|x: u32| x as u64)
}

/// Whether the sequence lists the set of serials in ascending order.
pub open spec fn lists_serials(s: Seq<u32>, keys: Set<u32>) -> bool {
    &&& forall|i: int, j: int| 0 <= i < j < s.len() ==> #[trigger] s[i] < #[trigger] s[j]
    &&& forall|k: u32| #[trigger] s.contains(k) <==> keys.contains(k)
}

/// The serials of a set in ascending order.
pub open spec fn serials_up(keys: Set<u32>) -> Seq<u32> {
    choose|s: Seq<u32>| lists_serials(s, keys)
}

proof fn lemma_one_serial_order(a: Seq<u32>, b: Seq<u32>, keys: Set<u32>)
    requires
        lists_serials(a, keys),
        lists_serials(b, keys),
    ensures
        a == b,
{
    let wide = widened(a).to_set();
    let wa = widened(a);
    let wb = widened(b);
    assert forall|k: u64| #[trigger] wa.contains(k) <==> wide.contains(k) by {}
    assert forall|k: u64| #[trigger] wb.contains(k) <==> wide.contains(k) by {
        if wb.contains(k) {
            let i = choose|i: int| 0 <= i < wb.len() && wb[i] == k;
            assert(b.contains(b[i]));
            assert(a.contains(b[i]));
            let j = choose|j: int| 0 <= j < a.len() && a[j] == b[i];
            assert(wa[j] == k);
        }
        if wa.contains(k) {
            let i = choose|i: int| 0 <= i < wa.len() && wa[i] == k;
            assert(a.contains(a[i]));
            assert(b.contains(a[i]));
            let j = choose|j: int| 0 <= j < b.len() && b[j] == a[i];
            assert(wb[j] == k);
        }
    }
    lemma_one_order(wa, wb, wide);
    assert forall|i: int| 0 <= i < a.len() implies a[i] == b[i] by {
        assert(wa[i] == wb[i]);
    }
    assert(wa.len() == wb.len());
    assert(a =~= b);
}

/// The serials of a map in ascending order.
pub fn serials_in_order<V>(m: &HashMap<u32, V>) -> (keys: Vec<u32>)
    ensures
        keys@ == serials_up(m@.dom()),
        lists_serials(keys@, m@.dom()),
        keys@.no_duplicates(),
{
    let unsorted = map_keys(m);
    let mut wide: Vec<u64> = Vec::new();
    let mut i: usize = 0;
    while i < unsorted.len()
        invariant
            i <= unsorted@.len(),
            wide@ == widened(unsorted@.take(i as int)),
        decreases unsorted@.len() - i,
    {
        wide.push(unsorted[i] as u64);
        assert(wide@ =~= widened(unsorted@.take(i + 1)));
        i += 1;
    }
    assert(unsorted@.take(i as int) =~= unsorted@);
    let sorted = sort_up(&wide);
    proof {
        assert forall|j: int| 0 <= j < sorted@.len() implies (#[trigger] sorted@[j]) <= u32::MAX by {
            assert(sorted@.contains(sorted@[j]));
            assert(wide@.contains(sorted@[j]));
        }
    }
    let mut keys: Vec<u32> = Vec::new();
    let mut n: usize = 0;
    while n < sorted.len()
        invariant
            n <= sorted@.len(),
            forall|j: int| 0 <= j < sorted@.len() ==> (#[trigger] sorted@[j]) <= u32::MAX,
            keys@.len() == n,
            forall|j: int| 0 <= j < n ==> (#[trigger] keys@[j]) == sorted@[j],
        decreases sorted@.len() - n,
    {
        keys.push(sorted[n] as u32);
        n += 1;
    }
    proof {
        assert forall|k: u32| #[trigger] keys@.contains(k) <==> m@.dom().contains(k) by {
            if keys@.contains(k) {
                let j = choose|j: int| 0 <= j < keys@.len() && keys@[j] == k;
                assert(sorted@.contains(sorted@[j]));
                assert(wide@.contains(sorted@[j]));
                let q = choose|q: int| 0 <= q < wide@.len() && wide@[q] == sorted@[j];
                assert(unsorted@[q] == k);
                assert(unsorted@.contains(k));
            }
            if m@.dom().contains(k) {
                assert(unsorted@.contains(k));
                let q = choose|q: int| 0 <= q < unsorted@.len() && unsorted@[q] == k;
                assert(wide@[q] == k as u64);
                assert(wide@.contains(k as u64));
                assert(sorted@.contains(k as u64));
                let j = choose|j: int| 0 <= j < sorted@.len() && sorted@[j] == k as u64;
                assert(keys@[j] == k);
            }
        }
        lemma_one_serial_order(keys@, serials_up(m@.dom()), m@.dom());
    }
    keys
}

/// There are finitely many numbers.
proof fn lemma_numbers_finite(s: Set<u64>)
    ensures
        s.finite(),
{
    let all = set_int_range(0, 0x1_0000_0000_0000_0000);
    lemma_int_range(0, 0x1_0000_0000_0000_0000);
    let f = |i: int| i as u64;
    all.lemma_map_finite(f);
    assert forall|x: u64| #[trigger] s.contains(x) implies all.map(f).contains(x) by {
        assert(all.contains(x as int));
        assert(f(x as int) == x);
    }
    lemma_set_subset_finite(all.map(f), s);
}

proof fn lemma_greatest(s: Set<u64>) -> (m: u64)
    requires
        s.finite(),
        s.len() > 0,
    ensures
        s.contains(m),
        forall|k: u64| #[trigger] s.contains(k) ==> k <= m,
    decreases s.len(),
{
    let x = s.choose();
    let rest = s.remove(x);
    if rest.len() == 0 {
        assert forall|k: u64| #[trigger] s.contains(k) implies k <= x by {
            if k != x {
                assert(rest.contains(k));
            }
        }
        x
    } else {
        let m = lemma_greatest(rest);
        assert forall|k: u64| #[trigger] s.contains(k) implies k <= x || k <= m by {
            if k != x {
                assert(rest.contains(k));
            }
        }
        if x > m {
            x
        } else {
            m
        }
    }
}

proof fn lemma_some_order(keys: Set<u64>) -> (s: Seq<u64>)
    requires
        keys.finite(),
    ensures
        lists_up(s, keys),
    decreases keys.len(),
{
    if keys.len() == 0 {
        assert forall|k: u64| !keys.contains(k) by {}
        Seq::empty()
    } else {
        let m = lemma_greatest(keys);
        let head = lemma_some_order(keys.remove(m));
        let s = head.push(m);
        assert forall|i: int, j: int| 0 <= i < j < s.len() implies #[trigger] s[i] < #[trigger] s[j] by {
            assert(head.contains(head[i]));
        }
        assert forall|k: u64| #[trigger] s.contains(k) <==> keys.contains(k) by {
            if s.contains(k) {
                let i = choose|i: int| 0 <= i < s.len() && s[i] == k;
                if i < head.len() {
                    assert(head.contains(head[i]));
                }
            }
            if keys.contains(k) {
                if k == m {
                    assert(s[head.len() as int] == k);
                } else {
                    assert(head.contains(k));
                    let i = choose|i: int| 0 <= i < head.len() && head[i] == k;
                    assert(s[i] == k);
                }
            }
        }
        s
    }
}

/// Law: any set of numbers can be listed from the least to the greatest.
pub proof fn numbers_are_listed_upwards(keys: Set<u64>)
    ensures
        lists_up(in_order(keys), keys),
{
    lemma_numbers_finite(keys);
    let s = lemma_some_order(keys);
}

/// Law: any set of serials can be listed from the least to the greatest.
pub proof fn serials_are_listed_upwards(keys: Set<u32>)
    ensures
        lists_serials(serials_up(keys), keys),
{
    let wide = Set::new(|k: u64| k <= u32::MAX && keys.contains(k as u32));
    lemma_numbers_finite(wide);
    let w = lemma_some_order(wide);
    let s = w.map_values(|k: u64| k as u32);
    assert forall|i: int| 0 <= i < w.len() implies #[trigger] w[i] <= u32::MAX by {
        assert(w.contains(w[i]));
    }
    assert forall|i: int, j: int| 0 <= i < j < s.len() implies #[trigger] s[i] < #[trigger] s[j] by {
        assert(w[i] < w[j]);
        assert(w[i] <= u32::MAX && w[j] <= u32::MAX);
    }
    assert forall|k: u32| #[trigger] s.contains(k) <==> keys.contains(k) by {
        if s.contains(k) {
            let i = choose|i: int| 0 <= i < s.len() && s[i] == k;
            assert(w.contains(w[i]));
        }
        if keys.contains(k) {
            assert(wide.contains(k as u64));
            assert(w.contains(k as u64));
            let i = choose|i: int| 0 <= i < w.len() && w[i] == k as u64;
            assert(s[i] == k);
        }
    }
    assert(lists_serials(s, keys));
}

} // verus!

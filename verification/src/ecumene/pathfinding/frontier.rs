//! The places a search has still to look at, the most promising one first.

use vstd::multiset::Multiset;
use vstd::prelude::*;
use vstd::seq_lib::{to_multiset_insert, to_multiset_remove};

use crate::coords::Heading;

verus! {

/// A place on the map.
#[derive(Debug, Clone, Copy, PartialEq, Eq, Structural)]
pub struct Place {
    pub x: isize,
    pub y: isize,
    pub z: i8,
}

/// A way to a place, with what it costs and is expected to cost.
#[derive(Debug, Clone, Copy, PartialEq, Eq, Structural)]
pub struct Scored {
    /// Cost up to the place and the estimate of what is left.
    pub f: i128,
    /// Cost up to the place.
    pub g: isize,
    /// Direction of the last step.
    pub facing: Heading,
    pub at: Place,
    /// Number of the place the last step was taken from, in the order of visits.
    pub from: usize,
}

/// A queue that hands out an entry of the least `f`.
pub struct Frontier {
    /// A binary heap: no entry is below the one at half its index.
    pub items: Vec<Scored>,
}

/// Index of the entry above entry `i`.
pub open spec fn above(i: int) -> int {
    (i - 1) / 2
}

/// Whether entry `i` is not less than the one above it.
pub open spec fn settled(s: Seq<Scored>, i: int) -> bool {
    s[above(i)].f <= s[i].f
}

/// Whether each entry but `skip` is settled.
pub open spec fn settled_but(s: Seq<Scored>, skip: int) -> bool {
    forall|i: int| 1 <= i < s.len() && i != skip ==> #[trigger] settled(s, i)
}

/// Whether each entry is settled that has not `top` right above it.
pub open spec fn settled_below(s: Seq<Scored>, top: int) -> bool {
    forall|i: int| 1 <= i < s.len() && above(i) != top ==> #[trigger] settled(s, i)
}

proof fn lemma_update_multiset(s: Seq<Scored>, i: int, a: Scored)
    requires
        0 <= i < s.len(),
    ensures
        s.update(i, a).to_multiset() == s.to_multiset().remove(s[i]).insert(a),
{
    assert(s.update(i, a) =~= s.remove(i).insert(i, a));
    to_multiset_insert(s.remove(i), i, a);
    to_multiset_remove(s, i);
}

proof fn lemma_swap_multiset(s: Seq<Scored>, i: int, j: int)
    requires
        0 <= i < s.len(),
        0 <= j < s.len(),
    ensures
        s.update(i, s[j]).update(j, s[i]).to_multiset() == s.to_multiset(),
{
    broadcast use vstd::seq_lib::group_to_multiset_ensures;

    let t = s.update(i, s[j]);
    lemma_update_multiset(s, i, s[j]);
    lemma_update_multiset(t, j, s[i]);
    assert(s.contains(s[i]));
    assert(t.update(j, s[i]).to_multiset() =~= s.to_multiset());
}

proof fn lemma_first_is_least(s: Seq<Scored>, i: int)
    requires
        settled_but(s, 0),
        0 <= i < s.len(),
    ensures
        s[0].f <= s[i].f,
    decreases i,
{
    if i > 0 {
        assert(settled(s, i));
        lemma_first_is_least(s, above(i));
    }
}

impl View for Frontier {
    type V = Multiset<Scored>;

    open spec fn view(&self) -> Multiset<Scored> {
        self.items@.to_multiset()
    }
}

impl Frontier {
    pub open spec fn wf(&self) -> bool {
        settled_but(self.items@, 0)
    }

    pub fn new() -> (q: Frontier)
        ensures
            q.wf(),
            q@ == Multiset::<Scored>::empty(),
            q.items@.len() == 0,
    {
        broadcast use vstd::seq_lib::group_to_multiset_ensures;

        let q = Frontier { items: Vec::new() };
        assert(q@ =~= Multiset::<Scored>::empty());
        q
    }

    pub fn push(&mut self, e: Scored)
        requires
            old(self).wf(),
        ensures
            final(self).wf(),
            final(self)@ == old(self)@.insert(e),
            final(self).items@.len() == old(self).items@.len() + 1,
    {
        broadcast use vstd::seq_lib::group_to_multiset_ensures;

        let ghost before = self.items@;
        self.items.push(e);
        let mut i: usize = self.items.len() - 1;
        let ghost all = self.items@.to_multiset();
        assert(forall|k: int| 1 <= k < before.len() ==> settled(before, k) ==> #[trigger] settled(
            self.items@,
            k,
        ));
        while i > 0 && self.items[(i - 1) / 2].f > self.items[i].f
            invariant
                i < self.items@.len(),
                self.items@.len() == before.len() + 1,
                self.items@.to_multiset() == all,
                settled_but(self.items@, i as int),
                forall|c: int|
                    1 <= c < self.items@.len() && above(c) == i && i > 0 ==> self.items@[above(
                        i as int,
                    )].f <= (#[trigger] self.items@[c]).f,
            decreases i,
        {
            let up: usize = (i - 1) / 2;
            let a = self.items[up];
            let b = self.items[i];
            let ghost s = self.items@;
            self.items.set(up, b);
            self.items.set(i, a);
            proof {
                lemma_swap_multiset(s, up as int, i as int);
                let t = self.items@;
                assert forall|k: int| 1 <= k < t.len() && k != up implies #[trigger] settled(
                    t,
                    k,
                ) by {
                    if k != i {
                        assert(settled(s, k));
                        if above(k) == i {
                            assert(s[k].f >= a.f);
                        }
                    }
                }
                assert forall|c: int| 1 <= c < t.len() && above(c) == up && up > 0 implies t[above(
                    up as int,
                )].f <= (#[trigger] t[c]).f by {
                    assert(settled(s, up as int));
                    if c != i {
                        assert(settled(s, c));
                    }
                }
            }
            i = up;
        }
        proof {
            let t = self.items@;
            assert forall|k: int| 1 <= k < t.len() && k != 0 implies #[trigger] settled(t, k) by {}
        }
    }

    /// Takes an entry of the least `f` out.
    pub fn pop(&mut self) -> (r: Option<Scored>)
        requires
            old(self).wf(),
        ensures
            final(self).wf(),
            match r {
                Some(e) => {
                    &&& old(self)@.count(e) > 0
                    &&& forall|o: Scored| #[trigger] old(self)@.count(o) > 0 ==> e.f <= o.f
                    &&& final(self)@ == old(self)@.remove(e)
                    &&& final(self).items@.len() == old(self).items@.len() - 1
                },
                None => {
                    &&& old(self)@ == Multiset::<Scored>::empty()
                    &&& *final(self) == *old(self)
                },
            },
    {
        broadcast use vstd::seq_lib::group_to_multiset_ensures;

        let ghost before = self.items@;
        let n: usize = self.items.len();
        if n == 0 {
            assert(self@ =~= Multiset::<Scored>::empty());
            return None;
        }
        let e = self.items[0];
        proof {
            assert(before.contains(e));
            assert forall|o: Scored| #[trigger] before.to_multiset().count(o) > 0 implies e.f
                <= o.f by {
                let k = choose|k: int| 0 <= k < before.len() && before[k] == o;
                lemma_first_is_least(before, k);
            }
        }
        let last = self.items[n - 1];
        let _ = self.items.pop();
        if n == 1 {
            assert(self.items@ =~= before.remove(0));
            return Some(e);
        }
        self.items.set(0, last);
        proof {
            let t = self.items@;
            assert(t =~= before.drop_last().update(0, last));
            lemma_update_multiset(before.drop_last(), 0, last);
            assert(before.drop_last().push(last) =~= before);
            assert(before.to_multiset() =~= before.drop_last().to_multiset().insert(last));
            assert(before.drop_last()[0] == e);
            assert(before.drop_last().contains(e));
            assert(t.to_multiset() =~= before.to_multiset().remove(e));
            assert forall|k: int| 1 <= k < t.len() && above(k) != 0 implies #[trigger] settled(
                t,
                k,
            ) by {
                assert(settled(before, k));
            }
        }
        self.sift_down();
        Some(e)
    }

    /// Lets the first entry sink to where it belongs.
    fn sift_down(&mut self)
        requires
            settled_below(old(self).items@, 0),
            old(self).items@.len() > 0,
        ensures
            final(self).wf(),
            final(self)@ == old(self)@,
            final(self).items@.len() == old(self).items@.len(),
    {
        let ghost all = self.items@.to_multiset();
        let n: usize = self.items.len();
        let mut i: usize = 0;
        let mut done = false;
        while !done
            invariant
                n == self.items@.len(),
                i < n,
                self.items@.to_multiset() == all,
                !done ==> settled_below(self.items@, i as int),
                done ==> settled_but(self.items@, 0),
                !done ==> forall|c: int|
                    1 <= c < n && above(c) == i && i > 0 ==> self.items@[above(i as int)].f <= (
                    #[trigger] self.items@[c]).f,
            decreases
                n - i,
                if done {
                    0int
                } else {
                    1
                },
        {
            let ghost s = self.items@;
            if i >= n / 2 {
                proof {
                    assert forall|k: int| 1 <= k < s.len() && k != 0 implies #[trigger] settled(
                        s,
                        k,
                    ) by {
                        assert(above(k) < n / 2);
                    }
                }
                done = true;
            } else {
                let left: usize = 2 * i + 1;
                let right: usize = if left + 1 < n {
                    left + 1
                } else {
                    left
                };
                let least: usize = if self.items[right].f < self.items[left].f {
                    right
                } else {
                    left
                };
                if self.items[least].f < self.items[i].f {
                    let a = self.items[i];
                    let b = self.items[least];
                    self.items.set(i, b);
                    self.items.set(least, a);
                    proof {
                        lemma_swap_multiset(s, i as int, least as int);
                        let t = self.items@;
                        assert forall|k: int|
                            1 <= k < t.len() && above(k) != least implies #[trigger] settled(
                            t,
                            k,
                        ) by {
                            if k == i {
                                assert(s[least as int].f >= s[above(i as int)].f);
                            } else if above(k) == i {
                                assert(k == left || k == left + 1);
                            } else {
                                assert(settled(s, k));
                            }
                        }
                        assert forall|c: int|
                            1 <= c < n && above(c) == least && least > 0 implies t[above(
                            least as int,
                        )].f <= (#[trigger] t[c]).f by {
                            assert(settled(s, c));
                        }
                    }
                    i = least;
                } else {
                    proof {
                        assert forall|k: int| 1 <= k < s.len() && k != 0 implies #[trigger] settled(
                            s,
                            k,
                        ) by {
                            if above(k) == i {
                                assert(k == left || k == left + 1);
                            }
                        }
                    }
                    done = true;
                }
            }
        }
    }
}

} // verus!

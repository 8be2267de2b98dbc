//! Which remembered objects the server still confirms.

use std::collections::HashSet;

use vstd::prelude::*;

use crate::time::{Clock, Duration, Moment};

verus! {

broadcast use vstd::std_specs::hash::group_hash_axioms;

/// Quiet period before a sweep is due, in nanoseconds: a tenth of a second.
pub const DEFAULT_THRESHOLD_NANOS: u128 = 100_000_000;

/// Collects confirmations after it was armed, and tells the rest apart once
/// they have ceased for a while.
pub struct StalenessTracker {
    pub confirmed: HashSet<u32>,
    pub armed: bool,
    /// When the tracker was armed or last got a confirmation.
    pub last_activity: Moment,
    /// How long confirmations must have ceased before a sweep.
    pub threshold: Duration,
    pub clock: Clock,
}

/// The candidates that were not confirmed, in order.
pub open spec fn unconfirmed(candidates: Seq<u32>, confirmed: Set<u32>) -> Seq<u32> {
    candidates.filter(|s: u32| !confirmed.contains(s))
}

impl StalenessTracker {
    /// Whether a sweep is due: confirmations were collected, and none came for as long as
    /// the threshold says.
    pub open spec fn due(self, now: Moment) -> bool {
        &&& self.armed
        &&& self.threshold.nanos == 0 || self.last_activity.nanos + self.threshold.nanos <= now.nanos
    }

    /// A tracker that is not armed.
    pub fn new(threshold: Duration) -> (t: StalenessTracker)
        ensures
            !t.armed,
            t.confirmed@ == Set::<u32>::empty(),
            t.threshold == threshold,
    {
        let clock = Clock::start();
        let now = clock.now();
        StalenessTracker {
            confirmed: HashSet::new(),
            armed: false,
            last_activity: now,
            threshold,
            clock,
        }
    }

    /// Starts to collect confirmations, at time `now`.
    pub fn arm_at(&mut self, now: Moment)
        ensures
            final(self).confirmed@ == Set::<u32>::empty(),
            *final(self) == (StalenessTracker {
                armed: true,
                confirmed: final(self).confirmed,
                last_activity: now,
                ..*old(self)
            }),
    {
        self.armed = true;
        self.confirmed.clear();
        self.last_activity = now;
    }

    /// Starts to collect confirmations.
    pub fn arm(&mut self)
        ensures
            final(self).confirmed@ == Set::<u32>::empty(),
            *final(self) == (StalenessTracker {
                armed: true,
                confirmed: final(self).confirmed,
                last_activity: final(self).last_activity,
                ..*old(self)
            }),
    {
        let now = self.clock.now();
        self.arm_at(now);
    }

    /// Takes a confirmation at time `now`, if armed.
    pub fn confirm_at(&mut self, serial: u32, now: Moment)
        ensures
            *final(self) == (StalenessTracker {
                confirmed: final(self).confirmed,
                last_activity: final(self).last_activity,
                ..*old(self)
            }),
            final(self).confirmed@ == if old(self).armed {
                old(self).confirmed@.insert(serial)
            } else {
                old(self).confirmed@
            },
            final(self).last_activity == if old(self).armed {
                now
            } else {
                old(self).last_activity
            },
            !old(self).armed ==> *final(self) == *old(self),
    {
        if self.armed {
            self.confirmed.insert(serial);
            self.last_activity = now;
        }
    }

    /// Takes a confirmation, if armed.
    pub fn confirm(&mut self, serial: u32)
        ensures
            *final(self) == (StalenessTracker {
                confirmed: final(self).confirmed,
                last_activity: final(self).last_activity,
                ..*old(self)
            }),
            final(self).confirmed@ == if old(self).armed {
                old(self).confirmed@.insert(serial)
            } else {
                old(self).confirmed@
            },
            !old(self).armed ==> *final(self) == *old(self),
    {
        let now = self.clock.now();
        self.confirm_at(serial, now);
    }

    /// Whether confirmations are collected.
    pub fn is_armed(&self) -> (b: bool)
        ensures
            b == self.armed,
    {
        self.armed
    }

    /// Whether at time `now` confirmations have ceased for long enough.
    pub fn should_sweep_at(&self, now: Moment) -> (b: bool)
        ensures
            b == (self.armed && (if now.nanos >= self.last_activity.nanos {
                now.nanos - self.last_activity.nanos
            } else {
                0
            }) >= self.threshold.nanos),
            b == self.due(now),
    {
        self.armed && now.since(self.last_activity).nanos >= self.threshold.nanos
    }

    /// Whether confirmations have ceased for long enough. It depends on the time
    /// whether an armed tracker says so, unless no time needs to pass; one that is not
    /// armed does not.
    pub fn should_sweep(&self) -> (b: bool)
        ensures
            b ==> self.armed,
            self.armed && self.threshold.nanos == 0 ==> b,
    {
        let now = self.clock.now();
        self.should_sweep_at(now)
    }

    /// The candidates that were not confirmed. The tracker is no longer armed.
    pub fn sweep(&mut self, candidates: &Vec<u32>) -> (stale: Vec<u32>)
        ensures
            stale@ == unconfirmed(candidates@, old(self).confirmed@),
            final(self).confirmed@ == Set::<u32>::empty(),
            *final(self) == (StalenessTracker {
                armed: false,
                confirmed: final(self).confirmed,
                ..*old(self)
            }),
    {
        let mut stale: Vec<u32> = Vec::new();
        let mut i: usize = 0;
        proof {
            reveal(Seq::filter);
            assert(candidates@.take(0) =~= Seq::<u32>::empty());
        }
        while i < candidates.len()
            invariant
                i <= candidates@.len(),
                *self == *old(self),
                stale@ == unconfirmed(candidates@.take(i as int), self.confirmed@),
            decreases candidates@.len() - i,
        {
            proof {
                reveal(Seq::filter);
                assert(candidates@.take(i + 1).drop_last() =~= candidates@.take(i as int));
            }
            let s: u32 = candidates[i];
            if !self.confirmed.contains(&s) {
                stale.push(s);
            }
            i += 1;
        }
        assert(candidates@.take(i as int) =~= candidates@);
        self.confirmed.clear();
        self.armed = false;
        stale
    }

    /// Stops to collect confirmations, without a sweep.
    pub fn disarm(&mut self)
        ensures
            final(self).confirmed@ == Set::<u32>::empty(),
            *final(self) == (StalenessTracker {
                armed: false,
                confirmed: final(self).confirmed,
                ..*old(self)
            }),
    {
        self.armed = false;
        self.confirmed.clear();
    }
}

/// Law: a sweep reports exactly the candidates that were not confirmed; no
/// confirmed object is ever reported.
pub proof fn sweep_spares_confirmed(candidates: Seq<u32>, confirmed: Set<u32>, s: u32)
    ensures
        unconfirmed(candidates, confirmed).contains(s) <==> candidates.contains(s)
            && !confirmed.contains(s),
    decreases candidates.len(),
{
    reveal(Seq::filter);
    if candidates.len() > 0 {
        let init = candidates.drop_last();
        let last = candidates.last();
        sweep_spares_confirmed(init, confirmed, s);
        assert(candidates =~= init.push(last));
        let u = unconfirmed(init, confirmed);
        if candidates.contains(s) {
            let i = choose|i: int| 0 <= i < candidates.len() && candidates[i] == s;
            if i < init.len() {
                assert(init[i] == s);
            }
        }
        if init.contains(s) {
            let i = choose|i: int| 0 <= i < init.len() && init[i] == s;
            assert(candidates[i] == s);
        }
        if !confirmed.contains(last) {
            let p = u.push(last);
            assert(unconfirmed(candidates, confirmed) == p);
            if u.contains(s) {
                let i = choose|i: int| 0 <= i < u.len() && u[i] == s;
                assert(p[i] == s);
            }
            if last == s {
                assert(p[u.len() as int] == s);
                assert(candidates[candidates.len() - 1] == s);
            }
            if p.contains(s) {
                let i = choose|i: int| 0 <= i < p.len() && p[i] == s;
                if i < u.len() {
                    assert(u[i] == s);
                }
            }
        }
    }
}

/// Law: a sweep is due from the moment on when the threshold has passed since the last
/// confirmation, not before, and only where confirmations are collected. With no threshold it
/// is due at once.
pub proof fn sweeps_are_due_after_a_pause(t: StalenessTracker, now: Moment, later: Moment)
    ensures
        !t.armed ==> !t.due(now),
        t.armed && now.nanos >= t.last_activity.nanos ==> (t.due(now) <==> now.nanos
            - t.last_activity.nanos >= t.threshold.nanos),
        t.armed && now.nanos < t.last_activity.nanos ==> (t.due(now) <==> t.threshold.nanos == 0),
        t.due(now) && later.nanos >= now.nanos ==> t.due(later),
{
}

} // verus!

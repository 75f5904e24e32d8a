//! A vector clock: per-replica logical timestamps ordered by causality.

use core::cmp::Ordering;
use vstd::prelude::*;
use vstd::math::max;
use crate::entries::has_from;
use crate::entries::val_from;
use crate::entries::val_of;
use crate::entries::keys_unique;
use crate::entries::lemma_val_absent;
use crate::entries::lemma_val_push;
use crate::entries::lemma_val_update;
use crate::traits::Crdt;
use crate::traits::Apply;

verus! {

/// Does every key's timestamp in `a` stay at or below its timestamp in
/// `b`? This is the causal order: `a` happened before `b` when the
/// inequality is strict somewhere and never reversed.
pub open spec fn dominated_by(a: Seq<(u64, u64)>, b: Seq<(u64, u64)>) -> bool {
    forall|k: u64| #[trigger] val_of(a, k) <= val_of(b, k)
}

/// A vector clock: a map from replica identifiers to how many events that
/// replica is known to have produced. Clocks are merged entrywise by
/// maximum, and their partial order captures causality.
#[derive(Debug)]
pub struct VectorClock {
    clocks: Vec<(u64, u64)>,
}

impl View for VectorClock {
    type V = Seq<(u64, u64)>;

    closed spec fn view(&self) -> Seq<(u64, u64)> {
        self.clocks@
    }
}

impl VectorClock {
    /// Each replica has at most one entry.
    pub closed spec fn wf(&self) -> bool {
        keys_unique(self.clocks@)
    }

    /// A fresh clock that has seen no events.
    pub fn new() -> (r: Self)
        ensures
            r.wf(),
            r@ =~= Seq::<(u64, u64)>::empty(),
            forall|k: u64| #[trigger] val_of(r@, k) == 0,
    {
        VectorClock { clocks: Vec::new() }
    }

    /// Finds the entry of a replica, if it has one.
    fn find(&self, replica: u64) -> (r: Option<usize>)
        ensures
            match r {
                Some(i) => i < self@.len() && self@[i as int].0 == replica && (forall|m: int|
                    0 <= m < i ==> (#[trigger] self@[m]).0 != replica),
                None => !has_from(self@, 0, replica),
            },
    {
        let n = self.clocks.len();
        let mut i: usize = 0;
        while i < n
            invariant
                n == self.clocks.len(),
                i <= n,
                forall|m: int| 0 <= m < i ==> (#[trigger] self.clocks@[m]).0 != replica,
            decreases n - i,
        {
            if self.clocks[i].0 == replica {
                return Some(i);
            }
            i = i + 1;
        }
        None
    }

    /// The logical time this clock records for a replica.
    pub fn get(&self, replica: &u64) -> (r: u64)
        ensures
            r == val_of(self@, *replica),
    {
        match self.find(*replica) {
            Some(i) => {
                proof {
                    lemma_val_scan(self@, i as int, *replica, 0);
                }
                self.clocks[i].1
            },
            None => {
                proof {
                    lemma_val_absent(self@, 0, *replica);
                }
                0
            },
        }
    }

    /// Advances a replica's timestamp by one.
    pub fn inc(&mut self, replica: u64)
        requires
            old(self).wf(),
            val_of(old(self)@, replica) < u64::MAX,
        ensures
            final(self).wf(),
            forall|k: u64| #[trigger] val_of(final(self)@, k) == val_of(old(self)@, k) + (
            if k == replica {
                1int
            } else {
                0int
            }),
    {
        match self.find(replica) {
            Some(i) => {
                let entry = self.clocks[i].1;
                proof {
                    lemma_val_scan(self@, i as int, replica, 0);
                    assert forall|k: u64| #[trigger] val_of(
                        self@.update(i as int, (self@[i as int].0, (entry + 1) as u64)),
                        k,
                    ) == val_of(self@, k) + (if k == replica {
                        1int
                    } else {
                        0int
                    }) by {
                        lemma_val_update(self@, i as int, (entry + 1) as u64, k, 0);
                    }
                }
                self.clocks.set(i, (replica, entry + 1));
            },
            None => {
                proof {
                    lemma_val_absent(self@, 0, replica);
                    assert forall|k: u64| #[trigger] val_of(
                        self@.push((replica, 1u64)),
                        k,
                    ) == val_of(self@, k) + (if k == replica {
                        1int
                    } else {
                        0int
                    }) by {
                        lemma_val_push(self@, (replica, 1u64), k, 0);
                        if !has_from(self@, 0, k) {
                            lemma_val_absent(self@, 0, k);
                        }
                    }
                }
                self.clocks.push((replica, 1));
            },
        }
    }

    /// Does this clock stay at or below the other on every replica?
    fn dominated(&self, other: &Self) -> (r: bool)
        ensures
            r == dominated_by(self@, other@),
    {
        let n = self.clocks.len();
        let mut i: usize = 0;
        while i < n
            invariant
                n == self.clocks.len(),
                i <= n,
                forall|m: int|
                    0 <= m < i ==> val_of(self@, (#[trigger] self.clocks@[m]).0) <= val_of(
                        other@,
                        self.clocks@[m].0,
                    ),
            decreases n - i,
        {
            let k = self.clocks[i].0;
            if self.get(&k) > other.get(&k) {
                return false;
            }
            i = i + 1;
        }
        proof {
            assert forall|k: u64| #[trigger] val_of(self@, k) <= val_of(other@, k) by {
                if has_from(self@, 0, k) {
                    let m = choose|m: int| 0 <= m < self@.len() && (#[trigger] self@[m]).0 == k;
                    assert(val_of(self@, self.clocks@[m].0) <= val_of(other@, self.clocks@[m].0));
                } else {
                    lemma_val_absent(self@, 0, k);
                }
            }
        }
        true
    }

    /// Did this clock's history causally precede the other's? True when
    /// the other has seen everything this one has, and strictly more
    /// somewhere.
    pub fn happened_before(&self, other: &Self) -> (r: bool)
        ensures
            r == (dominated_by(self@, other@) && !dominated_by(other@, self@)),
    {
        match self.partial_cmp(other) {
            Some(Ordering::Less) => true,
            _ => false,
        }
    }

    /// Are the two histories causally incomparable: each has seen
    /// something the other has not?
    pub fn concurrent(&self, other: &Self) -> (r: bool)
        ensures
            r == (!dominated_by(self@, other@) && !dominated_by(other@, self@)),
    {
        match self.partial_cmp(other) {
            None => true,
            Some(_) => false,
        }
    }
}

impl PartialOrd for VectorClock {
    /// The causal order: less when the other clock has seen strictly
    /// more, greater when this one has, equal when they record the same
    /// times, and no order at all when each has seen something the other
    /// has not.
    fn partial_cmp(&self, other: &Self) -> (r: Option<Ordering>) {
        let le = self.dominated(other);
        let ge = other.dominated(self);
        if le && ge {
            Some(Ordering::Equal)
        } else if le {
            Some(Ordering::Less)
        } else if ge {
            Some(Ordering::Greater)
        } else {
            None
        }
    }
}

impl vstd::std_specs::cmp::PartialOrdSpecImpl for VectorClock {
    open spec fn obeys_partial_cmp_spec() -> bool {
        true
    }

    open spec fn partial_cmp_spec(&self, other: &Self) -> Option<Ordering> {
        if dominated_by(self@, other@) && dominated_by(other@, self@) {
            Some(Ordering::Equal)
        } else if dominated_by(self@, other@) {
            Some(Ordering::Less)
        } else if dominated_by(other@, self@) {
            Some(Ordering::Greater)
        } else {
            None
        }
    }
}

/// The first entry carrying a key holds the value that scanning computes.
proof fn lemma_val_scan(s: Seq<(u64, u64)>, i: int, k: u64, j: int)
    requires
        0 <= j <= i < s.len(),
        s[i].0 == k,
        forall|m: int| j <= m < i ==> (#[trigger] s[m]).0 != k,
    ensures
        val_from(s, j, k) == s[i].1,
    decreases i - j,
{
    if j < i {
        lemma_val_scan(s, i, k, j + 1);
    }
}

impl Default for VectorClock {
    fn default() -> (r: Self)
        ensures
            r.wf(),
            forall|k: u64| #[trigger] val_of(r@, k) == 0,
    {
        VectorClock::new()
    }
}

impl Clone for VectorClock {
    fn clone(&self) -> (r: Self)
        ensures
            r@ == self@,
            r.wf() == self.wf(),
    {
        let n = self.clocks.len();
        let mut out: Vec<(u64, u64)> = Vec::new();
        let mut i: usize = 0;
        while i < n
            invariant
                n == self.clocks.len(),
                i <= n,
                out@ == self.clocks@.take(i as int),
            decreases n - i,
        {
            out.push(self.clocks[i]);
            proof {
                assert(out@ =~= self.clocks@.take(i + 1));
            }
            i = i + 1;
        }
        proof {
            assert(self.clocks@.take(n as int) =~= self.clocks@);
        }
        VectorClock { clocks: out }
    }
}

impl PartialEq for VectorClock {
    fn eq(&self, other: &Self) -> (r: bool) {
        let le = self.dominated(other);
        let ge = other.dominated(self);
        proof {
            if dominated_by(self@, other@) && dominated_by(other@, self@) {
                assert forall|k: u64| #[trigger] val_of(self@, k) == val_of(other@, k) by {
                    assert(val_of(self@, k) <= val_of(other@, k));
                    assert(val_of(other@, k) <= val_of(self@, k));
                }
            }
        }
        le && ge
    }
}

impl vstd::std_specs::cmp::PartialEqSpecImpl for VectorClock {
    open spec fn obeys_eq_spec() -> bool {
        true
    }

    /// Two clocks are equal when they record the same time for every
    /// replica; entries that are absent count as zero.
    open spec fn eq_spec(&self, other: &Self) -> bool {
        forall|k: u64| #[trigger] val_of(self@, k) == val_of(other@, k)
    }
}

impl Crdt for VectorClock {
    type Value = Vec<(u64, u64)>;

    open spec fn inv(&self) -> bool {
        self.wf()
    }

    open spec fn merge_pre(&self, other: &Self) -> bool {
        true
    }

    fn init() -> (r: Self)
        ensures
            forall|k: u64| #[trigger] val_of(r@, k) == 0,
    {
        VectorClock::new()
    }

    /// Entrywise maximum: after the merge this clock records, for every
    /// replica, the later of the two timestamps.
    fn merge(&mut self, other: &Self)
        ensures
            forall|k: u64| #[trigger] val_of(final(self)@, k) == max(
                val_of(old(self)@, k) as int,
                val_of(other@, k) as int,
            ),
    {
        let n = other.clocks.len();
        let mut i: usize = 0;
        while i < n
            invariant
                n == other.clocks.len(),
                other.wf(),
                i <= n,
                self.wf(),
                forall|k: u64| #[trigger] val_of(self@, k) == (
                if exists|m: int| 0 <= m < i && (#[trigger] other@[m]).0 == k {
                    max(val_of(old(self)@, k) as int, val_of(other@, k) as int)
                } else {
                    val_of(old(self)@, k) as int
                }),
            decreases n - i,
        {
            let (k, v) = other.clocks[i];
            proof {
                lemma_val_scan(other@, i as int, k, 0);
            }
            let cur = self.get(&k);
            if cur < v {
                self.set_entry(k, v);
            }
            proof {
                assert forall|k2: u64| #[trigger] val_of(self@, k2) == (
                if exists|m: int| 0 <= m < i + 1 && (#[trigger] other@[m]).0 == k2 {
                    max(val_of(old(self)@, k2) as int, val_of(other@, k2) as int)
                } else {
                    val_of(old(self)@, k2) as int
                }) by {
                    if k2 != k {
                        assert((exists|m: int|
                            0 <= m < i + 1 && (#[trigger] other@[m]).0 == k2) == (exists|m: int|
                            0 <= m < i && (#[trigger] other@[m]).0 == k2));
                    }
                }
            }
            i = i + 1;
        }
        proof {
            assert forall|k: u64| #[trigger] val_of(self@, k) == max(
                val_of(old(self)@, k) as int,
                val_of(other@, k) as int,
            ) by {
                if !(exists|m: int| 0 <= m < n && (#[trigger] other@[m]).0 == k) {
                    lemma_val_absent(other@, 0, k);
                }
            }
        }
    }

    /// The complete entry list: each replica paired with its timestamp.
    fn value(&self) -> (r: Vec<(u64, u64)>)
        ensures
            r@ == self@,
    {
        self.clone().clocks
    }
}

impl VectorClock {
    /// Sets a replica's timestamp to a value above its current one.
    fn set_entry(&mut self, replica: u64, v: u64)
        requires
            old(self).wf(),
            val_of(old(self)@, replica) < v,
        ensures
            final(self).wf(),
            forall|k: u64| #[trigger] val_of(final(self)@, k) == (if k == replica {
                v
            } else {
                val_of(old(self)@, k)
            }),
    {
        match self.find(replica) {
            Some(i) => {
                proof {
                    assert forall|k: u64| #[trigger] val_of(
                        self@.update(i as int, (self@[i as int].0, v)),
                        k,
                    ) == (if k == replica {
                        v
                    } else {
                        val_of(self@, k)
                    }) by {
                        lemma_val_update(self@, i as int, v, k, 0);
                    }
                }
                self.clocks.set(i, (replica, v));
            },
            None => {
                proof {
                    assert forall|k: u64| #[trigger] val_of(
                        self@.push((replica, v)),
                        k,
                    ) == (if k == replica {
                        v
                    } else {
                        val_of(self@, k)
                    }) by {
                        lemma_val_push(self@, (replica, v), k, 0);
                        if !has_from(self@, 0, k) {
                            lemma_val_absent(self@, 0, k);
                        }
                    }
                }
                self.clocks.push((replica, v));
            },
        }
    }
}

impl Apply for VectorClock {
    type Op = ();

    type Context = u64;

    open spec fn apply_pre(&self, op: (), ctx: u64) -> bool {
        self.wf() && val_of(self@, ctx) < u64::MAX
    }

    /// A tick is an event with no payload: the context names the replica
    /// whose timestamp advances.
    fn apply(&mut self, op: (), ctx: u64)
        ensures
            final(self).wf(),
            forall|k: u64| #[trigger] val_of(final(self)@, k) == val_of(old(self)@, k) + (
            if k == ctx {
                1int
            } else {
                0int
            }),
    {
        self.inc(ctx);
    }
}

} // verus!

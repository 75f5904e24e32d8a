//! A grow-only counter: per-replica counts whose merge keeps the maximum.

use vstd::prelude::*;
use vstd::math::max;
use crate::entries::has_from;
use crate::entries::val_from;
use crate::entries::val_of;
use crate::entries::sum_from;
use crate::entries::sum_of;
use crate::entries::keys_unique;
use crate::entries::lemma_val_absent;
use crate::entries::lemma_val_push;
use crate::entries::lemma_sum_push;
use crate::entries::lemma_val_update;
use crate::entries::lemma_sum_update;
use crate::entries::lemma_val_le_sum;
use crate::traits::Crdt;
use crate::traits::Apply;

verus! {

/// A grow-only counter. Each replica owns one slot that only it
/// increments; the counter's value is the sum of all slots, kept in a
/// cache for constant-time reads, and merging takes each slot's maximum.
#[derive(Debug)]
pub struct GCounter {
    counts: Vec<(u64, u64)>,
    cached_value: u64,
}

impl View for GCounter {
    type V = Seq<(u64, u64)>;

    closed spec fn view(&self) -> Seq<(u64, u64)> {
        self.counts@
    }
}

impl GCounter {
    /// Each replica has at most one slot, and the cache equals the sum of
    /// all slots.
    pub closed spec fn wf(&self) -> bool {
        keys_unique(self.counts@) && self.cached_value as int == sum_of(self.counts@)
    }

    /// A fresh counter with value zero.
    pub fn new() -> (r: Self)
        ensures
            r.wf(),
            r@ =~= Seq::<(u64, u64)>::empty(),
            sum_of(r@) == 0,
    {
        GCounter { counts: Vec::new(), cached_value: 0 }
    }

    /// Finds the slot of a replica, if it has one.
    fn find(&self, replica: u64) -> (r: Option<usize>)
        ensures
            match r {
                Some(i) => i < self@.len() && self@[i as int].0 == replica && (forall|m: int|
                    0 <= m < i ==> (#[trigger] self@[m]).0 != replica),
                None => !has_from(self@, 0, replica),
            },
    {
        let n = self.counts.len();
        let mut i: usize = 0;
        while i < n
            invariant
                n == self.counts.len(),
                i <= n,
                forall|m: int| 0 <= m < i ==> (#[trigger] self.counts@[m]).0 != replica,
            decreases n - i,
        {
            if self.counts[i].0 == replica {
                return Some(i);
            }
            i = i + 1;
        }
        None
    }

    /// Increments this replica's slot by one.
    pub fn inc(&mut self, replica: u64)
        requires
            old(self).wf(),
            sum_of(old(self)@) + 1 <= u64::MAX,
        ensures
            final(self).wf(),
            sum_of(final(self)@) == sum_of(old(self)@) + 1,
            forall|k: u64| #[trigger] val_of(final(self)@, k) == val_of(old(self)@, k) + (
            if k == replica {
                1int
            } else {
                0int
            }),
    {
        self.add(1, replica);
    }

    /// Adds an amount to this replica's slot. The counter's value grows by
    /// the same amount; no other replica's slot moves.
    pub fn add(&mut self, amount: u64, replica: u64)
        requires
            old(self).wf(),
            sum_of(old(self)@) + amount <= u64::MAX,
        ensures
            final(self).wf(),
            sum_of(final(self)@) == sum_of(old(self)@) + amount,
            forall|k: u64| #[trigger] val_of(final(self)@, k) == val_of(old(self)@, k) + (
            if k == replica {
                amount as int
            } else {
                0int
            }),
    {
        proof {
            lemma_val_le_sum(self@, 0, replica);
        }
        match self.find(replica) {
            Some(i) => {
                let entry = self.counts[i].1;
                proof {
                    lemma_entry_le_sum(self@, i as int);
                    assert forall|k: u64| #[trigger] val_of(
                        self@.update(i as int, (self@[i as int].0, (entry + amount) as u64)),
                        k,
                    ) == val_of(self@, k) + (if k == replica {
                        amount as int
                    } else {
                        0int
                    }) by {
                        lemma_val_update(
                            self@,
                            i as int,
                            (entry + amount) as u64,
                            k,
                            0,
                        );
                        if k == replica {
                            lemma_val_first(self@, i as int);
                        }
                    }
                    lemma_sum_update(self@, i as int, (entry + amount) as u64, 0);
                }
                self.counts.set(i, (replica, entry + amount));
                self.cached_value = self.cached_value + amount;
            },
            None => {
                proof {
                    lemma_val_absent(self@, 0, replica);
                    lemma_sum_push(self@, (replica, amount), 0);
                    assert forall|k: u64| #[trigger] val_of(
                        self@.push((replica, amount)),
                        k,
                    ) == val_of(self@, k) + (if k == replica {
                        amount as int
                    } else {
                        0int
                    }) by {
                        lemma_val_push(self@, (replica, amount), k, 0);
                        if !has_from(self@, 0, k) {
                            lemma_val_absent(self@, 0, k);
                        }
                    }
                }
                self.counts.push((replica, amount));
                self.cached_value = self.cached_value + amount;
            },
        }
    }

    /// The counter's value: the sum of every replica's slot, read from the
    /// cache.
    pub fn total(&self) -> (r: u64)
        requires
            self.wf(),
        ensures
            r as int == sum_of(self@),
    {
        self.cached_value
    }
}

/// One slot's count never exceeds the sum of all of them.
proof fn lemma_entry_le_sum(s: Seq<(u64, u64)>, i: int)
    requires
        0 <= i < s.len(),
    ensures
        s[i].1 <= sum_from(s, 0),
    decreases i,
{
    lemma_entry_le_sum_from(s, i, 0);
}

/// One slot's count never exceeds the sum of the slots from any index at
/// or before it.
proof fn lemma_entry_le_sum_from(s: Seq<(u64, u64)>, i: int, j: int)
    requires
        0 <= j <= i < s.len(),
    ensures
        s[i].1 <= sum_from(s, j),
    decreases i - j,
{
    lemma_val_le_sum(s, j + 1, 0);
    if j < i {
        lemma_entry_le_sum_from(s, i, j + 1);
    }
}

/// When keys are unique, scanning finds exactly the slot's stored count.
proof fn lemma_val_first(s: Seq<(u64, u64)>, i: int)
    requires
        keys_unique(s),
        0 <= i < s.len(),
    ensures
        val_of(s, s[i].0) == s[i].1,
{
    lemma_val_first_from(s, i, 0);
}

/// Scanning from any index at or before the unique slot of a key finds
/// its stored count.
proof fn lemma_val_first_from(s: Seq<(u64, u64)>, i: int, j: int)
    requires
        keys_unique(s),
        0 <= j <= i < s.len(),
    ensures
        val_from(s, j, s[i].0) == s[i].1,
    decreases i - j,
{
    if j < i {
        lemma_val_first_from(s, i, j + 1);
    }
}

impl Clone for GCounter {
    fn clone(&self) -> (r: Self)
        ensures
            r@ == self@,
            r.wf() == self.wf(),
    {
        let n = self.counts.len();
        let mut out: Vec<(u64, u64)> = Vec::new();
        let mut i: usize = 0;
        while i < n
            invariant
                n == self.counts.len(),
                i <= n,
                out@ == self.counts@.take(i as int),
            decreases n - i,
        {
            out.push(self.counts[i]);
            proof {
                assert(out@ =~= self.counts@.take(i + 1));
            }
            i = i + 1;
        }
        proof {
            assert(self.counts@.take(n as int) =~= self.counts@);
        }
        GCounter { counts: out, cached_value: self.cached_value }
    }
}

impl Default for GCounter {
    fn default() -> (r: Self)
        ensures
            r.wf(),
            sum_of(r@) == 0,
    {
        GCounter::new()
    }
}

impl Crdt for GCounter {
    type Value = u64;

    open spec fn inv(&self) -> bool {
        self.wf()
    }

    open spec fn merge_pre(&self, other: &Self) -> bool {
        sum_of(self@) + sum_of(other@) <= u64::MAX
    }

    fn init() -> (r: Self)
        ensures
            sum_of(r@) == 0,
    {
        GCounter::new()
    }

    /// Slotwise maximum: after the merge each replica's slot holds the
    /// larger of the two counts it had.
    fn merge(&mut self, other: &Self)
        ensures
            forall|k: u64| #[trigger] val_of(final(self)@, k) == max(
                val_of(old(self)@, k) as int,
                val_of(other@, k) as int,
            ),
    {
        let n = other.counts.len();
        let mut i: usize = 0;
        while i < n
            invariant
                n == other.counts.len(),
                other.wf(),
                i <= n,
                self.wf(),
                sum_of(self@) + sum_from(other@, i as int) <= u64::MAX,
                forall|k: u64| #[trigger] val_of(self@, k) == (
                if exists|m: int| 0 <= m < i && (#[trigger] other@[m]).0 == k {
                    max(val_of(old(self)@, k) as int, val_of(other@, k) as int)
                } else {
                    val_of(old(self)@, k) as int
                }),
                forall|k: u64| val_of(old(self)@, k) <= #[trigger] val_of(self@, k),
            decreases n - i,
        {
            let (k, v) = other.counts[i];
            proof {
                lemma_val_first(other@, i as int);
                lemma_val_le_sum(self@, 0, k);
            }
            let cur = self.get_slot(k);
            if cur < v {
                proof {
                    lemma_val_le_sum(other@, i as int + 1, 0);
                    assert(v <= sum_from(other@, i as int));
                }
                self.raise(k, v);
            }
            proof {
                lemma_val_le_sum(other@, i as int + 1, 0);
                assert(sum_from(other@, i as int) == other@[i as int].1 + sum_from(
                    other@,
                    i as int + 1,
                ));
            }
            proof {
                assert forall|k2: u64| #[trigger] val_of(self@, k2) == (
                if exists|m: int| 0 <= m < i + 1 && (#[trigger] other@[m]).0 == k2 {
                    max(val_of(old(self)@, k2) as int, val_of(other@, k2) as int)
                } else {
                    val_of(old(self)@, k2) as int
                }) by {
                    if k2 != k {
                        assert((exists|m: int|
                            0 <= m < i + 1 && (#[trigger] other@[m]).0 == k2) == (exists|m: int|
                            0 <= m < i && (#[trigger] other@[m]).0 == k2));
                    }
                }
            }
            i = i + 1;
        }
        proof {
            assert forall|k: u64| #[trigger] val_of(self@, k) == max(
                val_of(old(self)@, k) as int,
                val_of(other@, k) as int,
            ) by {
                if !(exists|m: int| 0 <= m < n && (#[trigger] other@[m]).0 == k) {
                    lemma_val_absent(other@, 0, k);
                }
            }
        }
    }

    /// The counter's value.
    fn value(&self) -> (r: u64)
        ensures
            r as int == sum_of(self@),
    {
        self.total()
    }
}

impl GCounter {
    /// The count currently in a replica's slot.
    fn get_slot(&self, replica: u64) -> (r: u64)
        ensures
            r == val_of(self@, replica),
    {
        match self.find(replica) {
            Some(i) => {
                proof {
                    lemma_val_scan(self@, i as int, replica, 0);
                }
                self.counts[i].1
            },
            None => {
                proof {
                    lemma_val_absent(self@, 0, replica);
                }
                0
            },
        }
    }

    /// Raises a replica's slot to a larger count, keeping the cache in
    /// step.
    fn raise(&mut self, replica: u64, v: u64)
        requires
            old(self).wf(),
            val_of(old(self)@, replica) < v,
            sum_of(old(self)@) + v <= u64::MAX,
        ensures
            final(self).wf(),
            forall|k: u64| #[trigger] val_of(final(self)@, k) == (if k == replica {
                v
            } else {
                val_of(old(self)@, k)
            }),
            sum_of(final(self)@) == sum_of(old(self)@) - val_of(old(self)@, replica) + v,
    {
        proof {
            lemma_val_le_sum(self@, 0, replica);
        }
        match self.find(replica) {
            Some(i) => {
                proof {
                    lemma_val_first(self@, i as int);
                    assert forall|k: u64| #[trigger] val_of(
                        self@.update(i as int, (self@[i as int].0, v)),
                        k,
                    ) == (if k == replica {
                        v
                    } else {
                        val_of(self@, k)
                    }) by {
                        lemma_val_update(self@, i as int, v, k, 0);
                    }
                    lemma_sum_update(self@, i as int, v, 0);
                    lemma_entry_le_sum(self@, i as int);
                }
                let old_v = self.counts[i].1;
                self.counts.set(i, (replica, v));
                self.cached_value = self.cached_value - old_v + v;
            },
            None => {
                proof {
                    lemma_val_absent(self@, 0, replica);
                    lemma_sum_push(self@, (replica, v), 0);
                    assert forall|k: u64| #[trigger] val_of(
                        self@.push((replica, v)),
                        k,
                    ) == (if k == replica {
                        v
                    } else {
                        val_of(self@, k)
                    }) by {
                        lemma_val_push(self@, (replica, v), k, 0);
                        if !has_from(self@, 0, k) {
                            lemma_val_absent(self@, 0, k);
                        }
                    }
                }
                self.counts.push((replica, v));
                self.cached_value = self.cached_value + v;
            },
        }
    }
}

/// The first slot carrying a key holds the value that scanning computes.
proof fn lemma_val_scan(s: Seq<(u64, u64)>, i: int, k: u64, j: int)
    requires
        0 <= j <= i < s.len(),
        s[i].0 == k,
        forall|m: int| j <= m < i ==> (#[trigger] s[m]).0 != k,
    ensures
        val_from(s, j, k) == s[i].1,
    decreases i - j,
{
    if j < i {
        lemma_val_scan(s, i, k, j + 1);
    }
}

impl Apply for GCounter {
    type Op = u64;

    type Context = u64;

    open spec fn apply_pre(&self, op: u64, ctx: u64) -> bool {
        self.wf() && sum_of(self@) + op <= u64::MAX
    }

    /// Applying an operation adds the amount under the given replica's
    /// identity.
    fn apply(&mut self, op: u64, ctx: u64)
        ensures
            final(self).wf(),
            sum_of(final(self)@) == sum_of(old(self)@) + op,
    {
        self.add(op, ctx);
    }
}

} // verus!

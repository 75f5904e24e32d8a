//! Association-list reasoning shared by the map-backed replicated types.
//!
//! A vector clock and a grow-only counter both keep `(key, count)` pairs in
//! a vector. Their contracts speak of the value a key maps to — the first
//! entry with that key, or zero when there is none — and of the sum of all
//! counts. The spec functions here define those notions by a scan from an
//! index, which is also the shape of the loops that implement them, and
//! the lemmas relate them across the updates the types perform.

use vstd::prelude::*;

verus! {

/// Is some entry at or after `j` keyed by `k`?
pub open spec fn has_from(s: Seq<(u64, u64)>, j: int, k: u64) -> bool {
    exists|m: int| j <= m < s.len() && (#[trigger] s[m]).0 == k
}

/// The value of key `k` found by scanning from index `j`: the first entry
/// keyed by `k`, or zero when none is.
pub open spec fn val_from(s: Seq<(u64, u64)>, j: int, k: u64) -> u64
    decreases s.len() - j,
{
    if j < 0 || j >= s.len() {
        0
    } else if s[j].0 == k {
        s[j].1
    } else {
        val_from(s, j + 1, k)
    }
}

/// The value the list assigns to key `k`.
pub open spec fn val_of(s: Seq<(u64, u64)>, k: u64) -> u64 {
    val_from(s, 0, k)
}

/// The sum of all counts at or after index `j`.
pub open spec fn sum_from(s: Seq<(u64, u64)>, j: int) -> int
    decreases s.len() - j,
{
    if j < 0 || j >= s.len() {
        0
    } else {
        s[j].1 + sum_from(s, j + 1)
    }
}

/// The sum of all counts in the list.
pub open spec fn sum_of(s: Seq<(u64, u64)>) -> int {
    sum_from(s, 0)
}

/// No two entries share a key.
pub open spec fn keys_unique(s: Seq<(u64, u64)>) -> bool {
    forall|i: int, j: int|
        0 <= i < j < s.len() ==> (#[trigger] s[i]).0 != (#[trigger] s[j]).0
}

/// A key no entry carries maps to zero.
pub proof fn lemma_val_absent(s: Seq<(u64, u64)>, j: int, k: u64)
    requires
        !has_from(s, j, k),
    ensures
        val_from(s, j, k) == 0,
    decreases s.len() - j,
{
    if 0 <= j < s.len() {
        lemma_val_absent(s, j + 1, k);
    }
}

/// Appending an entry changes only the value of a key that had none.
pub proof fn lemma_val_push(s: Seq<(u64, u64)>, p: (u64, u64), k: u64, j: int)
    requires
        0 <= j <= s.len(),
    ensures
        val_from(s.push(p), j, k) == (if has_from(s, j, k) {
            val_from(s, j, k)
        } else if k == p.0 {
            p.1
        } else {
            0u64
        }),
    decreases s.len() - j,
{
    reveal_with_fuel(val_from, 3);
    if j == s.len() {
        assert(s.push(p)[j] == p);
    } else {
        assert(s.push(p)[j] == s[j]);
        lemma_val_push(s, p, k, j + 1);
        if s[j].0 == k {
            assert(has_from(s, j, k));
        } else {
            assert(has_from(s, j, k) == has_from(s, j + 1, k));
        }
    }
}

/// Appending an entry adds its count to the sum.
pub proof fn lemma_sum_push(s: Seq<(u64, u64)>, p: (u64, u64), j: int)
    requires
        0 <= j <= s.len(),
    ensures
        sum_from(s.push(p), j) == sum_from(s, j) + p.1,
    decreases s.len() - j,
{
    reveal_with_fuel(sum_from, 3);
    if j == s.len() {
        assert(s.push(p)[j] == p);
    } else {
        assert(s.push(p)[j] == s[j]);
        lemma_sum_push(s, p, j + 1);
    }
}

/// Replacing the count of the only entry keyed by some key rewrites that
/// key's value and nothing else.
pub proof fn lemma_val_update(s: Seq<(u64, u64)>, i: int, v: u64, k: u64, j: int)
    requires
        keys_unique(s),
        0 <= i < s.len(),
        0 <= j <= s.len(),
    ensures
        j <= i ==> val_from(s.update(i, (s[i].0, v)), j, k) == (if k == s[i].0 {
            v
        } else {
            val_from(s, j, k)
        }),
        j > i ==> val_from(s.update(i, (s[i].0, v)), j, k) == val_from(s, j, k),
    decreases s.len() - j,
{
    let t = s.update(i, (s[i].0, v));
    if j < s.len() {
        lemma_val_update(s, i, v, k, j + 1);
        if j == i {
            assert(t[j] == (s[i].0, v));
        } else {
            assert(t[j] == s[j]);
        }
    }
}

/// Replacing one entry's count moves the sum by the difference.
pub proof fn lemma_sum_update(s: Seq<(u64, u64)>, i: int, v: u64, j: int)
    requires
        0 <= i < s.len(),
        0 <= j <= s.len(),
    ensures
        j <= i ==> sum_from(s.update(i, (s[i].0, v)), j) == sum_from(s, j) - s[i].1 + v,
        j > i ==> sum_from(s.update(i, (s[i].0, v)), j) == sum_from(s, j),
    decreases s.len() - j,
{
    let t = s.update(i, (s[i].0, v));
    if j < s.len() {
        lemma_sum_update(s, i, v, j + 1);
        if j == i {
            assert(t[j] == (s[i].0, v));
        } else {
            assert(t[j] == s[j]);
        }
    }
}

/// Every key's value is bounded by the sum of all counts, which is never
/// negative.
pub proof fn lemma_val_le_sum(s: Seq<(u64, u64)>, j: int, k: u64)
    ensures
        0 <= sum_from(s, j),
        val_from(s, j, k) <= sum_from(s, j),
    decreases s.len() - j,
{
    if 0 <= j < s.len() {
        lemma_val_le_sum(s, j + 1, k);
    }
}

} // verus!

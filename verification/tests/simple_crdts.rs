//! Checks of the vector clock, grow-only counter and grow-only set.

use crdt::gcounter::GCounter;
use crdt::gset::GSet;
use crdt::traits::{Apply, Crdt};
use crdt::vector::VectorClock;
use std::cmp::Ordering;

#[test]
fn vector_clock_starts_at_zero() {
    let v = VectorClock::new();
    assert_eq!(v.get(&1), 0);
    assert_eq!(v.get(&42), 0);
}

#[test]
fn vector_clock_counts_per_replica() {
    let mut v = VectorClock::new();
    v.inc(1);
    v.inc(1);
    v.inc(2);
    assert_eq!(v.get(&1), 2);
    assert_eq!(v.get(&2), 1);
    assert_eq!(v.get(&3), 0);
}

#[test]
fn vector_clock_apply_ticks_the_context_replica() {
    let mut v = VectorClock::new();
    v.apply((), 7);
    v.apply((), 7);
    assert_eq!(v.get(&7), 2);
}

#[test]
fn vector_clock_merge_takes_entrywise_maximum() {
    let mut a = VectorClock::new();
    a.inc(1);
    a.inc(1);
    a.inc(2);
    let mut b = VectorClock::new();
    b.inc(1);
    b.inc(3);
    a.merge(&b);
    assert_eq!(a.get(&1), 2);
    assert_eq!(a.get(&2), 1);
    assert_eq!(a.get(&3), 1);
}

#[test]
fn vector_clock_happened_before() {
    let mut a = VectorClock::new();
    a.inc(1);
    let mut b = a.clone();
    b.inc(1);
    b.inc(2);
    assert!(a.happened_before(&b));
    assert!(!b.happened_before(&a));
    assert!(!a.happened_before(&a));
}

#[test]
fn vector_clock_concurrency() {
    let mut a = VectorClock::new();
    a.inc(1);
    let mut b = VectorClock::new();
    b.inc(2);
    assert!(a.concurrent(&b));
    assert!(b.concurrent(&a));
    let empty = VectorClock::new();
    assert!(!a.concurrent(&empty));
    assert!(empty.happened_before(&a));
}

#[test]
fn vector_clock_equality_ignores_explicit_zeros() {
    let mut a = VectorClock::new();
    a.inc(1);
    let mut b = VectorClock::new();
    b.inc(2);
    assert!(a != b);
    let mut c = VectorClock::new();
    c.inc(1);
    assert!(a == c);
    // Merging with an empty clock leaves the history unchanged.
    let empty = VectorClock::new();
    let mut d = a.clone();
    d.merge(&empty);
    assert!(d == a);
}

#[test]
fn vector_clock_merge_is_commutative() {
    let mut a = VectorClock::new();
    a.inc(1);
    a.inc(2);
    let mut b = VectorClock::new();
    b.inc(2);
    b.inc(2);
    b.inc(3);
    let mut ab = a.clone();
    ab.merge(&b);
    let mut ba = b.clone();
    ba.merge(&a);
    assert!(ab == ba);
}

#[test]
fn gcounter_starts_at_zero() {
    let c = GCounter::new();
    assert_eq!(c.value(), 0);
}

#[test]
fn gcounter_adds_and_increments() {
    let mut c = GCounter::new();
    c.inc(1);
    c.add(5, 2);
    c.inc(1);
    assert_eq!(c.value(), 7);
    assert_eq!(c.total(), 7);
}

#[test]
fn gcounter_apply_adds_under_the_context_replica() {
    let mut c = GCounter::new();
    c.apply(3, 9);
    c.apply(4, 9);
    assert_eq!(c.value(), 7);
}

#[test]
fn gcounter_merge_keeps_slotwise_maximum() {
    let mut a = GCounter::new();
    a.add(3, 1);
    a.add(1, 2);
    let mut b = GCounter::new();
    b.add(2, 1);
    b.add(4, 3);
    a.merge(&b);
    // Slot 1 keeps 3, slot 2 keeps 1, slot 3 arrives with 4.
    assert_eq!(a.value(), 8);
}

#[test]
fn gcounter_merge_is_idempotent() {
    let mut a = GCounter::new();
    a.add(3, 1);
    a.add(2, 2);
    let copy = a.clone();
    a.merge(&copy);
    assert_eq!(a.value(), 5);
}

#[test]
fn gset_insert_and_contains() {
    let mut s = GSet::new();
    assert!(s.is_empty());
    s.insert(3);
    s.insert(5);
    s.insert(3);
    assert!(s.contains(&3));
    assert!(s.contains(&5));
    assert!(!s.contains(&4));
    assert_eq!(s.len(), 2);
    assert!(!s.is_empty());
}

#[test]
fn gset_apply_inserts() {
    let mut s = GSet::new();
    s.apply(11, ());
    s.apply(11, ());
    assert_eq!(s.len(), 1);
    assert!(s.contains(&11));
}

#[test]
fn gset_merge_is_union() {
    let mut a = GSet::new();
    a.insert(1);
    a.insert(2);
    let mut b = GSet::new();
    b.insert(2);
    b.insert(3);
    a.merge(&b);
    assert_eq!(a.len(), 3);
    assert!(a.contains(&1));
    assert!(a.contains(&2));
    assert!(a.contains(&3));
}

#[test]
fn gset_value_lists_each_element_once() {
    let mut a = GSet::new();
    a.insert(8);
    a.insert(9);
    a.insert(8);
    let mut v = a.value();
    v.sort();
    assert_eq!(v, vec![8, 9]);
}

#[test]
fn vector_clock_partial_order() {
    let mut a = VectorClock::new();
    a.inc(1);
    let mut b = a.clone();
    b.inc(2);
    assert_eq!(a.partial_cmp(&b), Some(Ordering::Less));
    assert_eq!(b.partial_cmp(&a), Some(Ordering::Greater));
    assert_eq!(a.partial_cmp(&a.clone()), Some(Ordering::Equal));
    let mut c = VectorClock::new();
    c.inc(3);
    assert_eq!(a.partial_cmp(&c), None);
}

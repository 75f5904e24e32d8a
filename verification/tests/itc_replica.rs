//! End-to-end scenarios over replicas and their clocks.

use crdt::itc::{EventTree, IdTree, ItcClock, ItcReplica};
use crdt::replica::Replica;
use crdt::traits::{Apply, Crdt};

#[test]
fn seed_owns_everything() {
    let a = ItcReplica::new();
    assert_eq!(a.tree, IdTree::one());
    let c = ItcClock::default();
    assert_eq!(c.value(), 0);
}

#[test]
fn fork_partitions_the_identity() {
    let mut a = ItcReplica::new();
    let b = a.fork();
    assert_eq!(
        a.tree,
        IdTree::node(Box::new(IdTree::one()), Box::new(IdTree::zero()))
    );
    assert_eq!(
        b.tree,
        IdTree::node(Box::new(IdTree::zero()), Box::new(IdTree::one()))
    );
}

#[test]
fn fork_then_join_restores_the_identity() {
    let mut a = ItcReplica::new();
    let b = a.fork();
    a.join(b);
    assert_eq!(a.tree, IdTree::one());
}

#[test]
fn tick_with_empty_identity_changes_nothing() {
    let mut c = ItcClock::default();
    c.apply((), crdt::itc::ItcId(IdTree::zero()));
    assert_eq!(c.value(), 0);
    assert_eq!(c.tree, EventTree::zero());

    let mut d = ItcClock {
        tree: EventTree::node(
            1,
            Box::new(EventTree::leaf(2)),
            Box::new(EventTree::leaf(0)),
        ),
    };
    let before = d.clone();
    d.apply((), crdt::itc::ItcId(IdTree::zero()));
    assert_eq!(d, before);
}

#[test]
fn tick_with_full_identity_counts_up() {
    let mut c = ItcClock::default();
    let a = ItcReplica::new();
    c.apply((), a.id());
    assert_eq!(c.value(), 1);
    c.apply((), a.id());
    assert_eq!(c.value(), 2);
    assert_eq!(c.tree, EventTree::leaf(2));
}

#[test]
fn fork_tick_merge_scenario() {
    // Seed replica owns everything; its sibling gets the complement.
    let mut a = ItcReplica::new();
    let b = a.fork();
    let mut ca = ItcClock::default();
    let mut cb = ItcClock::default();

    // A ticks once.
    ca.apply((), a.id());
    assert_eq!(ca.value(), 1);
    assert_eq!(cb.value(), 0);

    // Merging B's empty clock into A's changes nothing: B recorded nothing.
    let ca_before = ca.clone();
    ca.merge(&cb);
    assert_eq!(ca, ca_before);
    assert_eq!(ca.value(), 1);

    // A ticks again, B ticks once.
    ca.apply((), a.id());
    assert_eq!(ca.value(), 2);
    cb.apply((), b.id());
    assert_eq!(cb.value(), 1);

    // Merging in either order yields the same tree, with value 2 on both
    // sides.
    let mut ab = ca.clone();
    ab.merge(&cb);
    let mut ba = cb.clone();
    ba.merge(&ca);
    assert_eq!(ab, ba);
    assert_eq!(ab.value(), 2);
    assert_eq!(ba.value(), 2);
}

#[test]
fn independent_histories_merge_order_free() {
    // Two replicas fork from the seed and tick three times each. The
    // merged clock's value is the causal height: each side contributed a
    // run of three events in its own region, so the joined history has
    // height three, whichever way the merge goes.
    let mut a = ItcReplica::new();
    let b = a.fork();
    let mut ca = ItcClock::default();
    let mut cb = ItcClock::default();
    for _ in 0..3 {
        ca.apply((), a.id());
        cb.apply((), b.id());
    }
    assert_eq!(ca.value(), 3);
    assert_eq!(cb.value(), 3);

    let mut ab = ca.clone();
    ab.merge(&cb);
    let mut ba = cb.clone();
    ba.merge(&ca);
    assert_eq!(ab, ba);
    assert_eq!(ab.value(), 3);

    // Joining the identities afterwards restores full ownership, and a
    // tick on the merged history counts up from its height.
    a.join(b);
    assert_eq!(a.tree, IdTree::one());
    ab.apply((), a.id());
    assert_eq!(ab.value(), 4);
}

#[test]
fn merge_is_idempotent_on_live_data() {
    let mut a = ItcReplica::new();
    let b = a.fork();
    let mut ca = ItcClock::default();
    ca.apply((), a.id());
    ca.apply((), a.id());
    let before = ca.clone();
    let copy = ca.clone();
    ca.merge(&copy);
    assert_eq!(ca, before);
    let _ = b;
}

#[test]
fn fill_canonicalizes_before_growing() {
    // A's clock holds a history whose right branch B advanced. Ticking A
    // first absorbs what A's ownership already implies (no new event),
    // only then records a new one.
    let mut a = ItcReplica::new();
    let b = a.fork();
    let mut ca = ItcClock::default();
    let mut cb = ItcClock::default();
    cb.apply((), b.id());
    ca.merge(&cb);
    assert_eq!(ca.value(), 1);
    ca.apply((), a.id());
    // The fill pass raised A's branch to B's floor; the value is unchanged.
    assert_eq!(ca.value(), 1);
    ca.apply((), a.id());
    assert_eq!(ca.value(), 2);
}

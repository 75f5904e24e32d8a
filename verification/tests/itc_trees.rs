//! Concrete checks of the identity and event tree algebras.

use crdt::itc::{EventTree, IdTree};

fn leaf(n: u32) -> EventTree {
    EventTree::leaf(n)
}

fn enode(n: u32, l: EventTree, r: EventTree) -> EventTree {
    EventTree::node(n, Box::new(l), Box::new(r))
}

fn inode(l: IdTree, r: IdTree) -> IdTree {
    IdTree::node(Box::new(l), Box::new(r))
}

#[test]
fn join_of_leaves_takes_maximum() {
    assert_eq!(leaf(3).join(&leaf(5)), leaf(5));
    assert_eq!(leaf(7).join(&leaf(2)), leaf(7));
    assert_eq!(leaf(4).join(&leaf(4)), leaf(4));
}

#[test]
fn join_promotes_leaf_against_split() {
    let split = enode(1, leaf(2), leaf(0));
    assert_eq!(leaf(0).join(&split), split);
    assert_eq!(split.join(&leaf(0)), split);
    // A leaf above the whole split swallows it.
    assert_eq!(leaf(9).join(&split), leaf(9));
}

#[test]
fn join_normalizes_its_result() {
    let a = enode(0, leaf(1), leaf(0));
    let b = enode(0, leaf(0), leaf(1));
    // Pointwise maximum makes both sides equal, which collapses.
    assert_eq!(a.join(&b), leaf(1));
}

#[test]
fn join_aligns_baselines() {
    let a = enode(0, leaf(2), leaf(0));
    let b = enode(1, leaf(0), leaf(1));
    // Along the left, max(2, 1) = 2; along the right, max(0, 2) = 2: collapse.
    assert_eq!(a.join(&b), leaf(2));
    let c = enode(1, leaf(0), leaf(2));
    // Left: max(2, 1) = 2; right: max(0, 3) = 3.
    assert_eq!(a.join(&c), enode(2, leaf(0), leaf(1)));
}

#[test]
fn join_is_idempotent_on_normal_trees() {
    let a = enode(1, leaf(2), leaf(0));
    assert_eq!(a.join(&a), a);
    let b = leaf(6);
    assert_eq!(b.join(&b), b);
}

#[test]
fn join_of_non_normal_tree_with_itself_normalizes() {
    // Two equal leaf children are not in normal form; the join collapses them.
    let a = enode(0, leaf(1), leaf(1));
    assert_eq!(a.join(&a), leaf(1));
}

#[test]
fn join_is_commutative_on_samples() {
    let a = enode(0, leaf(3), enode(1, leaf(0), leaf(2)));
    let b = enode(2, leaf(0), leaf(1));
    assert_eq!(a.join(&b), b.join(&a));
    let c = leaf(4);
    assert_eq!(a.join(&c), c.join(&a));
}

#[test]
fn join_is_associative_on_samples() {
    let a = enode(0, leaf(3), leaf(0));
    let b = enode(1, leaf(0), leaf(2));
    let c = leaf(2);
    let left = a.join(&b).join(&c);
    let right = a.join(&b.join(&c));
    assert_eq!(left, right);
}

#[test]
fn norm_collapses_equal_leaves_and_sinks_baselines() {
    assert_eq!(enode(2, leaf(3), leaf(3)).norm(), leaf(5));
    assert_eq!(enode(1, leaf(2), leaf(4)).norm(), enode(3, leaf(0), leaf(2)));
    assert_eq!(leaf(7).norm(), leaf(7));
}

#[test]
fn min_and_max_are_path_sums() {
    let t = enode(1, leaf(2), enode(3, leaf(0), leaf(4)));
    assert_eq!(t.max(), 8);
    assert_eq!(t.min(), 3);
    assert_eq!(t.n(), 1);
}

#[test]
fn fill_with_empty_identity_changes_nothing() {
    let t = enode(1, leaf(2), leaf(0));
    assert_eq!(t.fill(&IdTree::zero()), t);
}

#[test]
fn fill_with_full_identity_collapses_to_maximum() {
    let t = enode(1, leaf(2), enode(3, leaf(0), leaf(4)));
    assert_eq!(t.fill(&IdTree::one()), leaf(8));
}

#[test]
fn fill_raises_owned_side_to_other_sides_floor() {
    // Owning the left side entitles it to the right side's guaranteed
    // minimum.
    let t = enode(0, leaf(0), leaf(5));
    let id = inode(IdTree::one(), IdTree::zero());
    assert_eq!(t.fill(&id), leaf(5));
    // The floor of a split right branch is its minimum, not its maximum.
    let u = enode(0, leaf(1), enode(2, leaf(0), leaf(3)));
    let v = u.fill(&id);
    assert_eq!(v, enode(2, leaf(0), enode(0, leaf(0), leaf(3))));
    assert_eq!(v.max(), u.max());
}

#[test]
fn fill_keeps_value() {
    let t = enode(0, leaf(1), enode(2, leaf(0), leaf(3)));
    let ids = [
        IdTree::zero(),
        IdTree::one(),
        inode(IdTree::one(), IdTree::zero()),
        inode(IdTree::zero(), IdTree::one()),
        inode(IdTree::one(), inode(IdTree::zero(), IdTree::one())),
    ];
    for id in ids {
        assert_eq!(t.fill(&id).max(), t.max());
    }
}

#[test]
fn grow_stamps_owned_leaf_in_place() {
    let (t, _c) = leaf(4).grow(&IdTree::one());
    assert_eq!(t, leaf(5));
}

#[test]
fn grow_expands_leaf_under_partial_ownership() {
    let id = inode(IdTree::one(), IdTree::zero());
    let (t, _c) = leaf(2).grow(&id);
    assert_eq!(t, enode(2, leaf(1), leaf(0)));
}

#[test]
fn grow_descends_into_owned_branch() {
    let id = inode(IdTree::zero(), IdTree::one());
    let t = enode(1, leaf(2), leaf(0));
    let (g, _c) = t.grow(&id);
    assert_eq!(g, enode(1, leaf(2), leaf(1)));
}

#[test]
fn grow_tie_favors_right_branch() {
    // Both branches can stamp at equal cost; the right one must win.
    let id = inode(IdTree::one(), IdTree::one());
    let t = enode(0, leaf(0), leaf(0));
    let (g, _c) = t.grow(&id);
    assert_eq!(g, enode(0, leaf(0), leaf(1)));
}

#[test]
fn grow_prefers_strictly_cheaper_left_branch() {
    // Stamping left is free; stamping right would expand a leaf first.
    let id = inode(IdTree::one(), inode(IdTree::one(), IdTree::zero()));
    let t = enode(0, leaf(0), leaf(0));
    let (g, _c) = t.grow(&id);
    assert_eq!(g, enode(0, leaf(1), leaf(0)));
}

#[test]
fn split_of_empty_identity_gives_two_empty_shares() {
    let (a, b) = IdTree::zero().split();
    assert_eq!(a, IdTree::zero());
    assert_eq!(b, IdTree::zero());
}

#[test]
fn split_of_full_identity_gives_left_and_right_halves() {
    let (a, b) = IdTree::one().split();
    assert_eq!(a, inode(IdTree::one(), IdTree::zero()));
    assert_eq!(b, inode(IdTree::zero(), IdTree::one()));
}

#[test]
fn split_recurses_into_the_owned_branch() {
    let id = inode(IdTree::zero(), IdTree::one());
    let (a, b) = id.split();
    assert_eq!(a, inode(IdTree::zero(), inode(IdTree::one(), IdTree::zero())));
    assert_eq!(b, inode(IdTree::zero(), inode(IdTree::zero(), IdTree::one())));

    let id2 = inode(IdTree::one(), IdTree::zero());
    let (c, d) = id2.split();
    assert_eq!(c, inode(inode(IdTree::one(), IdTree::zero()), IdTree::zero()));
    assert_eq!(d, inode(inode(IdTree::zero(), IdTree::one()), IdTree::zero()));
}

#[test]
fn split_hands_whole_branches_on_mixed_ownership() {
    let id = inode(IdTree::one(), inode(IdTree::zero(), IdTree::one()));
    let (a, b) = id.split();
    assert_eq!(a, inode(IdTree::one(), IdTree::zero()));
    assert_eq!(b, inode(IdTree::zero(), inode(IdTree::zero(), IdTree::one())));
}

#[test]
fn sum_round_trips_every_split() {
    let ids = [
        IdTree::zero(),
        IdTree::one(),
        inode(IdTree::zero(), IdTree::one()),
        inode(IdTree::one(), IdTree::zero()),
        inode(IdTree::one(), inode(IdTree::zero(), IdTree::one())),
        inode(inode(IdTree::one(), IdTree::zero()), IdTree::one()),
    ];
    for id in ids {
        let (a, b) = id.split();
        assert_eq!(a.sum(&b), id);
    }
}

#[test]
fn sum_with_empty_share_returns_the_other() {
    let id = inode(IdTree::one(), IdTree::zero());
    assert_eq!(id.sum(&IdTree::zero()), id);
    assert_eq!(IdTree::zero().sum(&id), id);
}

#[test]
fn sum_normalizes_reunited_halves() {
    let a = inode(IdTree::one(), IdTree::zero());
    let b = inode(IdTree::zero(), IdTree::one());
    assert_eq!(a.sum(&b), IdTree::one());
}

#[test]
fn id_norm_collapses_equal_leaves() {
    let t = inode(inode(IdTree::one(), IdTree::one()), IdTree::zero());
    assert_eq!(t.norm(), inode(IdTree::one(), IdTree::zero()));
    let u = inode(IdTree::zero(), IdTree::zero());
    assert_eq!(u.norm(), IdTree::zero());
}

#[test]
fn works_at_the_top_of_the_count_range() {
    let big = EventTree::leaf(u32::MAX - 1);
    let (g, _c) = big.grow(&IdTree::one());
    assert_eq!(g, EventTree::leaf(u32::MAX));
    assert_eq!(g.join(&EventTree::leaf(5)), EventTree::leaf(u32::MAX));
    assert_eq!(g.max(), u32::MAX);
}

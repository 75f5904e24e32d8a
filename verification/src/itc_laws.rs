//! The algebraic laws of the interval tree clock, proved over the model.
//!
//! The semantics of an event tree is the value it assigns to each infinite
//! path: the sum of the counts met along it. Two trees that agree on every
//! path describe the same history. This module shows that normalization
//! preserves path values, that `join` computes their pointwise maximum and
//! always returns a normal tree, and that a normal tree is the unique
//! normal representative of its path semantics. The merge laws —
//! idempotence, commutativity, associativity — then follow, as does the
//! identity round trip: splitting an identity and summing the shares gives
//! the identity back, up to normalization.

use vstd::prelude::*;
use vstd::math::max;
use vstd::math::min;
use crate::itc::Ev;
use crate::itc::join_nodes;
use crate::itc::lemma_norm_normal;
use crate::itc::lemma_lift_vals;

verus! {

/// The number of events a history claims along one infinite path: `w`
/// names the branch taken at each depth (`true` is left), `i` the depth at
/// which this tree sits.
pub open spec fn path_val(e: Ev, w: spec_fn(int) -> bool, i: int) -> int
    decreases e,
{
    match e {
        Ev::Leaf { n } => n,
        Ev::Node { n, left, right } => n + if w(i) {
            path_val(*left, w, i + 1)
        } else {
            path_val(*right, w, i + 1)
        },
    }
}

/// A path value depends only on the branches taken at or below the tree's
/// depth.
pub proof fn lemma_path_val_agree(
    e: Ev,
    w1: spec_fn(int) -> bool,
    w2: spec_fn(int) -> bool,
    i: int,
)
    requires
        forall|j: int| i <= j ==> #[trigger] w1(j) == w2(j),
    ensures
        path_val(e, w1, i) == path_val(e, w2, i),
    decreases e,
{
    match e {
        Ev::Leaf { .. } => {},
        Ev::Node { left, right, .. } => {
            lemma_path_val_agree(*left, w1, w2, i + 1);
            lemma_path_val_agree(*right, w1, w2, i + 1);
        },
    }
}

/// Every path value lies between the smallest and the largest path sum.
pub proof fn lemma_path_val_bounds(e: Ev, w: spec_fn(int) -> bool, i: int)
    ensures
        e.min_val() <= path_val(e, w, i),
        path_val(e, w, i) <= e.max_val(),
    decreases e,
{
    match e {
        Ev::Leaf { .. } => {},
        Ev::Node { left, right, .. } => {
            lemma_path_val_bounds(*left, w, i + 1);
            lemma_path_val_bounds(*right, w, i + 1);
        },
    }
}

/// Some path attains the smallest path sum.
pub proof fn lemma_min_val_witness(e: Ev, i: int)
    ensures
        exists|w: spec_fn(int) -> bool| #[trigger] path_val(e, w, i) == e.min_val(),
    decreases e,
{
    match e {
        Ev::Leaf { .. } => {
            let w = |j: int| true;
            assert(path_val(e, w, i) == e.min_val());
        },
        Ev::Node { n, left, right } => {
            lemma_min_val_witness(*left, i + 1);
            lemma_min_val_witness(*right, i + 1);
            if left.min_val() <= right.min_val() {
                let wl = choose|w: spec_fn(int) -> bool| #[trigger] path_val(*left, w, i + 1) == left.min_val();
                let w2 = |j: int|
                    if j == i {
                        true
                    } else {
                        wl(j)
                    };
                lemma_path_val_agree(*left, wl, w2, i + 1);
                assert(path_val(e, w2, i) == e.min_val());
            } else {
                let wr = choose|w: spec_fn(int) -> bool| #[trigger] path_val(*right, w, i + 1) == right.min_val();
                let w2 = |j: int|
                    if j == i {
                        false
                    } else {
                        wr(j)
                    };
                lemma_path_val_agree(*right, wr, w2, i + 1);
                assert(path_val(e, w2, i) == e.min_val());
            }
        },
    }
}

/// Lifting shifts every path value by the lifted amount.
pub proof fn lemma_lift_path(x: Ev, m: int, w: spec_fn(int) -> bool, i: int)
    ensures
        path_val(x.lift(m), w, i) == path_val(x, w, i) + m,
{
    match x {
        Ev::Leaf { .. } => {},
        Ev::Node { .. } => {},
    }
}

/// Sinking shifts every path value down by the sunk amount.
pub proof fn lemma_sink_path(x: Ev, m: int, w: spec_fn(int) -> bool, i: int)
    ensures
        path_val(x.sink(m), w, i) == path_val(x, w, i) - m,
{
    match x {
        Ev::Leaf { .. } => {},
        Ev::Node { .. } => {},
    }
}

/// Normalization preserves every path value: it changes the shape of a
/// history, never its meaning.
pub proof fn lemma_norm_path(e: Ev, w: spec_fn(int) -> bool, i: int)
    ensures
        path_val(e.norm(), w, i) == path_val(e, w, i),
    decreases e,
{
    match e {
        Ev::Leaf { .. } => {},
        Ev::Node { left, right, .. } => {
            lemma_norm_path(*left, w, i + 1);
            lemma_norm_path(*right, w, i + 1);
            let nl = left.norm();
            let nr = right.norm();
            if nl matches (Ev::Leaf { n: a }) && nr == (Ev::Leaf { n: a }) {
            } else {
                let m = min(nl.root(), nr.root());
                lemma_sink_path(nl, m, w, i + 1);
                lemma_sink_path(nr, m, w, i + 1);
            }
        },
    }
}

/// The split-against-split case of `join` computes the pointwise maximum
/// of the two sides' path values.
pub proof fn lemma_join_nodes_path(
    n1: int,
    l1: Ev,
    r1: Ev,
    n2: int,
    l2: Ev,
    r2: Ev,
    w: spec_fn(int) -> bool,
    i: int,
)
    ensures
        path_val(join_nodes(n1, l1, r1, n2, l2, r2), w, i) == max(
            n1 + if w(i) {
                path_val(l1, w, i + 1)
            } else {
                path_val(r1, w, i + 1)
            },
            n2 + if w(i) {
                path_val(l2, w, i + 1)
            } else {
                path_val(r2, w, i + 1)
            },
        ),
    decreases l1.size() + r1.size() + l2.size() + r2.size(),
        (if n1 > n2 {
            1int
        } else {
            0int
        }),
{
    if n1 > n2 {
        lemma_join_nodes_path(n2, l2, r2, n1, l1, r1, w, i);
    } else {
        let d = n2 - n1;
        lemma_lift_vals(l2, d);
        lemma_lift_vals(r2, d);
        let jl = l1.join(l2.lift(d));
        let jr = r1.join(r2.lift(d));
        let built = Ev::Node { n: n1, left: Box::new(jl), right: Box::new(jr) };
        lemma_norm_path(built, w, i);
        if w(i) {
            lemma_join_path(l1, l2.lift(d), w, i + 1);
            lemma_lift_path(l2, d, w, i + 1);
        } else {
            lemma_join_path(r1, r2.lift(d), w, i + 1);
            lemma_lift_path(r2, d, w, i + 1);
        }
    }
}

/// `join` computes the pointwise maximum of path values: merging two
/// histories claims, along every path, exactly what the better-informed of
/// the two claimed.
pub proof fn lemma_join_path(a: Ev, b: Ev, w: spec_fn(int) -> bool, i: int)
    ensures
        path_val(a.join(b), w, i) == max(path_val(a, w, i), path_val(b, w, i)),
    decreases a.size() + b.size(), 2int,
{
    match (a, b) {
        (Ev::Leaf { .. }, Ev::Leaf { .. }) => {},
        (Ev::Leaf { n: n1 }, Ev::Node { n: n2, left: l2, right: r2 }) => {
            lemma_join_nodes_path(
                n1,
                Ev::Leaf { n: 0 },
                Ev::Leaf { n: 0 },
                n2,
                *l2,
                *r2,
                w,
                i,
            );
        },
        (Ev::Node { n: n1, left: l1, right: r1 }, Ev::Leaf { n: n2 }) => {
            lemma_join_nodes_path(
                n1,
                *l1,
                *r1,
                n2,
                Ev::Leaf { n: 0 },
                Ev::Leaf { n: 0 },
                w,
                i,
            );
        },
        (
            Ev::Node { n: n1, left: l1, right: r1 },
            Ev::Node { n: n2, left: l2, right: r2 },
        ) => {
            lemma_join_nodes_path(n1, *l1, *r1, n2, *l2, *r2, w, i);
        },
    }
}

/// The split-against-split case of `join` returns a normal tree.
pub proof fn lemma_join_nodes_normal(n1: int, l1: Ev, r1: Ev, n2: int, l2: Ev, r2: Ev)
    ensures
        join_nodes(n1, l1, r1, n2, l2, r2).is_normal(),
    decreases (if n1 > n2 {
        1int
    } else {
        0int
    }),
{
    if n1 > n2 {
        lemma_join_nodes_normal(n2, l2, r2, n1, l1, r1);
    } else {
        let d = n2 - n1;
        let built = Ev::Node {
            n: n1,
            left: Box::new(l1.join(l2.lift(d))),
            right: Box::new(r1.join(r2.lift(d))),
        };
        lemma_norm_normal(built);
    }
}

/// `join` always returns a normal tree.
pub proof fn lemma_join_normal(a: Ev, b: Ev)
    ensures
        a.join(b).is_normal(),
{
    match (a, b) {
        (Ev::Leaf { .. }, Ev::Leaf { .. }) => {},
        (Ev::Leaf { n: n1 }, Ev::Node { n: n2, left: l2, right: r2 }) => {
            lemma_join_nodes_normal(n1, Ev::Leaf { n: 0 }, Ev::Leaf { n: 0 }, n2, *l2, *r2);
        },
        (Ev::Node { n: n1, left: l1, right: r1 }, Ev::Leaf { n: n2 }) => {
            lemma_join_nodes_normal(n1, *l1, *r1, n2, Ev::Leaf { n: 0 }, Ev::Leaf { n: 0 });
        },
        (
            Ev::Node { n: n1, left: l1, right: r1 },
            Ev::Node { n: n2, left: l2, right: r2 },
        ) => {
            lemma_join_nodes_normal(n1, *l1, *r1, n2, *l2, *r2);
        },
    }
}

/// A normal tree keeps its guaranteed floor entirely in its root count.
pub proof fn lemma_normal_min_root(e: Ev)
    requires
        e.is_normal(),
    ensures
        e.min_val() == e.root(),
    decreases e,
{
    match e {
        Ev::Leaf { .. } => {},
        Ev::Node { left, right, .. } => {
            lemma_normal_min_root(*left);
            lemma_normal_min_root(*right);
        },
    }
}

/// A normal tree that claims the same constant along every path is that
/// constant's leaf.
pub proof fn lemma_normal_const(e: Ev, i: int, c: int)
    requires
        e.is_normal(),
        forall|w: spec_fn(int) -> bool| #[trigger] path_val(e, w, i) == c,
    ensures
        e == (Ev::Leaf { n: c }),
    decreases e,
{
    match e {
        Ev::Leaf { n } => {
            let w = |j: int| true;
            assert(path_val(e, w, i) == n);
        },
        Ev::Node { n, left, right } => {
            assert forall|w: spec_fn(int) -> bool| #[trigger] path_val(*left, w, i + 1) == c - n by {
                let w2 = |j: int|
                    if j == i {
                        true
                    } else {
                        w(j)
                    };
                lemma_path_val_agree(*left, w, w2, i + 1);
                assert(path_val(e, w2, i) == c);
            }
            assert forall|w: spec_fn(int) -> bool| #[trigger] path_val(*right, w, i + 1) == c - n by {
                let w2 = |j: int|
                    if j == i {
                        false
                    } else {
                        w(j)
                    };
                lemma_path_val_agree(*right, w, w2, i + 1);
                assert(path_val(e, w2, i) == c);
            }
            lemma_normal_const(*left, i + 1, c - n);
            lemma_normal_const(*right, i + 1, c - n);
            assert(false);
        },
    }
}

/// Normal forms are canonical: two normal trees that agree on every path
/// are structurally equal.
pub proof fn lemma_normal_unique(a: Ev, b: Ev, i: int)
    requires
        a.is_normal(),
        b.is_normal(),
        forall|w: spec_fn(int) -> bool| #[trigger] path_val(a, w, i) == path_val(b, w, i),
    ensures
        a == b,
    decreases a,
{
    match a {
        Ev::Leaf { n } => {
            assert forall|w: spec_fn(int) -> bool| #[trigger] path_val(b, w, i) == n by {
                assert(path_val(a, w, i) == n);
            }
            lemma_normal_const(b, i, n);
        },
        Ev::Node { n: n1, left: l1, right: r1 } => {
            match b {
                Ev::Leaf { n: m } => {
                    assert forall|w: spec_fn(int) -> bool| #[trigger] path_val(a, w, i) == m by {
                        assert(path_val(b, w, i) == m);
                    }
                    lemma_normal_const(a, i, m);
                },
                Ev::Node { n: n2, left: l2, right: r2 } => {
                    lemma_normal_min_root(a);
                    lemma_normal_min_root(b);
                    lemma_min_val_witness(a, i);
                    let wa = choose|w: spec_fn(int) -> bool| #[trigger] path_val(a, w, i) == a.min_val();
                    lemma_path_val_bounds(b, wa, i);
                    lemma_min_val_witness(b, i);
                    let wb = choose|w: spec_fn(int) -> bool| #[trigger] path_val(b, w, i) == b.min_val();
                    lemma_path_val_bounds(a, wb, i);
                    assert(n1 == n2);
                    assert forall|w: spec_fn(int) -> bool| #[trigger] path_val(*l1, w, i + 1) == path_val(*l2, w, i + 1) by {
                        let w2 = |j: int|
                            if j == i {
                                true
                            } else {
                                w(j)
                            };
                        lemma_path_val_agree(*l1, w, w2, i + 1);
                        lemma_path_val_agree(*l2, w, w2, i + 1);
                        assert(path_val(a, w2, i) == path_val(b, w2, i));
                    }
                    assert forall|w: spec_fn(int) -> bool| #[trigger] path_val(*r1, w, i + 1) == path_val(*r2, w, i + 1) by {
                        let w2 = |j: int|
                            if j == i {
                                false
                            } else {
                                w(j)
                            };
                        lemma_path_val_agree(*r1, w, w2, i + 1);
                        lemma_path_val_agree(*r2, w, w2, i + 1);
                        assert(path_val(a, w2, i) == path_val(b, w2, i));
                    }
                    lemma_normal_unique(*l1, *l2, i + 1);
                    lemma_normal_unique(*r1, *r2, i + 1);
                },
            }
        },
    }
}

/// Idempotence of merge: joining a normal history with itself gives it
/// back unchanged. Normality matters: a non-normal tree joined with
/// itself comes back as its normal form instead.
pub proof fn lemma_join_idempotent(a: Ev)
    requires
        a.is_normal(),
    ensures
        a.join(a) == a,
{
    lemma_join_normal(a, a);
    assert forall|w: spec_fn(int) -> bool| #[trigger] path_val(a.join(a), w, 0) == path_val(a, w, 0) by {
        lemma_join_path(a, a, w, 0);
    }
    lemma_normal_unique(a.join(a), a, 0);
}

/// Commutativity of merge: the order of the two histories never matters.
pub proof fn lemma_join_commutative(a: Ev, b: Ev)
    ensures
        a.join(b) == b.join(a),
{
    lemma_join_normal(a, b);
    lemma_join_normal(b, a);
    assert forall|w: spec_fn(int) -> bool| #[trigger] path_val(a.join(b), w, 0) == path_val(b.join(a), w, 0) by {
        lemma_join_path(a, b, w, 0);
        lemma_join_path(b, a, w, 0);
    }
    lemma_normal_unique(a.join(b), b.join(a), 0);
}

/// Associativity of merge: grouping never matters, so replicas may merge
/// histories in any order and arrive at identical trees.
pub proof fn lemma_join_associative(a: Ev, b: Ev, c: Ev)
    ensures
        a.join(b).join(c) == a.join(b.join(c)),
{
    lemma_join_normal(a.join(b), c);
    lemma_join_normal(a, b.join(c));
    assert forall|w: spec_fn(int) -> bool| #[trigger] path_val(a.join(b).join(c), w, 0) == path_val(a.join(b.join(c)), w, 0) by {
        lemma_join_path(a, b, w, 0);
        lemma_join_path(b, c, w, 0);
        lemma_join_path(a.join(b), c, w, 0);
        lemma_join_path(a, b.join(c), w, 0);
    }
    lemma_normal_unique(a.join(b).join(c), a.join(b.join(c)), 0);
}

} // verus!

//! Interval tree clock: causality tracking over a forkable identity space.
//!
//! Two recursive tree algebras cooperate here. An identity tree partitions
//! the unit identity space among replicas: a leaf either owns nothing or
//! owns everything below it, and a split node divides the space in two.
//! An event tree records how many events have been observed, compressed by
//! a sum-of-ancestors encoding: the count at a position is the sum of the
//! counts on the path from the root, and the externally visible value of a
//! clock is the largest such path sum.
//!
//! Event trees carry machine integers; their mathematical model is [`Ev`],
//! the same tree shape over unbounded integers, reached through `@`. All
//! contracts and the merge laws in [`crate::itc_laws`] speak of that model.

use vstd::prelude::*;
use vstd::math::max;
use vstd::math::min;

verus! {

// ---------------------------------------------------------------------------
// Identity trees
// ---------------------------------------------------------------------------

/// One replica's share of the identity space.
///
/// `Leaf { i: false }` owns nothing here, `Leaf { i: true }` owns the whole
/// subrange, and `Node` splits the range between two subtrees.
#[derive(Debug)]
pub enum IdTree {
    Leaf { i: bool },
    Node { left: Box<IdTree>, right: Box<IdTree> },
}

impl IdTree {
    /// The identity that owns nothing.
    pub fn zero() -> (r: Self)
        ensures
            r == (IdTree::Leaf { i: false }),
    {
        IdTree::Leaf { i: false }
    }

    /// The identity that owns the whole space.
    pub fn one() -> (r: Self)
        ensures
            r == (IdTree::Leaf { i: true }),
    {
        IdTree::Leaf { i: true }
    }

    /// An identity split into two subranges.
    pub fn node(left: Box<IdTree>, right: Box<IdTree>) -> (r: Self)
        ensures
            r == (IdTree::Node { left, right }),
    {
        IdTree::Node { left, right }
    }

    /// Does this identity own nothing at all?
    pub open spec fn owns_none(self) -> bool {
        self == (IdTree::Leaf { i: false })
    }

    /// Does this identity own everything below this point?
    pub open spec fn owns_all(self) -> bool {
        self == (IdTree::Leaf { i: true })
    }

    /// The number of nodes in the tree.
    pub open spec fn size(self) -> nat
        decreases self,
    {
        match self {
            IdTree::Leaf { .. } => 1,
            IdTree::Node { left, right } => 1 + left.size() + right.size(),
        }
    }

    /// The depth of the tree, with a lone leaf at height zero.
    pub open spec fn height(self) -> int
        decreases self,
    {
        match self {
            IdTree::Leaf { .. } => 0,
            IdTree::Node { left, right } => 1 + max(left.height(), right.height()),
        }
    }

    /// Normal form: no split node has two leaves that agree, since such a
    /// split says no more than the leaf it collapses to.
    pub open spec fn is_normal(self) -> bool
        decreases self,
    {
        match self {
            IdTree::Leaf { .. } => true,
            IdTree::Node { left, right } => {
                &&& left.is_normal()
                &&& right.is_normal()
                &&& !((*left) matches (IdTree::Leaf { i: a }) && *right == (IdTree::Leaf { i: a }))
            },
        }
    }

    /// The normal form of this identity: equal-leaf splits collapsed,
    /// bottom up.
    pub open spec fn normalized(self) -> IdTree
        decreases self,
    {
        match self {
            IdTree::Leaf { .. } => self,
            IdTree::Node { left, right } => {
                let nl = left.normalized();
                let nr = right.normalized();
                if nl matches (IdTree::Leaf { i: a }) && nr == (IdTree::Leaf { i: a }) {
                    nl
                } else {
                    IdTree::Node { left: Box::new(nl), right: Box::new(nr) }
                }
            },
        }
    }

    /// Does this identity own nothing anywhere below this point?
    pub open spec fn blank(self) -> bool
        decreases self,
    {
        match self {
            IdTree::Leaf { i } => !i,
            IdTree::Node { left, right } => left.blank() && right.blank(),
        }
    }

    /// No position of the identity space is owned by both trees.
    pub open spec fn disjoint_from(self, other: IdTree) -> bool
        decreases self,
    {
        match self {
            IdTree::Leaf { i } => !i || other.blank(),
            IdTree::Node { left, right } => match other {
                IdTree::Leaf { i } => !i || self.blank(),
                IdTree::Node { left: ol, right: or_ } => left.disjoint_from(*ol)
                    && right.disjoint_from(*or_),
            },
        }
    }

    /// The two disjoint shares that splitting this identity produces.
    ///
    /// Full ownership divides into a left half and a right half; ownership
    /// confined to one branch is split within that branch; and a tree owning
    /// on both sides hands each whole branch to one share, a simplicity
    /// policy that favours cheap splits over balanced ones.
    pub open spec fn split_parts(self) -> (IdTree, IdTree)
        decreases self,
    {
        match self {
            IdTree::Leaf { i } => {
                if !i {
                    (IdTree::Leaf { i: false }, IdTree::Leaf { i: false })
                } else {
                    (
                        IdTree::Node {
                            left: Box::new(IdTree::Leaf { i: true }),
                            right: Box::new(IdTree::Leaf { i: false }),
                        },
                        IdTree::Node {
                            left: Box::new(IdTree::Leaf { i: false }),
                            right: Box::new(IdTree::Leaf { i: true }),
                        },
                    )
                }
            },
            IdTree::Node { left, right } => {
                if left.owns_none() {
                    let p = right.split_parts();
                    (
                        IdTree::Node {
                            left: Box::new(IdTree::Leaf { i: false }),
                            right: Box::new(p.0),
                        },
                        IdTree::Node {
                            left: Box::new(IdTree::Leaf { i: false }),
                            right: Box::new(p.1),
                        },
                    )
                } else if right.owns_none() {
                    let p = left.split_parts();
                    (
                        IdTree::Node {
                            left: Box::new(p.0),
                            right: Box::new(IdTree::Leaf { i: false }),
                        },
                        IdTree::Node {
                            left: Box::new(p.1),
                            right: Box::new(IdTree::Leaf { i: false }),
                        },
                    )
                } else {
                    (
                        IdTree::Node {
                            left,
                            right: Box::new(IdTree::Leaf { i: false }),
                        },
                        IdTree::Node {
                            left: Box::new(IdTree::Leaf { i: false }),
                            right,
                        },
                    )
                }
            },
        }
    }

    /// Whether two identity trees have shapes that `summed` can recombine:
    /// wherever neither side is an owns-nothing leaf, both must split.
    pub open spec fn can_sum(self, other: IdTree) -> bool
        decreases self,
    {
        if self.owns_none() || other.owns_none() {
            true
        } else {
            &&& self matches (IdTree::Node { left: l1, right: r1 })
            &&& other matches (IdTree::Node { left: l2, right: r2 })
            &&& l1.can_sum(*l2)
            &&& r1.can_sum(*r2)
        }
    }

    /// The recombination of two disjoint identity shares, normalized.
    pub open spec fn summed(self, other: IdTree) -> IdTree
        decreases self,
    {
        if self.owns_none() {
            other
        } else if other.owns_none() {
            self
        } else {
            match (self, other) {
                (
                    IdTree::Node { left: l1, right: r1 },
                    IdTree::Node { left: l2, right: r2 },
                ) => (IdTree::Node {
                    left: Box::new(l1.summed(*l2)),
                    right: Box::new(r1.summed(*r2)),
                }).normalized(),
                _ => self,
            }
        }
    }

    /// Canonicalizes this identity bottom up.
    pub fn norm(self) -> (r: Self)
        ensures
            r == self.normalized(),
        decreases self,
    {
        match self {
            IdTree::Leaf { i } => IdTree::Leaf { i },
            IdTree::Node { left, right } => {
                let nl = (*left).norm();
                let nr = (*right).norm();
                match (&nl, &nr) {
                    (IdTree::Leaf { i: a }, IdTree::Leaf { i: b }) if *a == *b => nl,
                    _ => IdTree::Node { left: Box::new(nl), right: Box::new(nr) },
                }
            },
        }
    }

    /// Splits this identity into two disjoint shares whose recombination
    /// is this identity again, up to normalization.
    pub fn split(&self) -> (r: (Self, Self))
        ensures
            r.0 == self.split_parts().0,
            r.1 == self.split_parts().1,
        decreases *self,
    {
        match self {
            IdTree::Leaf { i } => {
                if !*i {
                    (IdTree::zero(), IdTree::zero())
                } else {
                    (
                        IdTree::node(Box::new(IdTree::one()), Box::new(IdTree::zero())),
                        IdTree::node(Box::new(IdTree::zero()), Box::new(IdTree::one())),
                    )
                }
            },
            IdTree::Node { left, right } => {
                if left.is_zero() {
                    let (i1, i2) = right.split();
                    (
                        IdTree::node(Box::new(IdTree::zero()), Box::new(i1)),
                        IdTree::node(Box::new(IdTree::zero()), Box::new(i2)),
                    )
                } else if right.is_zero() {
                    let (i1, i2) = left.split();
                    (
                        IdTree::node(Box::new(i1), Box::new(IdTree::zero())),
                        IdTree::node(Box::new(i2), Box::new(IdTree::zero())),
                    )
                } else {
                    (
                        IdTree::node(Box::new(left.clone_tree()), Box::new(IdTree::zero())),
                        IdTree::node(Box::new(IdTree::zero()), Box::new(right.clone_tree())),
                    )
                }
            },
        }
    }

    /// Recombines a disjoint share into this identity.
    ///
    /// The two shares are expected to come from a common fork lineage;
    /// overlap between them is a misuse this function cannot detect.
    pub fn sum(&self, other: &IdTree) -> (r: Self)
        requires
            self.can_sum(*other),
        ensures
            r == self.summed(*other),
        decreases *self,
    {
        if self.is_zero() {
            return other.clone_tree();
        }
        if other.is_zero() {
            return self.clone_tree();
        }
        match (self, other) {
            (IdTree::Node { left: l1, right: r1 }, IdTree::Node { left: l2, right: r2 }) => {
                let nl = l1.sum(l2);
                let nr = r1.sum(r2);
                IdTree::node(Box::new(nl), Box::new(nr)).norm()
            },
            _ => {
                proof {
                    assert(false);
                }
                IdTree::zero()
            },
        }
    }

    /// Is this tree exactly the owns-nothing leaf?
    pub fn is_zero(&self) -> (r: bool)
        ensures
            r == self.owns_none(),
    {
        match self {
            IdTree::Leaf { i } => !*i,
            _ => false,
        }
    }

    /// Is this tree exactly the owns-everything leaf?
    pub fn is_one(&self) -> (r: bool)
        ensures
            r == self.owns_all(),
    {
        match self {
            IdTree::Leaf { i } => *i,
            _ => false,
        }
    }

    /// A deep copy of this identity.
    pub fn clone_tree(&self) -> (r: Self)
        ensures
            r == *self,
        decreases *self,
    {
        match self {
            IdTree::Leaf { i } => IdTree::Leaf { i: *i },
            IdTree::Node { left, right } => IdTree::Node {
                left: Box::new(left.clone_tree()),
                right: Box::new(right.clone_tree()),
            },
        }
    }

    /// Structural equality of two identities.
    pub fn same(&self, other: &IdTree) -> (r: bool)
        ensures
            r == (*self == *other),
        decreases *self,
    {
        match (self, other) {
            (IdTree::Leaf { i: a }, IdTree::Leaf { i: b }) => *a == *b,
            (IdTree::Node { left: l1, right: r1 }, IdTree::Node { left: l2, right: r2 }) => {
                l1.same(l2) && r1.same(r2)
            },
            _ => false,
        }
    }
}

impl Clone for IdTree {
    fn clone(&self) -> (r: Self)
        ensures
            r == *self,
    {
        self.clone_tree()
    }
}

impl PartialEq for IdTree {
    fn eq(&self, other: &Self) -> (r: bool) {
        self.same(other)
    }
}

impl vstd::std_specs::cmp::PartialEqSpecImpl for IdTree {
    open spec fn obeys_eq_spec() -> bool {
        true
    }

    open spec fn eq_spec(&self, other: &Self) -> bool {
        *self == *other
    }
}

impl Eq for IdTree {}

/// Normalization yields a normal identity tree.
pub proof fn lemma_id_norm_normal(id: IdTree)
    ensures
        id.normalized().is_normal(),
    decreases id,
{
    match id {
        IdTree::Leaf { .. } => {},
        IdTree::Node { left, right } => {
            lemma_id_norm_normal(*left);
            lemma_id_norm_normal(*right);
        },
    }
}

/// Normalization leaves a normal identity tree untouched.
pub proof fn lemma_id_norm_of_normal(id: IdTree)
    requires
        id.is_normal(),
    ensures
        id.normalized() == id,
    decreases id,
{
    match id {
        IdTree::Leaf { .. } => {},
        IdTree::Node { left, right } => {
            lemma_id_norm_of_normal(*left);
            lemma_id_norm_of_normal(*right);
        },
    }
}

/// Splitting a normal identity yields two normal shares.
pub proof fn lemma_split_parts_normal(id: IdTree)
    requires
        id.is_normal(),
    ensures
        id.split_parts().0.is_normal(),
        id.split_parts().1.is_normal(),
    decreases id,
{
    reveal_with_fuel(IdTree::is_normal, 3);
    match id {
        IdTree::Leaf { .. } => {},
        IdTree::Node { left, right } => {
            if left.owns_none() {
                lemma_split_parts_normal(*right);
                lemma_split_never_none(*right);
                let p = right.split_parts();
                assert(id.split_parts().0 == (IdTree::Node {
                    left: Box::new(IdTree::Leaf { i: false }),
                    right: Box::new(p.0),
                }));
                assert(id.split_parts().1 == (IdTree::Node {
                    left: Box::new(IdTree::Leaf { i: false }),
                    right: Box::new(p.1),
                }));
            } else if right.owns_none() {
                lemma_split_parts_normal(*left);
                lemma_split_never_none(*left);
                let p = left.split_parts();
                assert(id.split_parts().0 == (IdTree::Node {
                    left: Box::new(p.0),
                    right: Box::new(IdTree::Leaf { i: false }),
                }));
                assert(id.split_parts().1 == (IdTree::Node {
                    left: Box::new(p.1),
                    right: Box::new(IdTree::Leaf { i: false }),
                }));
            }
        },
    }
}

/// Splitting anything but the owns-nothing leaf never produces an
/// owns-nothing leaf as either share.
pub proof fn lemma_split_never_none(id: IdTree)
    requires
        !id.owns_none(),
    ensures
        !id.split_parts().0.owns_none(),
        !id.split_parts().1.owns_none(),
{
}

/// The owns-nothing leaf is disjoint from everything, on either side.
pub proof fn lemma_disjoint_none(x: IdTree)
    ensures
        x.disjoint_from(IdTree::Leaf { i: false }),
        (IdTree::Leaf { i: false }).disjoint_from(x),
{
    match x {
        IdTree::Leaf { .. } => {},
        IdTree::Node { .. } => {},
    }
}

/// Splitting an identity and summing the two shares reproduces the
/// identity, up to normalization: fork and join round-trip identity
/// exactly. The shares can always be summed, and [`lemma_split_disjoint`]
/// shows they are disjoint.
pub proof fn lemma_split_sum_roundtrip(id: IdTree)
    ensures
        id.split_parts().0.can_sum(id.split_parts().1),
        id.split_parts().0.summed(id.split_parts().1) == id.normalized(),
    decreases id,
{
    reveal_with_fuel(IdTree::can_sum, 3);
    let nil = IdTree::Leaf { i: false };
    let full = IdTree::Leaf { i: true };
    match id {
        IdTree::Leaf { i } => {
            if i {
                let a = id.split_parts().0;
                let b = id.split_parts().1;
                assert(full.summed(nil) == full);
                assert(nil.summed(full) == full);
                assert(a.summed(b) == (IdTree::Node {
                    left: Box::new(full),
                    right: Box::new(full),
                }).normalized());
                assert(full.normalized() == full);
                assert((IdTree::Node {
                    left: Box::new(full),
                    right: Box::new(full),
                }).normalized() == full);
            }
        },
        IdTree::Node { left, right } => {
            if left.owns_none() {
                lemma_split_sum_roundtrip(*right);
                let p = right.split_parts();
                lemma_id_norm_normal(*right);
                lemma_id_norm_of_normal(right.normalized());
                let rn = right.normalized();
                assert(nil.summed(nil) == nil);
                assert(id.split_parts().0.summed(id.split_parts().1) == (IdTree::Node {
                    left: Box::new(nil),
                    right: Box::new(p.0.summed(p.1)),
                }).normalized());
                assert(nil.normalized() == nil);
                assert((IdTree::Node {
                    left: Box::new(nil),
                    right: Box::new(rn),
                }).normalized() == id.normalized());
            } else if right.owns_none() {
                lemma_split_sum_roundtrip(*left);
                let p = left.split_parts();
                lemma_id_norm_normal(*left);
                lemma_id_norm_of_normal(left.normalized());
                let ln = left.normalized();
                assert(nil.summed(nil) == nil);
                assert(id.split_parts().0.summed(id.split_parts().1) == (IdTree::Node {
                    left: Box::new(p.0.summed(p.1)),
                    right: Box::new(nil),
                }).normalized());
                assert(nil.normalized() == nil);
                assert((IdTree::Node {
                    left: Box::new(ln),
                    right: Box::new(nil),
                }).normalized() == id.normalized());
            } else {
                assert(left.summed(nil) == *left);
                assert(nil.summed(*right) == *right);
                assert(id.split_parts().0.summed(id.split_parts().1) == (IdTree::Node {
                    left,
                    right,
                }).normalized());
            }
        },
    }
}

/// On a normal identity the round trip is exact: summing the two shares of
/// a split gives back the very tree that was split.
pub proof fn lemma_split_sum_identity(id: IdTree)
    requires
        id.is_normal(),
    ensures
        id.split_parts().0.summed(id.split_parts().1) == id,
{
    lemma_split_sum_roundtrip(id);
    lemma_id_norm_of_normal(id);
}

/// The two shares that a split produces own no position in common.
pub proof fn lemma_split_disjoint(id: IdTree)
    ensures
        id.split_parts().0.disjoint_from(id.split_parts().1),
    decreases id,
{
    reveal_with_fuel(IdTree::disjoint_from, 3);
    reveal_with_fuel(IdTree::blank, 2);
    match id {
        IdTree::Leaf { .. } => {},
        IdTree::Node { left, right } => {
            if left.owns_none() {
                lemma_split_disjoint(*right);
            } else if right.owns_none() {
                lemma_split_disjoint(*left);
            } else {
                lemma_disjoint_none(*left);
                lemma_disjoint_none(*right);
            }
        },
    }
}

/// Summing two normal identity trees yields a normal tree.
pub proof fn lemma_summed_normal(a: IdTree, b: IdTree)
    requires
        a.is_normal(),
        b.is_normal(),
    ensures
        a.summed(b).is_normal(),
{
    if a.owns_none() || b.owns_none() {
    } else {
        match (a, b) {
            (IdTree::Node { left: l1, right: r1 }, IdTree::Node { left: l2, right: r2 }) => {
                lemma_id_norm_normal(
                    IdTree::Node {
                        left: Box::new(l1.summed(*l2)),
                        right: Box::new(r1.summed(*r2)),
                    },
                );
            },
            _ => {},
        }
    }
}

// ---------------------------------------------------------------------------
// Event trees: the mathematical model
// ---------------------------------------------------------------------------

/// The mathematical model of an event tree: the same shape as
/// [`EventTree`], but over unbounded integers, so that the algebra and its
/// laws can be stated without machine arithmetic. Exec values reach it
/// through `@`.
pub enum Ev {
    Leaf { n: int },
    Node { n: int, left: Box<Ev>, right: Box<Ev> },
}

impl Ev {
    /// The number of nodes in the tree.
    pub open spec fn size(self) -> nat
        decreases self,
    {
        match self {
            Ev::Leaf { .. } => 1,
            Ev::Node { left, right, .. } => 1 + left.size() + right.size(),
        }
    }

    /// The count stored at the top of the tree.
    pub open spec fn root(self) -> int {
        match self {
            Ev::Leaf { n } => n,
            Ev::Node { n, .. } => n,
        }
    }

    /// The largest path sum: the externally visible value of a clock
    /// holding this tree.
    pub open spec fn max_val(self) -> int
        decreases self,
    {
        match self {
            Ev::Leaf { n } => n,
            Ev::Node { n, left, right } => n + max(left.max_val(), right.max_val()),
        }
    }

    /// The smallest path sum: the number of events every position of this
    /// tree is guaranteed to have recorded.
    pub open spec fn min_val(self) -> int
        decreases self,
    {
        match self {
            Ev::Leaf { n } => n,
            Ev::Node { n, left, right } => n + min(left.min_val(), right.min_val()),
        }
    }

    /// The tree with `m` added to its top count.
    pub open spec fn lift(self, m: int) -> Ev {
        match self {
            Ev::Leaf { n } => Ev::Leaf { n: n + m },
            Ev::Node { n, left, right } => Ev::Node { n: n + m, left, right },
        }
    }

    /// The tree with `m` taken from its top count.
    pub open spec fn sink(self, m: int) -> Ev {
        match self {
            Ev::Leaf { n } => Ev::Leaf { n: n - m },
            Ev::Node { n, left, right } => Ev::Node { n: n - m, left, right },
        }
    }

    /// The canonical minimal form: equal-valued leaf pairs collapse into
    /// their parent, and the shared baseline of two children sinks into the
    /// parent's count.
    pub open spec fn norm(self) -> Ev
        decreases self,
    {
        match self {
            Ev::Leaf { .. } => self,
            Ev::Node { n, left, right } => {
                let nl = left.norm();
                let nr = right.norm();
                if nl matches (Ev::Leaf { n: a }) && nr == (Ev::Leaf { n: a }) {
                    Ev::Leaf { n: n + nl.root() }
                } else {
                    let m = min(nl.root(), nr.root());
                    Ev::Node {
                        n: n + m,
                        left: Box::new(nl.sink(m)),
                        right: Box::new(nr.sink(m)),
                    }
                }
            },
        }
    }

    /// Normal form: no two equal-valued leaf children, and every pair of
    /// children shares a zero baseline.
    pub open spec fn is_normal(self) -> bool
        decreases self,
    {
        match self {
            Ev::Leaf { .. } => true,
            Ev::Node { left, right, .. } => {
                &&& left.is_normal()
                &&& right.is_normal()
                &&& !((*left) matches (Ev::Leaf { n: a }) && *right == (Ev::Leaf { n: a }))
                &&& min(left.root(), right.root()) == 0
            },
        }
    }

    /// The causal union of two histories. A leaf meets a leaf at their
    /// maximum; a leaf facing a split is promoted to a degenerate split
    /// first; two splits are aligned on the smaller root and joined
    /// childwise.
    pub open spec fn join(self, other: Ev) -> Ev
        decreases self.size() + other.size(), 2int,
    {
        match (self, other) {
            (Ev::Leaf { n: n1 }, Ev::Leaf { n: n2 }) => Ev::Leaf { n: max(n1, n2) },
            (Ev::Leaf { n: n1 }, Ev::Node { n: n2, left: l2, right: r2 }) => join_nodes(
                n1,
                Ev::Leaf { n: 0 },
                Ev::Leaf { n: 0 },
                n2,
                *l2,
                *r2,
            ),
            (Ev::Node { n: n1, left: l1, right: r1 }, Ev::Leaf { n: n2 }) => join_nodes(
                n1,
                *l1,
                *r1,
                n2,
                Ev::Leaf { n: 0 },
                Ev::Leaf { n: 0 },
            ),
            (
                Ev::Node { n: n1, left: l1, right: r1 },
                Ev::Node { n: n2, left: l2, right: r2 },
            ) => join_nodes(n1, *l1, *r1, n2, *l2, *r2),
        }
    }

    /// Pulls down the knowledge that ownership already implies, without
    /// recording a new event: full ownership of a subtree collapses it to
    /// its maximum, and full ownership of one side of a split raises that
    /// side to at least the guaranteed floor of the other.
    pub open spec fn fill(self, id: IdTree) -> Ev
        decreases self,
    {
        if id.owns_none() {
            self
        } else if id.owns_all() {
            Ev::Leaf { n: self.max_val() }
        } else {
            match self {
                Ev::Leaf { .. } => self,
                Ev::Node { n, left, right } => match id {
                    IdTree::Node { left: il, right: ir } => {
                        if il.owns_all() {
                            let fr = right.fill(*ir);
                            (Ev::Node {
                                n,
                                left: Box::new(
                                    Ev::Leaf { n: max(left.max_val(), fr.min_val()) },
                                ),
                                right: Box::new(fr),
                            }).norm()
                        } else if ir.owns_all() {
                            let fl = left.fill(*il);
                            (Ev::Node {
                                n,
                                left: Box::new(fl),
                                right: Box::new(
                                    Ev::Leaf { n: max(right.max_val(), fl.min_val()) },
                                ),
                            }).norm()
                        } else {
                            (Ev::Node {
                                n,
                                left: Box::new(left.fill(*il)),
                                right: Box::new(right.fill(*ir)),
                            }).norm()
                        }
                    },
                    IdTree::Leaf { .. } => self,
                },
            }
        }
    }

    /// Whether `grow` can record an event here: the identity must own
    /// something, and wherever it owns a whole subtree the event tree must
    /// already have collapsed to a leaf there, which holding a `fill`
    /// fixpoint guarantees.
    pub open spec fn can_grow(self, id: IdTree) -> bool
        decreases id, (if self matches (Ev::Leaf { .. }) { 1int } else { 0int }),
    {
        match self {
            Ev::Leaf { n } => {
                if id.owns_all() {
                    true
                } else if id matches (IdTree::Node { .. }) {
                    (Ev::Node {
                        n,
                        left: Box::new(Ev::Leaf { n: 0 }),
                        right: Box::new(Ev::Leaf { n: 0 }),
                    }).can_grow(id)
                } else {
                    false
                }
            },
            Ev::Node { left, right, .. } => match id {
                IdTree::Node { left: il, right: ir } => {
                    if il.owns_none() {
                        right.can_grow(*ir)
                    } else if ir.owns_none() {
                        left.can_grow(*il)
                    } else {
                        left.can_grow(*il) && right.can_grow(*ir)
                    }
                },
                IdTree::Leaf { .. } => false,
            },
        }
    }

    /// Records one new event at the structurally cheapest owned position,
    /// returning the new tree and the expansion cost paid to reach it.
    pub open spec fn grow(self, id: IdTree) -> (Ev, int)
        decreases id, (if self matches (Ev::Leaf { .. }) { 1int } else { 0int }),
    {
        match self {
            Ev::Leaf { n } => {
                if id.owns_all() {
                    (Ev::Leaf { n: n + 1 }, 0)
                } else if id matches (IdTree::Node { .. }) {
                    let p = (Ev::Node {
                        n,
                        left: Box::new(Ev::Leaf { n: 0 }),
                        right: Box::new(Ev::Leaf { n: 0 }),
                    }).grow(id);
                    (p.0, p.1 + 1)
                } else {
                    (self, 0)
                }
            },
            Ev::Node { n, left, right } => match id {
                IdTree::Node { left: il, right: ir } => {
                    if il.owns_none() {
                        let p = right.grow(*ir);
                        (Ev::Node { n, left, right: Box::new(p.0) }, p.1 + 1)
                    } else if ir.owns_none() {
                        let p = left.grow(*il);
                        (Ev::Node { n, left: Box::new(p.0), right }, p.1 + 1)
                    } else {
                        let pl = left.grow(*il);
                        let pr = right.grow(*ir);
                        if pl.1 < pr.1 {
                            (Ev::Node { n, left: Box::new(pl.0), right }, pl.1 + 1)
                        } else {
                            (Ev::Node { n, left, right: Box::new(pr.0) }, pr.1 + 1)
                        }
                    }
                },
                IdTree::Leaf { .. } => (self, 0),
            },
        }
    }

    /// One tick of a clock holding this tree, as seen by the model: with an
    /// empty identity nothing changes; otherwise filling is tried first,
    /// and only a fill that changes nothing makes `grow` record a new
    /// event.
    pub open spec fn tick(self, id: IdTree) -> Ev {
        if id.owns_none() {
            self
        } else if self.fill(id) != self {
            self.fill(id)
        } else {
            self.grow(id).0
        }
    }
}

/// The split-against-split case of [`Ev::join`]: aligns the two subtrees on
/// the smaller root, joins the children, and normalizes.
pub open spec fn join_nodes(n1: int, l1: Ev, r1: Ev, n2: int, l2: Ev, r2: Ev) -> Ev
    decreases l1.size() + r1.size() + l2.size() + r2.size(), (if n1 > n2 { 1int } else { 0int }),
{
    if n1 > n2 {
        join_nodes(n2, l2, r2, n1, l1, r1)
    } else {
        let d = n2 - n1;
        (Ev::Node {
            n: n1,
            left: Box::new(l1.join(l2.lift(d))),
            right: Box::new(r1.join(r2.lift(d))),
        }).norm()
    }
}

// ---------------------------------------------------------------------------
// Facts about the model that the executable algebra leans on
// ---------------------------------------------------------------------------

/// Lifting shifts every summary of a tree by the lifted amount and keeps
/// its size.
pub proof fn lemma_lift_vals(x: Ev, m: int)
    ensures
        x.lift(m).root() == x.root() + m,
        x.lift(m).max_val() == x.max_val() + m,
        x.lift(m).min_val() == x.min_val() + m,
        x.lift(m).size() == x.size(),
{
    match x {
        Ev::Leaf { .. } => {},
        Ev::Node { .. } => {},
    }
}

/// Sinking shifts every summary of a tree down by the sunk amount.
pub proof fn lemma_sink_vals(x: Ev, m: int)
    ensures
        x.sink(m).root() == x.root() - m,
        x.sink(m).max_val() == x.max_val() - m,
        x.sink(m).min_val() == x.min_val() - m,
    {
    match x {
        Ev::Leaf { .. } => {},
        Ev::Node { .. } => {},
    }
}

/// Normalization changes neither the largest nor the smallest path sum.
pub proof fn lemma_norm_vals(x: Ev)
    ensures
        x.norm().max_val() == x.max_val(),
        x.norm().min_val() == x.min_val(),
    decreases x,
{
    match x {
        Ev::Leaf { .. } => {},
        Ev::Node { n, left, right } => {
            lemma_norm_vals(*left);
            lemma_norm_vals(*right);
            let nl = left.norm();
            let nr = right.norm();
            if nl matches (Ev::Leaf { n: a }) && nr == (Ev::Leaf { n: a }) {
            } else {
                let m = min(nl.root(), nr.root());
                lemma_sink_vals(nl, m);
                lemma_sink_vals(nr, m);
            }
        },
    }
}

// ---------------------------------------------------------------------------
// Event trees: the executable representation
// ---------------------------------------------------------------------------

/// A compressed record of how many events each part of the identity space
/// has observed. The count at any position is the sum of the counts on the
/// path from the root down to it.
#[derive(Debug)]
pub enum EventTree {
    Leaf { n: u32 },
    Node { n: u32, left: Box<EventTree>, right: Box<EventTree> },
}

/// The model of an executable event tree.
pub open spec fn ev_of(e: EventTree) -> Ev
    decreases e,
{
    match e {
        EventTree::Leaf { n } => Ev::Leaf { n: n as int },
        EventTree::Node { n, left, right } => Ev::Node {
            n: n as int,
            left: Box::new(ev_of(*left)),
            right: Box::new(ev_of(*right)),
        },
    }
}

impl View for EventTree {
    type V = Ev;

    open spec fn view(&self) -> Ev {
        ev_of(*self)
    }
}

/// Every summary of an executable tree's model is non-negative, and they
/// are ordered: the root count bounds the smallest path sum from below,
/// which bounds the largest.
pub proof fn lemma_view_bounds(e: EventTree)
    ensures
        0 <= e@.root(),
        e@.root() <= e@.min_val(),
        e@.min_val() <= e@.max_val(),
    decreases e,
{
    match e {
        EventTree::Leaf { .. } => {},
        EventTree::Node { left, right, .. } => {
            lemma_view_bounds(*left);
            lemma_view_bounds(*right);
        },
    }
}

impl EventTree {
    /// The empty history.
    pub fn zero() -> (r: Self)
        ensures
            r@ == (Ev::Leaf { n: 0 }),
    {
        EventTree::Leaf { n: 0 }
    }

    /// A history collapsed to a single count.
    pub fn leaf(n: u32) -> (r: Self)
        ensures
            r@ == (Ev::Leaf { n: n as int }),
    {
        EventTree::Leaf { n }
    }

    /// A history split below a shared count.
    pub fn node(n: u32, left: Box<EventTree>, right: Box<EventTree>) -> (r: Self)
        ensures
            r@ == (Ev::Node {
                n: n as int,
                left: Box::new((*left)@),
                right: Box::new((*right)@),
            }),
    {
        EventTree::Node { n, left, right }
    }

    /// The count stored at the top of this tree.
    pub fn n(&self) -> (r: u32)
        ensures
            r as int == self@.root(),
    {
        match self {
            EventTree::Leaf { n } => *n,
            EventTree::Node { n, .. } => *n,
        }
    }

    /// The largest path sum of this tree.
    pub fn max(&self) -> (r: u32)
        requires
            self@.max_val() <= u32::MAX,
        ensures
            r as int == self@.max_val(),
        decreases *self,
    {
        match self {
            EventTree::Leaf { n } => *n,
            EventTree::Node { n, left, right } => {
                proof {
                    lemma_view_bounds(*self);
                    lemma_view_bounds(**left);
                    lemma_view_bounds(**right);
                }
                let ml = left.max();
                let mr = right.max();
                *n + (if ml > mr {
                    ml
                } else {
                    mr
                })
            },
        }
    }

    /// The smallest path sum of this tree.
    pub fn min(&self) -> (r: u32)
        requires
            self@.max_val() <= u32::MAX,
        ensures
            r as int == self@.min_val(),
        decreases *self,
    {
        match self {
            EventTree::Leaf { n } => *n,
            EventTree::Node { n, left, right } => {
                proof {
                    lemma_view_bounds(*self);
                    lemma_view_bounds(**left);
                    lemma_view_bounds(**right);
                }
                let ml = left.min();
                let mr = right.min();
                *n + (if ml < mr {
                    ml
                } else {
                    mr
                })
            },
        }
    }

    /// Adds `m` to the top count.
    pub fn lift(self, m: u32) -> (r: Self)
        requires
            self@.root() + m <= u32::MAX,
        ensures
            r@ == self@.lift(m as int),
    {
        match self {
            EventTree::Leaf { n } => EventTree::Leaf { n: n + m },
            EventTree::Node { n, left, right } => EventTree::Node { n: n + m, left, right },
        }
    }

    /// Takes `m` from the top count.
    pub fn sink(self, m: u32) -> (r: Self)
        requires
            m as int <= self@.root(),
        ensures
            r@ == self@.sink(m as int),
    {
        match self {
            EventTree::Leaf { n } => EventTree::Leaf { n: n - m },
            EventTree::Node { n, left, right } => EventTree::Node { n: n - m, left, right },
        }
    }

    /// Canonicalizes this tree bottom up: collapses equal leaf pairs and
    /// sinks shared baselines into the parent.
    pub fn norm(self) -> (r: Self)
        requires
            self@.max_val() <= u32::MAX,
        ensures
            r@ == self@.norm(),
            r@.max_val() == self@.max_val(),
        decreases self,
    {
        proof {
            lemma_norm_vals(self@);
        }
        match self {
            EventTree::Leaf { .. } => self,
            EventTree::Node { n, left, right } => {
                proof {
                    lemma_view_bounds(*left);
                    lemma_view_bounds(*right);
                }
                let nl = (*left).norm();
                let nr = (*right).norm();
                let keep_split = match (&nl, &nr) {
                    (EventTree::Leaf { n: a }, EventTree::Leaf { n: b }) => *a != *b,
                    _ => true,
                };
                if !keep_split {
                    let a = nl.n();
                    EventTree::leaf(n + a)
                } else {
                    proof {
                        lemma_view_bounds(nl);
                        lemma_view_bounds(nr);
                    }
                    let rl = nl.n();
                    let rr = nr.n();
                    let m = if rl < rr {
                        rl
                    } else {
                        rr
                    };
                    EventTree::node(n + m, Box::new(nl.sink(m)), Box::new(nr.sink(m)))
                }
            },
        }
    }

    /// A deep copy of this tree.
    pub fn clone_tree(&self) -> (r: Self)
        ensures
            r == *self,
        decreases *self,
    {
        match self {
            EventTree::Leaf { n } => EventTree::Leaf { n: *n },
            EventTree::Node { n, left, right } => EventTree::Node {
                n: *n,
                left: Box::new(left.clone_tree()),
                right: Box::new(right.clone_tree()),
            },
        }
    }

    /// Structural equality of two trees.
    pub fn same(&self, other: &EventTree) -> (r: bool)
        ensures
            r == (self@ == other@),
        decreases *self,
    {
        match (self, other) {
            (EventTree::Leaf { n: a }, EventTree::Leaf { n: b }) => *a == *b,
            (
                EventTree::Node { n: n1, left: l1, right: r1 },
                EventTree::Node { n: n2, left: l2, right: r2 },
            ) => *n1 == *n2 && l1.same(l2) && r1.same(r2),
            _ => false,
        }
    }
}

impl Clone for EventTree {
    fn clone(&self) -> (r: Self)
        ensures
            r == *self,
    {
        self.clone_tree()
    }
}

impl PartialEq for EventTree {
    fn eq(&self, other: &Self) -> (r: bool) {
        self.same(other)
    }
}

impl vstd::std_specs::cmp::PartialEqSpecImpl for EventTree {
    open spec fn obeys_eq_spec() -> bool {
        true
    }

    open spec fn eq_spec(&self, other: &Self) -> bool {
        self@ == other@
    }
}

impl Eq for EventTree {}

// ---------------------------------------------------------------------------
// Expansion cost
// ---------------------------------------------------------------------------

/// The expense of recording an event at some position: how many levels had
/// to be entered or expanded to reach it. `grow` computes one per branch
/// and keeps the cheaper side; the value is never persisted.
#[derive(Debug)]
pub struct Cost(i32);

impl View for Cost {
    type V = int;

    closed spec fn view(&self) -> int {
        self.0 as int
    }
}

impl Cost {
    /// The cost of stamping a leaf in place.
    pub fn zero() -> (r: Self)
        ensures
            r@ == 0,
    {
        Cost(0)
    }

    /// One level deeper.
    pub fn shift(self) -> (r: Self)
        requires
            self@ < i32::MAX,
        ensures
            r@ == self@ + 1,
    {
        Cost(self.0 + 1)
    }
}

/// Identity trees are at least as tall as a lone leaf.
pub proof fn lemma_id_height_nonneg(id: IdTree)
    ensures
        id.height() >= 0,
    decreases id,
{
    match id {
        IdTree::Leaf { .. } => {},
        IdTree::Node { left, right } => {
            lemma_id_height_nonneg(*left);
            lemma_id_height_nonneg(*right);
        },
    }
}

/// Growing never costs more than walking and expanding along the identity
/// tree: the cost is bounded by twice the identity's height plus one.
pub proof fn lemma_grow_cost(e: Ev, id: IdTree)
    requires
        e.can_grow(id),
    ensures
        0 <= e.grow(id).1,
        e.grow(id).1 <= 2 * id.height() + 1,
        e matches (Ev::Node { .. }) ==> e.grow(id).1 <= 2 * id.height(),
    decreases id, (if e matches (Ev::Leaf { .. }) { 1int } else { 0int }),
{
    lemma_id_height_nonneg(id);
    match e {
        Ev::Leaf { n } => {
            if id.owns_all() {
            } else if id matches (IdTree::Node { .. }) {
                lemma_grow_cost(
                    Ev::Node {
                        n,
                        left: Box::new(Ev::Leaf { n: 0 }),
                        right: Box::new(Ev::Leaf { n: 0 }),
                    },
                    id,
                );
            }
        },
        Ev::Node { left, right, .. } => {
            match id {
                IdTree::Node { left: il, right: ir } => {
                    lemma_id_height_nonneg(*il);
                    lemma_id_height_nonneg(*ir);
                    if il.owns_none() {
                        lemma_grow_cost(*right, *ir);
                    } else if ir.owns_none() {
                        lemma_grow_cost(*left, *il);
                    } else {
                        lemma_grow_cost(*left, *il);
                        lemma_grow_cost(*right, *ir);
                    }
                },
                IdTree::Leaf { .. } => {},
            }
        },
    }
}

// ---------------------------------------------------------------------------
// Normal forms of the model, and why a fill fixpoint lets grow proceed
// ---------------------------------------------------------------------------

/// Sinking by nothing changes nothing.
pub proof fn lemma_sink_zero(x: Ev)
    ensures
        x.sink(0) == x,
{
    match x {
        Ev::Leaf { .. } => {},
        Ev::Node { .. } => {},
    }
}

/// Sinking touches only the top count, so it preserves normality.
pub proof fn lemma_sink_normal(x: Ev, m: int)
    ensures
        x.sink(m).is_normal() == x.is_normal(),
{
    match x {
        Ev::Leaf { .. } => {},
        Ev::Node { .. } => {},
    }
}

/// Normalization yields a normal tree.
pub proof fn lemma_norm_normal(x: Ev)
    ensures
        x.norm().is_normal(),
    decreases x,
{
    match x {
        Ev::Leaf { .. } => {},
        Ev::Node { n, left, right } => {
            lemma_norm_normal(*left);
            lemma_norm_normal(*right);
            let nl = left.norm();
            let nr = right.norm();
            if nl matches (Ev::Leaf { n: a }) && nr == (Ev::Leaf { n: a }) {
            } else {
                let m = min(nl.root(), nr.root());
                lemma_sink_vals(nl, m);
                lemma_sink_vals(nr, m);
                lemma_sink_normal(nl, m);
                lemma_sink_normal(nr, m);
            }
        },
    }
}

/// Normalization leaves a normal tree untouched.
pub proof fn lemma_norm_of_normal(x: Ev)
    requires
        x.is_normal(),
    ensures
        x.norm() == x,
    decreases x,
{
    match x {
        Ev::Leaf { .. } => {},
        Ev::Node { left, right, .. } => {
            lemma_norm_of_normal(*left);
            lemma_norm_of_normal(*right);
            lemma_sink_zero(*left);
            lemma_sink_zero(*right);
        },
    }
}

/// A lone count can always absorb a new event under any non-empty normal
/// identity: expansion reaches an owned leaf eventually.
pub proof fn lemma_can_grow_leaf(n: int, id: IdTree)
    requires
        id.is_normal(),
        !id.owns_none(),
    ensures
        (Ev::Leaf { n }).can_grow(id),
    decreases id,
{
    match id {
        IdTree::Leaf { .. } => {},
        IdTree::Node { left, right } => {
            if left.owns_none() {
                lemma_can_grow_leaf(0, *right);
            } else if right.owns_none() {
                lemma_can_grow_leaf(0, *left);
            } else {
                lemma_can_grow_leaf(0, *left);
                lemma_can_grow_leaf(0, *right);
            }
            let expanded = Ev::Node {
                n,
                left: Box::new(Ev::Leaf { n: 0 }),
                right: Box::new(Ev::Leaf { n: 0 }),
            };
            assert(expanded.can_grow(id));
        },
    }
}

/// A tree that equals the normalization of a split with its own root count
/// on top equals that split with its children individually normalized: the
/// collapse case would make it a leaf, and a sunken baseline would change
/// the root.
proof fn lemma_norm_fixpoint_node(n: int, l: Ev, r: Ev, e: Ev)
    requires
        e == (Ev::Node { n, left: Box::new(l), right: Box::new(r) }).norm(),
        e matches (Ev::Node { .. }),
        e.root() == n,
    ensures
        e == (Ev::Node { n, left: Box::new(l.norm()), right: Box::new(r.norm()) }),
{
    let built = Ev::Node { n, left: Box::new(l), right: Box::new(r) };
    let nl = l.norm();
    let nr = r.norm();
    if nl matches (Ev::Leaf { n: a }) && nr == (Ev::Leaf { n: a }) {
        assert(built.norm() == (Ev::Leaf { n: n + nl.root() }));
        assert(false);
    } else {
        let m = min(nl.root(), nr.root());
        assert(built.norm() == (Ev::Node {
            n: n + m,
            left: Box::new(nl.sink(m)),
            right: Box::new(nr.sink(m)),
        }));
        assert(m == 0);
        lemma_sink_zero(nl);
        lemma_sink_zero(nr);
    }
}

/// When filling changes nothing, the event tree has already collapsed to a
/// leaf wherever the identity owns a whole subtree, so `grow` can proceed:
/// a tick is safe whenever its fill pass came back unchanged.
pub proof fn lemma_fill_fixpoint_can_grow(e: Ev, id: IdTree)
    requires
        id.is_normal(),
        !id.owns_none(),
        e == e.fill(id) || e == e.fill(id).norm(),
    ensures
        e.can_grow(id),
    decreases id,
{
    if id.owns_all() {
        assert(e.fill(id) == (Ev::Leaf { n: e.max_val() }));
        assert((Ev::Leaf { n: e.max_val() }).norm() == (Ev::Leaf { n: e.max_val() }));
        assert(e matches (Ev::Leaf { .. }));
    } else {
        match e {
            Ev::Leaf { n } => {
                lemma_can_grow_leaf(n, id);
            },
            Ev::Node { n, left, right } => {
                match id {
                    IdTree::Leaf { .. } => {
                        assert(false);
                    },
                    IdTree::Node { left: il, right: ir } => {
                        if il.owns_all() {
                            let fr = right.fill(*ir);
                            let x = Ev::Leaf { n: max(left.max_val(), fr.min_val()) };
                            let built = Ev::Node {
                                n,
                                left: Box::new(x),
                                right: Box::new(fr),
                            };
                            assert(e.fill(id) == built.norm());
                            lemma_norm_normal(built);
                            lemma_norm_of_normal(built.norm());
                            assert(e == built.norm());
                            lemma_norm_fixpoint_node(n, x, fr, e);
                            assert(x.norm() == x);
                            assert(*left == x);
                            assert(*right == fr.norm());
                            assert((*left).can_grow(*il));
                            if !ir.owns_none() {
                                lemma_fill_fixpoint_can_grow(*right, *ir);
                            }
                        } else if ir.owns_all() {
                            let fl = left.fill(*il);
                            let x = Ev::Leaf { n: max(right.max_val(), fl.min_val()) };
                            let built = Ev::Node {
                                n,
                                left: Box::new(fl),
                                right: Box::new(x),
                            };
                            assert(e.fill(id) == built.norm());
                            lemma_norm_normal(built);
                            lemma_norm_of_normal(built.norm());
                            assert(e == built.norm());
                            lemma_norm_fixpoint_node(n, fl, x, e);
                            assert(x.norm() == x);
                            assert(*right == x);
                            assert(*left == fl.norm());
                            assert((*right).can_grow(*ir));
                            if !il.owns_none() {
                                lemma_fill_fixpoint_can_grow(*left, *il);
                            }
                        } else {
                            let fl = left.fill(*il);
                            let fr = right.fill(*ir);
                            let built = Ev::Node {
                                n,
                                left: Box::new(fl),
                                right: Box::new(fr),
                            };
                            assert(e.fill(id) == built.norm());
                            lemma_norm_normal(built);
                            lemma_norm_of_normal(built.norm());
                            assert(e == built.norm());
                            lemma_norm_fixpoint_node(n, fl, fr, e);
                            assert(*left == fl.norm());
                            assert(*right == fr.norm());
                            if il.owns_none() {
                                lemma_fill_fixpoint_can_grow(*right, *ir);
                            } else if ir.owns_none() {
                                lemma_fill_fixpoint_can_grow(*left, *il);
                            } else {
                                lemma_fill_fixpoint_can_grow(*left, *il);
                                lemma_fill_fixpoint_can_grow(*right, *ir);
                            }
                        }
                    },
                }
            },
        }
    }
}

impl EventTree {
    /// The causal union of two histories. It is the merge operation of an
    /// event clock: idempotent on normal trees, commutative and
    /// associative, as the lemmas in [`crate::itc_laws`] establish over
    /// the model.
    pub fn join(&self, other: &EventTree) -> (r: EventTree)
        requires
            self@.max_val() <= u32::MAX,
            other@.max_val() <= u32::MAX,
        ensures
            r@ == self@.join(other@),
            r@.max_val() == max(self@.max_val(), other@.max_val()),
        decreases self@.size() + other@.size(), 2int,
    {
        match (self, other) {
            (EventTree::Leaf { n: n1 }, EventTree::Leaf { n: n2 }) => EventTree::leaf(
                if *n1 > *n2 {
                    *n1
                } else {
                    *n2
                },
            ),
            (EventTree::Leaf { n: n1 }, EventTree::Node { n: n2, left: l2, right: r2 }) => {
                let z1 = EventTree::zero();
                let z2 = EventTree::zero();
                EventTree::join_nodes(*n1, &z1, &z2, *n2, l2, r2)
            },
            (EventTree::Node { n: n1, left: l1, right: r1 }, EventTree::Leaf { n: n2 }) => {
                let z1 = EventTree::zero();
                let z2 = EventTree::zero();
                EventTree::join_nodes(*n1, l1, r1, *n2, &z1, &z2)
            },
            (
                EventTree::Node { n: n1, left: l1, right: r1 },
                EventTree::Node { n: n2, left: l2, right: r2 },
            ) => EventTree::join_nodes(*n1, l1, r1, *n2, l2, r2),
        }
    }

    /// The split-against-split case of `join`: keeps the smaller root as
    /// the pivot, lifts the other side's children onto the shared
    /// baseline, joins childwise and normalizes.
    fn join_nodes(
        n1: u32,
        l1: &EventTree,
        r1: &EventTree,
        n2: u32,
        l2: &EventTree,
        r2: &EventTree,
    ) -> (r: EventTree)
        requires
            n1 as int + max(l1@.max_val(), r1@.max_val()) <= u32::MAX,
            n2 as int + max(l2@.max_val(), r2@.max_val()) <= u32::MAX,
        ensures
            r@ == join_nodes(n1 as int, l1@, r1@, n2 as int, l2@, r2@),
            r@.max_val() == max(
                n1 as int + max(l1@.max_val(), r1@.max_val()),
                n2 as int + max(l2@.max_val(), r2@.max_val()),
            ),
        decreases l1@.size() + r1@.size() + l2@.size() + r2@.size(),
            (if n1 > n2 {
                1int
            } else {
                0int
            }),
    {
        if n1 > n2 {
            EventTree::join_nodes(n2, l2, r2, n1, l1, r1)
        } else {
            let d = n2 - n1;
            proof {
                lemma_view_bounds(*l1);
                lemma_view_bounds(*r1);
                lemma_view_bounds(*l2);
                lemma_view_bounds(*r2);
                lemma_lift_vals(l2@, d as int);
                lemma_lift_vals(r2@, d as int);
            }
            let ll = l2.clone().lift(d);
            let rr = r2.clone().lift(d);
            let jl = l1.join(&ll);
            let jr = r1.join(&rr);
            EventTree::node(n1, Box::new(jl), Box::new(jr)).norm()
        }
    }

    /// Pulls the knowledge implied by `id`'s ownership down into this
    /// tree, without recording a new event. The externally visible value
    /// never changes; only the internal shape does.
    pub fn fill(&self, id: &IdTree) -> (r: EventTree)
        requires
            self@.max_val() <= u32::MAX,
        ensures
            r@ == self@.fill(*id),
            r@.max_val() == self@.max_val(),
        decreases *self,
    {
        if id.is_zero() {
            return self.clone_tree();
        }
        if id.is_one() {
            return EventTree::leaf(self.max());
        }
        match (self, id) {
            (EventTree::Leaf { .. }, _) => self.clone_tree(),
            (
                EventTree::Node { n, left, right },
                IdTree::Node { left: il, right: ir },
            ) => {
                proof {
                    lemma_view_bounds(**left);
                    lemma_view_bounds(**right);
                }
                if il.is_one() {
                    let fr = right.fill(ir);
                    proof {
                        lemma_view_bounds(fr);
                    }
                    let lm = left.max();
                    let rm = fr.min();
                    let nl = EventTree::leaf(
                        if lm > rm {
                            lm
                        } else {
                            rm
                        },
                    );
                    let t = EventTree::node(*n, Box::new(nl), Box::new(fr));
                    proof {
                        assert(nl@.max_val() == max(left@.max_val(), fr@.min_val()));
                        assert(t@.max_val() == n as int + max(nl@.max_val(), fr@.max_val()));
                        assert(t@.max_val() == self@.max_val());
                    }
                    t.norm()
                } else if ir.is_one() {
                    let fl = left.fill(il);
                    proof {
                        lemma_view_bounds(fl);
                    }
                    let rm = right.max();
                    let lm = fl.min();
                    let nr = EventTree::leaf(
                        if rm > lm {
                            rm
                        } else {
                            lm
                        },
                    );
                    let t = EventTree::node(*n, Box::new(fl), Box::new(nr));
                    proof {
                        assert(nr@.max_val() == max(right@.max_val(), fl@.min_val()));
                        assert(t@.max_val() == n as int + max(fl@.max_val(), nr@.max_val()));
                        assert(t@.max_val() == self@.max_val());
                    }
                    t.norm()
                } else {
                    let fl = left.fill(il);
                    let fr = right.fill(ir);
                    let t = EventTree::node(*n, Box::new(fl), Box::new(fr));
                    proof {
                        assert(t@.max_val() == n as int + max(fl@.max_val(), fr@.max_val()));
                        assert(t@.max_val() == self@.max_val());
                    }
                    t.norm()
                }
            },
            (EventTree::Node { .. }, IdTree::Leaf { .. }) => {
                proof {
                    assert(false);
                }
                self.clone_tree()
            },
        }
    }

    /// Records one new event at the cheapest position `id` owns, returning
    /// the new tree and the expansion cost paid. The externally visible
    /// value grows by at most one, and never shrinks.
    pub fn grow(&self, id: &IdTree) -> (r: (EventTree, Cost))
        requires
            self@.can_grow(*id),
            self@.max_val() < u32::MAX,
            2 * id.height() + 2 <= i32::MAX,
        ensures
            r.0@ == self@.grow(*id).0,
            r.1@ == self@.grow(*id).1,
            self@.max_val() <= r.0@.max_val(),
            r.0@.max_val() <= self@.max_val() + 1,
        decreases *id,
            (if (*self) matches (EventTree::Leaf { .. }) {
                1int
            } else {
                0int
            }),
    {
        match self {
            EventTree::Leaf { n } => {
                if id.is_one() {
                    (EventTree::leaf(*n + 1), Cost::zero())
                } else {
                    let ne = EventTree::node(
                        *n,
                        Box::new(EventTree::zero()),
                        Box::new(EventTree::zero()),
                    );
                    proof {
                        assert((Ev::Leaf { n: 0int }).max_val() == 0);
                        assert(ne@.max_val() == n as int);
                        lemma_grow_cost(ne@, *id);
                    }
                    let p = ne.grow(id);
                    (p.0, p.1.shift())
                }
            },
            EventTree::Node { n, left, right } => {
                match id {
                    IdTree::Leaf { .. } => {
                        proof {
                            assert(false);
                        }
                        (EventTree::zero(), Cost::zero())
                    },
                    IdTree::Node { left: il, right: ir } => {
                        proof {
                            lemma_view_bounds(**left);
                            lemma_view_bounds(**right);
                            lemma_id_height_nonneg(**il);
                            lemma_id_height_nonneg(**ir);
                        }
                        if il.is_zero() {
                            proof {
                                lemma_grow_cost(right@, **ir);
                            }
                            let p = right.grow(ir);
                            let t = EventTree::node(*n, Box::new(left.clone_tree()), Box::new(p.0));
                            proof {
                                assert(t@.max_val() == n as int + max(left@.max_val(), p.0@.max_val()));
                                assert(self@.max_val() == n as int + max(left@.max_val(), right@.max_val()));
                            }
                            (t, p.1.shift())
                        } else if ir.is_zero() {
                            proof {
                                lemma_grow_cost(left@, **il);
                            }
                            let p = left.grow(il);
                            let t = EventTree::node(*n, Box::new(p.0), Box::new(right.clone_tree()));
                            proof {
                                assert(t@.max_val() == n as int + max(p.0@.max_val(), right@.max_val()));
                                assert(self@.max_val() == n as int + max(left@.max_val(), right@.max_val()));
                            }
                            (t, p.1.shift())
                        } else {
                            proof {
                                lemma_grow_cost(left@, **il);
                                lemma_grow_cost(right@, **ir);
                            }
                            let pr = right.grow(ir);
                            let pl = left.grow(il);
                            if pl.1.0 < pr.1.0 {
                                let t = EventTree::node(
                                    *n,
                                    Box::new(pl.0),
                                    Box::new(right.clone_tree()),
                                );
                                proof {
                                    assert(t@.max_val() == n as int + max(pl.0@.max_val(), right@.max_val()));
                                    assert(self@.max_val() == n as int + max(left@.max_val(), right@.max_val()));
                                }
                                (t, pl.1.shift())
                            } else {
                                let t = EventTree::node(
                                    *n,
                                    Box::new(left.clone_tree()),
                                    Box::new(pr.0),
                                );
                                proof {
                                    assert(t@.max_val() == n as int + max(left@.max_val(), pr.0@.max_val()));
                                    assert(self@.max_val() == n as int + max(left@.max_val(), right@.max_val()));
                                }
                                (t, pr.1.shift())
                            }
                        }
                    },
                }
            },
        }
    }
}

// ---------------------------------------------------------------------------
// Replica and clock wrappers
// ---------------------------------------------------------------------------

/// The identity resource of an interval tree clock: one replica's share of
/// the identity space, handed to a clock as the context of a tick.
#[derive(Debug)]
pub struct ItcId(pub IdTree);

impl Clone for ItcId {
    fn clone(&self) -> (r: Self)
        ensures
            r == *self,
    {
        ItcId(self.0.clone_tree())
    }
}

impl PartialEq for ItcId {
    fn eq(&self, other: &Self) -> (r: bool) {
        self.0.same(&other.0)
    }
}

impl vstd::std_specs::cmp::PartialEqSpecImpl for ItcId {
    open spec fn obeys_eq_spec() -> bool {
        true
    }

    open spec fn eq_spec(&self, other: &Self) -> bool {
        *self == *other
    }
}

impl Eq for ItcId {}

/// The replica manager of an interval tree clock: owns one identity tree,
/// forks shares off it and joins them back.
#[derive(Debug)]
pub struct ItcReplica {
    pub tree: IdTree,
}

impl ItcReplica {
    /// A seed replica owning the entire identity space.
    pub fn new() -> (r: Self)
        ensures
            r.tree == (IdTree::Leaf { i: true }),
    {
        ItcReplica { tree: IdTree::one() }
    }
}

impl Default for ItcReplica {
    fn default() -> (r: Self)
        ensures
            r.tree == (IdTree::Leaf { i: true }),
    {
        ItcReplica::new()
    }
}

impl Clone for ItcReplica {
    fn clone(&self) -> (r: Self)
        ensures
            r == *self,
    {
        ItcReplica { tree: self.tree.clone_tree() }
    }
}

impl PartialEq for ItcReplica {
    fn eq(&self, other: &Self) -> (r: bool) {
        self.tree.same(&other.tree)
    }
}

impl vstd::std_specs::cmp::PartialEqSpecImpl for ItcReplica {
    open spec fn obeys_eq_spec() -> bool {
        true
    }

    open spec fn eq_spec(&self, other: &Self) -> bool {
        *self == *other
    }
}

impl Eq for ItcReplica {}

impl crate::replica::Replica for ItcReplica {
    type Id = ItcId;

    open spec fn inv(&self) -> bool {
        self.tree.is_normal()
    }

    open spec fn join_pre(&self, other: &Self) -> bool {
        other.tree.is_normal() && self.tree.can_sum(other.tree)
    }

    fn id(&self) -> (r: ItcId)
        ensures
            r.0 == self.tree,
    {
        ItcId(self.tree.clone_tree())
    }

    /// Splits this replica's identity: `self` keeps the first share, the
    /// returned sibling owns the second, the two shares are disjoint, and
    /// summing them gives back exactly the identity that was split.
    fn fork(&mut self) -> (r: Self)
        ensures
            final(self).tree == old(self).tree.split_parts().0,
            r.tree == old(self).tree.split_parts().1,
            final(self).tree.disjoint_from(r.tree),
            final(self).tree.can_sum(r.tree),
            final(self).tree.summed(r.tree) == old(self).tree,
    {
        proof {
            lemma_split_parts_normal(self.tree);
            lemma_split_disjoint(self.tree);
            lemma_split_sum_roundtrip(self.tree);
            lemma_split_sum_identity(self.tree);
        }
        let (mine, theirs) = self.tree.split();
        self.tree = mine;
        ItcReplica { tree: theirs }
    }

    /// Recombines a sibling's identity into this one. The sibling is
    /// expected to be disjoint, normally one obtained from a shared fork
    /// lineage; overlap cannot be detected here and corrupts causality.
    fn join(&mut self, other: Self)
        ensures
            final(self).tree == old(self).tree.summed(other.tree),
    {
        proof {
            lemma_summed_normal(self.tree, other.tree);
        }
        let t = self.tree.sum(&other.tree);
        self.tree = t;
    }
}

/// The event clock of an interval tree clock: owns one event tree, merges
/// histories and stamps new events.
#[derive(Debug)]
pub struct ItcClock {
    pub tree: EventTree,
}

impl Default for ItcClock {
    fn default() -> (r: Self)
        ensures
            r.tree@ == (Ev::Leaf { n: 0 }),
    {
        ItcClock { tree: EventTree::zero() }
    }
}

impl Clone for ItcClock {
    fn clone(&self) -> (r: Self)
        ensures
            r == *self,
    {
        ItcClock { tree: self.tree.clone_tree() }
    }
}

impl PartialEq for ItcClock {
    fn eq(&self, other: &Self) -> (r: bool) {
        self.tree.same(&other.tree)
    }
}

impl vstd::std_specs::cmp::PartialEqSpecImpl for ItcClock {
    open spec fn obeys_eq_spec() -> bool {
        true
    }

    open spec fn eq_spec(&self, other: &Self) -> bool {
        self.tree@ == other.tree@
    }
}

impl Eq for ItcClock {}

impl crate::traits::Crdt for ItcClock {
    type Value = u32;

    open spec fn inv(&self) -> bool {
        self.tree@.max_val() <= u32::MAX
    }

    open spec fn merge_pre(&self, other: &Self) -> bool {
        true
    }

    fn init() -> (r: Self)
        ensures
            r.tree@ == (Ev::Leaf { n: 0 }),
    {
        ItcClock { tree: EventTree::zero() }
    }

    /// Sets this clock to the causal union of the two histories. The union
    /// is idempotent, commutative and associative over the model, as
    /// proved in [`crate::itc_laws`].
    fn merge(&mut self, other: &Self)
        ensures
            final(self).tree@ == old(self).tree@.join(other.tree@),
            final(self).tree@.max_val() == max(
                old(self).tree@.max_val(),
                other.tree@.max_val(),
            ),
    {
        let t = self.tree.join(&other.tree);
        self.tree = t;
    }

    /// The current causal height: the largest path sum of the tree.
    fn value(&self) -> (r: u32)
        ensures
            r as int == self.tree@.max_val(),
    {
        self.tree.max()
    }
}

impl crate::traits::Apply for ItcClock {
    type Op = ();

    type Context = ItcId;

    open spec fn apply_pre(&self, op: (), ctx: ItcId) -> bool {
        &&& self.tree@.max_val() < u32::MAX
        &&& ctx.0.is_normal()
        &&& 2 * ctx.0.height() + 2 <= i32::MAX
    }

    /// One tick: first tries to fill, which canonicalizes knowledge the
    /// identity already implies; only when that changes nothing does it
    /// grow, recording a genuinely new event at minimal cost. The visible
    /// value never decreases and rises by at most one; a tick with an
    /// owns-nothing identity changes nothing at all.
    fn apply(&mut self, op: (), ctx: ItcId)
        ensures
            final(self).tree@ == old(self).tree@.tick(ctx.0),
            old(self).tree@.max_val() <= final(self).tree@.max_val(),
            final(self).tree@.max_val() <= old(self).tree@.max_val() + 1,
            old(self).tree@.fill(ctx.0) != old(self).tree@ ==> final(self).tree@.max_val()
                == old(self).tree@.max_val(),
            ctx.0.owns_none() ==> final(self).tree@ == old(self).tree@,
            final(self).tree@.max_val() <= u32::MAX,
    {
        let id = ctx.0;
        if id.is_zero() {
            return ;
        }
        let filled = self.tree.fill(&id);
        if !filled.same(&self.tree) {
            self.tree = filled;
        } else {
            proof {
                lemma_fill_fixpoint_can_grow(self.tree@, id);
            }
            let p = self.tree.grow(&id);
            self.tree = p.0;
        }
    }
}

} // verus!


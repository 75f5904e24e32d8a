//! The replicated-datatype capability traits: state merge and operation apply.

use vstd::prelude::*;

verus! {

/// The core capability of a conflict-free replicated datatype: merging
/// another replica's state into this one.
///
/// Implementations are expected to make `merge` idempotent, commutative and
/// associative; each implementation in this crate states its own exact
/// postcondition for `merge`, and the accompanying lemmas prove the three
/// laws for the interval tree clock's merge.
pub trait Crdt: Sized {
    /// The externally visible value this datatype projects to.
    type Value;

    /// The well-formedness condition that every live value of the datatype
    /// maintains.
    spec fn inv(&self) -> bool;

    /// When two instances may be merged. For most datatypes this is
    /// trivially true; a counter whose value lives in a machine word asks
    /// that the combined totals still fit.
    spec fn merge_pre(&self, other: &Self) -> bool;

    /// A fresh, empty instance.
    fn init() -> (r: Self)
        ensures
            r.inv(),
    ;

    /// Merges another instance's state into this one.
    fn merge(&mut self, other: &Self)
        requires
            old(self).inv(),
            other.inv(),
            old(self).merge_pre(other),
        ensures
            final(self).inv(),
    ;

    /// Projects the current state to its externally visible value.
    fn value(&self) -> Self::Value
        requires
            self.inv(),
    ;
}

/// The capability of applying a local operation to a replicated datatype.
///
/// Merging combines the states of two replicas; applying records a local
/// update on one of them. Keeping the two apart lets composite datatypes
/// merge field by field without naming every possible operation.
pub trait Apply {
    /// The operation to apply.
    type Op;

    /// The context the operation needs, such as the identity of the replica
    /// performing it.
    type Context;

    /// When it is legal to apply `op` in context `ctx` to this state.
    spec fn apply_pre(&self, op: Self::Op, ctx: Self::Context) -> bool;

    /// Applies one operation to the state.
    fn apply(&mut self, op: Self::Op, ctx: Self::Context)
        requires
            old(self).apply_pre(op, ctx),
    ;
}

} // verus!

//! The replica capability: owning, forking and rejoining an identity.

use vstd::prelude::*;

verus! {

/// An entity that identifies itself in a distributed system.
///
/// A replica owns an identity that signs its updates. The trait abstracts
/// over identity schemes: structural ones, where `fork` partitions an
/// identity space and `join` recombines it, and independent ones, where
/// `fork` mints a fresh identifier and `join` discards the other.
pub trait Replica: Sized {
    /// The identifier this replica produces.
    type Id;

    /// The well-formedness condition every live replica maintains.
    spec fn inv(&self) -> bool;

    /// When another replica may be joined back into this one. For
    /// structural identities this asks that the two shares fit together;
    /// for independent identities it is trivially true.
    spec fn join_pre(&self, other: &Self) -> bool;

    /// The current identifier of this replica.
    fn id(&self) -> Self::Id
        requires
            self.inv(),
    ;

    /// Splits this replica in two: `self` keeps one share of the identity,
    /// the returned replica owns the rest.
    fn fork(&mut self) -> (r: Self)
        requires
            old(self).inv(),
        ensures
            final(self).inv(),
            r.inv(),
    ;

    /// Merges another replica's identity back into this one, consuming it.
    fn join(&mut self, other: Self)
        requires
            old(self).inv(),
            old(self).join_pre(&other),
        ensures
            final(self).inv(),
    ;
}

} // verus!

//! A grow-only set: elements can be added, never removed.

use vstd::prelude::*;
use vstd::seq_lib::group_seq_properties;
use crate::traits::Crdt;
use crate::traits::Apply;

verus! {

broadcast use group_seq_properties;

/// A grow-only set of identifiers. Merging two sets takes their union, so
/// an element once added is never lost.
#[derive(Debug)]
pub struct GSet {
    elems: Vec<u64>,
}

impl View for GSet {
    type V = Set<u64>;

    closed spec fn view(&self) -> Set<u64> {
        self.elems@.to_set()
    }
}

impl GSet {
    /// The elements are stored without duplicates, so the vector's length
    /// is the set's cardinality.
    pub closed spec fn wf(&self) -> bool {
        self.elems@.no_duplicates()
    }

    /// A fresh, empty set.
    pub fn new() -> (r: Self)
        ensures
            r@ == Set::<u64>::empty(),
            r.wf(),
    {
        let r = GSet { elems: Vec::new() };
        proof {
            assert(r@ =~= Set::<u64>::empty());
        }
        r
    }

    /// Adds an element to the set.
    pub fn insert(&mut self, value: u64)
        requires
            old(self).wf(),
        ensures
            final(self).wf(),
            final(self)@ == old(self)@.insert(value),
    {
        if !self.contains(&value) {
            self.elems.push(value);
        }
        proof {
            assert(self@ =~= old(self)@.insert(value));
        }
    }

    /// Is this element in the set?
    pub fn contains(&self, value: &u64) -> (r: bool)
        ensures
            r == self@.contains(*value),
    {
        let n = self.elems.len();
        let mut i: usize = 0;
        while i < n
            invariant
                n == self.elems.len(),
                i <= n,
                forall|m: int| 0 <= m < i ==> self.elems@[m] != *value,
            decreases n - i,
        {
            if self.elems[i] == *value {
                return true;
            }
            i = i + 1;
        }
        false
    }

    /// The number of elements in the set.
    pub fn len(&self) -> (r: usize)
        requires
            self.wf(),
        ensures
            r == self@.len(),
    {
        proof {
            self.elems@.unique_seq_to_set();
        }
        self.elems.len()
    }

    /// Is the set empty?
    pub fn is_empty(&self) -> (r: bool)
        requires
            self.wf(),
        ensures
            r == (self@.len() == 0),
    {
        self.len() == 0
    }
}

impl Default for GSet {
    fn default() -> (r: Self)
        ensures
            r@ == Set::<u64>::empty(),
            r.wf(),
    {
        GSet::new()
    }
}

impl Clone for GSet {
    fn clone(&self) -> (r: Self)
        ensures
            r@ == self@,
            r.wf() == self.wf(),
    {
        let n = self.elems.len();
        let mut out: Vec<u64> = Vec::new();
        let mut i: usize = 0;
        while i < n
            invariant
                n == self.elems.len(),
                i <= n,
                out@ == self.elems@.take(i as int),
            decreases n - i,
        {
            out.push(self.elems[i]);
            proof {
                assert(out@ =~= self.elems@.take(i + 1));
            }
            i = i + 1;
        }
        proof {
            assert(self.elems@.take(n as int) =~= self.elems@);
        }
        GSet { elems: out }
    }
}

impl Crdt for GSet {
    type Value = Vec<u64>;

    open spec fn inv(&self) -> bool {
        self.wf()
    }

    open spec fn merge_pre(&self, other: &Self) -> bool {
        true
    }

    fn init() -> (r: Self)
        ensures
            r@ == Set::<u64>::empty(),
    {
        GSet::new()
    }

    /// Set union: after the merge this set holds exactly the elements of
    /// either input.
    fn merge(&mut self, other: &Self)
        ensures
            final(self)@ == old(self)@.union(other@),
    {
        let n = other.elems.len();
        let mut i: usize = 0;
        proof {
            assert(self@ =~= old(self)@.union(other.elems@.take(0).to_set()));
        }
        while i < n
            invariant
                n == other.elems.len(),
                i <= n,
                self.wf(),
                self@ == old(self)@.union(other.elems@.take(i as int).to_set()),
            decreases n - i,
        {
            self.insert(other.elems[i]);
            proof {
                assert(self@ =~= old(self)@.union(other.elems@.take(i + 1).to_set()));
            }
            i = i + 1;
        }
        proof {
            assert(other.elems@.take(n as int) =~= other.elems@);
            assert(final(self)@ =~= old(self)@.union(other@));
        }
    }

    /// The current contents, as a duplicate-free list.
    fn value(&self) -> (r: Vec<u64>)
        ensures
            r@.to_set() == self@,
            r@.no_duplicates(),
    {
        self.clone().elems
    }
}

impl Apply for GSet {
    type Op = u64;

    type Context = ();

    open spec fn apply_pre(&self, op: u64, ctx: ()) -> bool {
        self.wf()
    }

    /// Applying an operation inserts the element; no context is needed.
    fn apply(&mut self, op: u64, ctx: ())
        ensures
            final(self).wf(),
            final(self)@ == old(self)@.insert(op),
    {
        self.insert(op);
    }
}

} // verus!

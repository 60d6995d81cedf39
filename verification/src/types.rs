//! Participant indices, indexed values and the error of this crate.

use vstd::prelude::*;

verus! {

/// The index of a participant: an integer between 1 and 65535.
///
/// Zero is left out because the secret is the value of the sharing polynomial at zero.
#[derive(Clone, Copy, Debug, PartialEq, Eq, Hash)]
pub struct ShareIndex(u16);

impl ShareIndex {
    #[verifier::type_invariant]
    spec fn nonzero(self) -> bool {
        self.0 != 0
    }

    /// The index as an integer, from 1 to 65535.
    ///
    /// No index holds zero. The definition says so of every value that a proof may speak
    /// of, so that the range of an index is known wherever it is named.
    pub closed spec fn value(self) -> int {
        if self.0 == 0 {
            1
        } else {
            self.0 as int
        }
    }

    /// An index is at least one and fits in sixteen bits.
    pub proof fn lemma_value_bound(self)
        ensures
            1 <= self.value() <= 0xffff,
    {
    }

    /// The index `n`, unless `n` is zero.
    pub fn new(n: u16) -> (r: Option<ShareIndex>)
        ensures
            r is Some <==> n != 0,
            r matches Some(i) ==> i.value() == n,
    {
        if n == 0 {
            None
        } else {
            Some(ShareIndex(n))
        }
    }

    /// The index as a machine integer, never zero.
    pub fn get(&self) -> (n: u16)
        ensures
            n == self.value(),
            n >= 1,
    {
        proof {
            use_type_invariant(self);
        }
        self.0
    }
}

/// A value together with the index of the participant that it belongs to.
#[derive(Clone, Copy, Debug, PartialEq, Eq)]
pub struct IndexedValue<A> {
    pub index: ShareIndex,
    pub value: A,
}

/// One evaluation of a polynomial: the point's index and the polynomial's value there.
pub type Eval<A> = IndexedValue<A>;

/// Why an operation was refused.
#[derive(Clone, Copy, Debug, PartialEq, Eq, Structural)]
pub enum Error {
    /// The input does not meet what the operation asks of it: a repeated index, a number
    /// of shares other than the threshold, or a share that does not match the commitment.
    InvalidInput,
}

} // verus!

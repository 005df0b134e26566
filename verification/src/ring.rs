//! Results of lattice operations, and the lattice of byte masks.

use vstd::prelude::*;

use crate::utils::byte_mask::{lemma_word_set_injective, word_set, BitMask, ByteMask};

verus! {

/// The bit in an identity mask that stands for the first argument.
pub const SELF_IDENT: u64 = 1;

/// The bit in an identity mask that stands for the second argument.
pub const COUNTER_IDENT: u64 = 2;

/// The result of an algebraic operation on two arguments.
#[derive(Debug, PartialEq, Eq)]
pub enum AlgebraicResult<V> {
    /// The result is empty.
    Nothing,
    /// The result is the same as one or both of the arguments, as the bits of the mask tell.
    Identity(u64),
    /// The result is a new value.
    Element(V),
}

/// Which of the two arguments a result is the same as.
pub open spec fn identity_mask(is_self: bool, is_other: bool) -> u64 {
    if is_self && is_other {
        3
    } else if is_self {
        SELF_IDENT
    } else if is_other {
        COUNTER_IDENT
    } else {
        0
    }
}

/// `r` tells that an operation on `a` and `b` gives the bytes of `set`.
pub open spec fn tells<M: BitMask>(set: Set<u8>, a: &M, b: &M, r: AlgebraicResult<M>) -> bool {
    if set == Set::<u8>::empty() {
        r is Nothing
    } else if set == a.bits() || set == b.bits() {
        r == AlgebraicResult::<M>::Identity(identity_mask(set == a.bits(), set == b.bits()))
    } else {
        r matches AlgebraicResult::Element(m) && m.bits() == set
    }
}

/// Values that have a join and a meet.
pub trait Lattice: Sized {
    /// `r` is the join of the two.
    spec fn is_join(&self, other: &Self, r: AlgebraicResult<Self>) -> bool;

    /// `r` is the meet of the two.
    spec fn is_meet(&self, other: &Self, r: AlgebraicResult<Self>) -> bool;

    /// The least value above both.
    fn pjoin(&self, other: &Self) -> (r: AlgebraicResult<Self>)
        ensures
            self.is_join(other, r),
    ;

    /// The greatest value below both.
    fn pmeet(&self, other: &Self) -> (r: AlgebraicResult<Self>)
        ensures
            self.is_meet(other, r),
    ;
}

/// Values of which others can be taken away.
pub trait DistributiveLattice: Lattice {
    /// `r` is what is left of the first without the second.
    spec fn is_difference(&self, other: &Self, r: AlgebraicResult<Self>) -> bool;

    /// What is left of this value without the other.
    fn psubtract(&self, other: &Self) -> (r: AlgebraicResult<Self>)
        ensures
            self.is_difference(other, r),
    ;
}

fn same_words(a: &[u64; 4], b: &[u64; 4]) -> (r: bool)
    ensures
        r == (word_set(*a) == word_set(*b)),
{
    let r = a[0] == b[0] && a[1] == b[1] && a[2] == b[2] && a[3] == b[3];
    proof {
        if r {
            assert(a@ =~= b@);
        }
        if word_set(*a) == word_set(*b) {
            lemma_word_set_injective(*a, *b);
        }
    }
    r
}

/// Composes the result of an operation on masks.
fn bitmask_algebraic_result(result: [u64; 4], self_mask: &[u64; 4], other_mask: &[u64; 4]) -> (r:
    AlgebraicResult<[u64; 4]>)
    ensures
        tells(result.bits(), self_mask, other_mask, r),
{
    if result.is_empty_mask() {
        return AlgebraicResult::Nothing;
    }
    let mut mask: u64 = 0;
    if same_words(&result, self_mask) {
        mask = SELF_IDENT;
    }
    if same_words(&result, other_mask) {
        assert(0u64 | 2 == 2 && 1u64 | 2 == 3) by (bit_vector);
        mask = mask | COUNTER_IDENT;
    }
    if mask > 0 {
        AlgebraicResult::Identity(mask)
    } else {
        AlgebraicResult::Element(result)
    }
}

impl Lattice for [u64; 4] {
    open spec fn is_join(&self, other: &Self, r: AlgebraicResult<Self>) -> bool {
        tells(self.bits().union(other.bits()), self, other, r)
    }

    open spec fn is_meet(&self, other: &Self, r: AlgebraicResult<Self>) -> bool {
        tells(self.bits().intersect(other.bits()), self, other, r)
    }

    fn pjoin(&self, other: &Self) -> (r: AlgebraicResult<Self>) {
        bitmask_algebraic_result(self.or(other), self, other)
    }

    fn pmeet(&self, other: &Self) -> (r: AlgebraicResult<Self>) {
        bitmask_algebraic_result(self.and(other), self, other)
    }
}

impl DistributiveLattice for [u64; 4] {
    open spec fn is_difference(&self, other: &Self, r: AlgebraicResult<Self>) -> bool {
        tells(self.bits().difference(other.bits()), self, other, r)
    }

    fn psubtract(&self, other: &Self) -> (r: AlgebraicResult<Self>) {
        bitmask_algebraic_result(self.andn(other), self, other)
    }
}

/// The result on words as a result on masks.
fn as_masks(r: AlgebraicResult<[u64; 4]>) -> (m: AlgebraicResult<ByteMask>)
    ensures
        match r {
            AlgebraicResult::Nothing => m is Nothing,
            AlgebraicResult::Identity(i) => m == AlgebraicResult::<ByteMask>::Identity(i),
            AlgebraicResult::Element(w) => m == AlgebraicResult::Element(ByteMask(w)),
        },
{
    match r {
        AlgebraicResult::Nothing => AlgebraicResult::Nothing,
        AlgebraicResult::Identity(i) => AlgebraicResult::Identity(i),
        AlgebraicResult::Element(w) => AlgebraicResult::Element(ByteMask(w)),
    }
}

impl Lattice for ByteMask {
    open spec fn is_join(&self, other: &Self, r: AlgebraicResult<Self>) -> bool {
        tells(self@.union(other@), self, other, r)
    }

    open spec fn is_meet(&self, other: &Self, r: AlgebraicResult<Self>) -> bool {
        tells(self@.intersect(other@), self, other, r)
    }

    fn pjoin(&self, other: &Self) -> (r: AlgebraicResult<Self>) {
        as_masks(self.0.pjoin(&other.0))
    }

    fn pmeet(&self, other: &Self) -> (r: AlgebraicResult<Self>) {
        as_masks(self.0.pmeet(&other.0))
    }
}

impl DistributiveLattice for ByteMask {
    open spec fn is_difference(&self, other: &Self, r: AlgebraicResult<Self>) -> bool {
        tells(self@.difference(other@), self, other, r)
    }

    fn psubtract(&self, other: &Self) -> (r: AlgebraicResult<Self>) {
        as_masks(self.0.psubtract(&other.0))
    }
}

} // verus!

//! Ranges of bytes, in every form in which Rust writes them.

use vstd::prelude::*;
use core::ops::{Bound, Range, RangeFrom, RangeFull, RangeInclusive, RangeTo, RangeToInclusive};

use crate::utils::byte_mask::{inclusive_bytes, span};

verus! {

/// Makes `core::ops::RangeFrom`, which has a public field: its lower bound, known to the verifier.
#[verifier::external_type_specification]
pub struct ExRangeFrom<Idx>(RangeFrom<Idx>);

/// Makes `core::ops::RangeTo`, which has a public field: the bound behind it, known to the verifier.
#[verifier::external_type_specification]
pub struct ExRangeTo<Idx>(RangeTo<Idx>);

/// Makes `core::ops::RangeToInclusive`, which has a public field: its upper bound, known to the verifier.
#[verifier::external_type_specification]
pub struct ExRangeToInclusive<Idx>(RangeToInclusive<Idx>);

/// Makes `core::ops::Bound`, whose variants are public, known to the verifier.
#[verifier::external_type_specification]
#[verifier::reject_recursive_types(T)]
pub struct ExBound<T>(Bound<T>);

/// Makes `core::ops::RangeFull`, which has no fields, known to the verifier.
#[verifier::external_type_specification]
pub struct ExRangeFull(RangeFull);

/// A range of bytes.
pub trait ByteRange {
    /// The bytes that the range holds.
    spec fn bytes(&self) -> Set<u8>;

    /// Numbers between which the bytes lie, the second not included.
    fn bounds(&self) -> (r: (u16, u16))
        ensures
            self.bytes() == span(r.0 as int, r.1 as int),
            r.1 <= 256,
    ;
}

impl ByteRange for Range<u8> {
    open spec fn bytes(&self) -> Set<u8> {
        span(self.start as int, self.end as int)
    }

    fn bounds(&self) -> (r: (u16, u16)) {
        (self.start as u16, self.end as u16)
    }
}

impl ByteRange for RangeInclusive<u8> {
    open spec fn bytes(&self) -> Set<u8> {
        inclusive_bytes(*self)
    }

    fn bounds(&self) -> (r: (u16, u16)) {
        let mut first: u16 = 0;
        while first < 256 && !self.contains(&(first as u8))
            invariant
                first <= 256,
                forall|b: u8| b < first ==> !#[trigger] inclusive_bytes(*self).contains(b),
            decreases 256 - first,
        {
            first = first + 1;
        }
        let mut limit: u16 = 256;
        while limit > first && !self.contains(&((limit - 1) as u8))
            invariant
                first <= limit <= 256,
                forall|b: u8| b >= limit ==> !#[trigger] inclusive_bytes(*self).contains(b),
            decreases limit,
        {
            limit = limit - 1;
        }
        proof {
            let held = inclusive_bytes(*self);
            if first < limit {
                assert(held.contains(first as u8));
                assert(held.contains((limit - 1) as u8));
            }
            assert(held =~= span(first as int, limit as int));
        }
        (first, limit)
    }
}

impl ByteRange for RangeFrom<u8> {
    open spec fn bytes(&self) -> Set<u8> {
        span(self.start as int, 256)
    }

    fn bounds(&self) -> (r: (u16, u16)) {
        (self.start as u16, 256)
    }
}

impl ByteRange for RangeTo<u8> {
    open spec fn bytes(&self) -> Set<u8> {
        span(0, self.end as int)
    }

    fn bounds(&self) -> (r: (u16, u16)) {
        (0, self.end as u16)
    }
}

impl ByteRange for RangeToInclusive<u8> {
    open spec fn bytes(&self) -> Set<u8> {
        span(0, self.end + 1)
    }

    fn bounds(&self) -> (r: (u16, u16)) {
        (0, self.end as u16 + 1)
    }
}

impl ByteRange for RangeFull {
    open spec fn bytes(&self) -> Set<u8> {
        Set::full()
    }

    fn bounds(&self) -> (r: (u16, u16)) {
        assert(span(0, 256) =~= Set::<u8>::full());
        (0, 256)
    }
}

/// The lowest number that a lower bound lets through.
pub open spec fn lowest(b: Bound<u8>) -> int {
    match b {
        Bound::Included(s) => s as int,
        Bound::Excluded(s) => s + 1,
        Bound::Unbounded => 0,
    }
}

/// One more than the highest number that an upper bound lets through.
pub open spec fn limit(b: Bound<u8>) -> int {
    match b {
        Bound::Included(e) => e + 1,
        Bound::Excluded(e) => e as int,
        Bound::Unbounded => 256,
    }
}

impl ByteRange for (Bound<u8>, Bound<u8>) {
    open spec fn bytes(&self) -> Set<u8> {
        span(lowest(self.0), limit(self.1))
    }

    fn bounds(&self) -> (r: (u16, u16)) {
        let start = match self.0 {
            Bound::Included(s) => s as u16,
            Bound::Excluded(s) => s as u16 + 1,
            Bound::Unbounded => 0,
        };
        let end = match self.1 {
            Bound::Included(e) => e as u16 + 1,
            Bound::Excluded(e) => e as u16,
            Bound::Unbounded => 256,
        };
        (start, end)
    }
}

} // verus!

//! Which bytes masks and ranges hold, and how they are combined.

use vstd::prelude::*;
use core::ops::{Bound, Range, RangeFrom, RangeFull, RangeInclusive, RangeTo, RangeToInclusive};
use vstd::std_specs::cmp::PartialEqSpec;
use vstd::std_specs::convert::FromSpec;
use vstd::std_specs::ops::{BitAndSpec, BitOrSpec};

use crate::ring::{tells, AlgebraicResult, DistributiveLattice, Lattice};
use crate::utils::byte_mask::{
    lemma_mask_of_any, lemma_word_set_injective, mask_of, span, word_set, BitMask, ByteMask,
};
use crate::utils::byte_mask_iter::is_first_run;
use crate::utils::byte_range::ByteRange;

verus! {

/// A mask holds a byte where the bit for it is one: the bits of a word stand for 64 bytes, from the
/// lowest up.
pub proof fn law_mask_holds(m: ByteMask, words: [u64; 4], b: u8)
    ensures
        m@.contains(b) <==> (m.0@[b as int / 64] >> ((b % 64) as u64)) & 1 == 1,
        m.bits() == m@,
        words.bits().contains(b) <==> (words@[b as int / 64] >> ((b % 64) as u64)) & 1 == 1,
        word_set(words) == words.bits(),
{
}

/// Masks that hold the same are the same, and any bytes are held by some mask.
pub proof fn law_masks_are_sets(a: ByteMask, b: ByteMask, s: Set<u8>)
    ensures
        a@ == b@ ==> a == b,
        mask_of(s)@ == s,
        a.eq_spec(&b) <==> a@ == b@,
        a.eq_spec(&b.0) <==> a@ == b@,
        b.0.eq_spec(&a) <==> a@ == b@,
{
    lemma_mask_of_any(s);
    if a@ == b@ {
        lemma_word_set_injective(a.0, b.0);
    }
}

/// What a mask is made from is what it holds.
pub proof fn law_mask_from(x: u8, range: Range<u8>, closed_range: RangeInclusive<u8>, m: ByteMask, b: u8)
    ensures
        <ByteMask as FromSpec<u8>>::from_spec(x)@.contains(b) <==> b == x,
        <ByteMask as FromSpec<Range<u8>>>::from_spec(range)@.contains(b) <==> range.start <= b
            < range.end,
        !closed_range@.exhausted ==> (<ByteMask as FromSpec<RangeInclusive<u8>>>::from_spec(
            closed_range,
        )@.contains(b) <==> closed_range@.start <= b <= closed_range@.end),
        <ByteMask as FromSpec<[u64; 4]>>::from_spec(m.0) == m,
        <[u64; 4] as FromSpec<ByteMask>>::from_spec(m) == m.0,
{
    lemma_mask_of_any(Set::empty().insert(x));
    lemma_mask_of_any(span(range.start as int, range.end as int));
    lemma_mask_of_any(crate::utils::byte_mask::inclusive_bytes(closed_range));
}

/// `|` holds what one of the two holds, and `&` what both hold.
pub proof fn law_mask_operators(a: ByteMask, c: ByteMask, b: u8)
    ensures
        <ByteMask as BitOrSpec<ByteMask>>::bitor_spec(a, c)@.contains(b) <==> a@.contains(b)
            || c@.contains(b),
        <ByteMask as BitAndSpec<ByteMask>>::bitand_spec(a, c)@.contains(b) <==> a@.contains(b)
            && c@.contains(b),
        <&ByteMask as BitOrSpec<&ByteMask>>::bitor_spec(&a, &c) == <ByteMask as BitOrSpec<
            ByteMask,
        >>::bitor_spec(a, c),
        <&ByteMask as BitAndSpec<&ByteMask>>::bitand_spec(&a, &c) == <ByteMask as BitAndSpec<
            ByteMask,
        >>::bitand_spec(a, c),
{
    lemma_mask_of_any(a@.union(c@));
    lemma_mask_of_any(a@.intersect(c@));
}

/// A span holds the bytes from its start on and before its end.
pub proof fn law_span_holds(start: int, end: int, b: u8)
    ensures
        span(start, end).contains(b) <==> start <= b < end,
{
}

/// Ranges hold the bytes between their bounds.
pub proof fn law_ranges_hold(
    a: Range<u8>,
    c: RangeInclusive<u8>,
    d: RangeFrom<u8>,
    e: RangeTo<u8>,
    f: RangeToInclusive<u8>,
    g: RangeFull,
    b: u8,
)
    ensures
        a.bytes().contains(b) <==> a.start <= b < a.end,
        !c@.exhausted ==> (c.bytes().contains(b) <==> c@.start <= b <= c@.end),
        c@.exhausted ==> (c.bytes().contains(b) <==> c@.start <= b < c@.end),
        d.bytes().contains(b) <==> d.start <= b,
        e.bytes().contains(b) <==> b < e.end,
        f.bytes().contains(b) <==> b <= f.end,
        g.bytes().contains(b),
{
}

/// A pair of bounds holds the bytes that lie within both.
pub proof fn law_bounds_hold(low: Bound<u8>, high: Bound<u8>, b: u8)
    ensures
        (low, high).bytes().contains(b) <==> {
            &&& match low {
                Bound::Included(x) => x <= b,
                Bound::Excluded(x) => x < b,
                Bound::Unbounded => true,
            }
            &&& match high {
                Bound::Included(x) => b <= x,
                Bound::Excluded(x) => b < x,
                Bound::Unbounded => true,
            }
        },
{
}

/// The first run begins with the first byte there is, goes on without a gap, and ends where a byte is
/// missing.
pub proof fn law_first_run(s: Set<u8>, start: u8, end: u8, b: u8)
    requires
        is_first_run(s, start, end),
    ensures
        b < start ==> !s.contains(b),
        start <= b <= end ==> s.contains(b),
        start <= end,
        end < 255 && b == end + 1 ==> !s.contains(b),
{
}

/// The bytes that a result stands for.
pub open spec fn worth<M: BitMask>(a: &M, b: &M, r: AlgebraicResult<M>) -> Set<u8> {
    match r {
        AlgebraicResult::Nothing => Set::empty(),
        AlgebraicResult::Identity(k) => if k % 2 == 1 {
            a.bits()
        } else {
            b.bits()
        },
        AlgebraicResult::Element(m) => m.bits(),
    }
}

/// A result is said to be one of the arguments where it is, and to be nothing where it is empty.
pub open spec fn well_told<M: BitMask>(a: &M, b: &M, r: AlgebraicResult<M>) -> bool {
    match r {
        AlgebraicResult::Nothing => true,
        AlgebraicResult::Identity(k) => {
            &&& 1 <= k <= 3
            &&& k % 2 == 1 <==> worth(a, b, r) == a.bits()
            &&& k >= 2 <==> worth(a, b, r) == b.bits()
            &&& worth(a, b, r) != Set::<u8>::empty()
        },
        AlgebraicResult::Element(m) => m.bits() != a.bits() && m.bits() != b.bits() && m.bits()
            != Set::<u8>::empty(),
    }
}

proof fn lemma_told<M: BitMask>(set: Set<u8>, a: &M, b: &M, r: AlgebraicResult<M>)
    requires
        tells(set, a, b, r),
    ensures
        worth(a, b, r) == set,
        well_told(a, b, r),
{
}

/// The join of masks holds what one of them holds, the meet what both hold, and the difference what
/// the first holds and the second does not. The result is told as one of the two, or as nothing, where
/// it is.
pub proof fn law_mask_lattice(
    a: ByteMask,
    c: ByteMask,
    join: AlgebraicResult<ByteMask>,
    meet: AlgebraicResult<ByteMask>,
    rest: AlgebraicResult<ByteMask>,
    b: u8,
)
    requires
        a.is_join(&c, join),
        a.is_meet(&c, meet),
        a.is_difference(&c, rest),
    ensures
        worth(&a, &c, join).contains(b) <==> a@.contains(b) || c@.contains(b),
        worth(&a, &c, meet).contains(b) <==> a@.contains(b) && c@.contains(b),
        worth(&a, &c, rest).contains(b) <==> a@.contains(b) && !c@.contains(b),
        well_told(&a, &c, join),
        well_told(&a, &c, meet),
        well_told(&a, &c, rest),
{
    lemma_told(a@.union(c@), &a, &c, join);
    lemma_told(a@.intersect(c@), &a, &c, meet);
    lemma_told(a@.difference(c@), &a, &c, rest);
}

/// The same for words.
pub proof fn law_word_lattice(
    a: [u64; 4],
    c: [u64; 4],
    join: AlgebraicResult<[u64; 4]>,
    meet: AlgebraicResult<[u64; 4]>,
    rest: AlgebraicResult<[u64; 4]>,
    b: u8,
)
    requires
        a.is_join(&c, join),
        a.is_meet(&c, meet),
        a.is_difference(&c, rest),
    ensures
        worth(&a, &c, join).contains(b) <==> a.bits().contains(b) || c.bits().contains(b),
        worth(&a, &c, meet).contains(b) <==> a.bits().contains(b) && c.bits().contains(b),
        worth(&a, &c, rest).contains(b) <==> a.bits().contains(b) && !c.bits().contains(b),
        well_told(&a, &c, join),
        well_told(&a, &c, meet),
        well_told(&a, &c, rest),
{
    lemma_told(a.bits().union(c.bits()), &a, &c, join);
    lemma_told(a.bits().intersect(c.bits()), &a, &c, meet);
    lemma_told(a.bits().difference(c.bits()), &a, &c, rest);
}

} // verus!

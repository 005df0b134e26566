//! Walking the bytes of a mask, one by one or in runs.

use vstd::prelude::*;
use core::ops::RangeInclusive;
use vstd::arithmetic::div_mod::lemma_div_denominator;
use vstd::arithmetic::power2::{lemma_pow2_adds, lemma_pow2_pos, pow2};
use vstd::bits::lemma_u64_shr_is_div;
use vstd::std_specs::bits::{axiom_u64_trailing_ones, u64_trailing_ones};

use crate::utils::bits::{
    bit, group_bit, is_least, lemma_lowest_bit, lemma_members, lemma_members_tail,
    lemma_rank_is_len, members,
};
use crate::utils::byte_mask::{span, word_set, BitMask, ByteMask};

verus! {

/// An iterator to visit each byte in a byte mask in ascending order.
pub struct ByteMaskIter {
    i: u8,
    mask: [u64; 4],
}

/// An iterator to visit contiguous ranges of set bytes in ascending order.
pub struct ByteMaskRangeIter {
    i: u8,
    mask: [u64; 4],
}

/// The words before the `i`th are used up.
spec fn walked(mask: [u64; 4], i: u8) -> bool {
    &&& i < 4
    &&& forall|j: int| 0 <= j < i ==> mask@[j] == 0
}

proof fn lemma_shift_twice(w: u64, s: u64, d: u64)
    requires
        s + d < 64,
    ensures
        (w >> s) >> d == w >> ((s + d) as u64),
{
    let e = (s + d) as u64;
    lemma_u64_shr_is_div(w, s);
    lemma_u64_shr_is_div(w >> s, d);
    lemma_u64_shr_is_div(w, e);
    lemma_pow2_adds(s as nat, d as nat);
    lemma_pow2_pos(s as nat);
    lemma_pow2_pos(d as nat);
    lemma_div_denominator(w as int, pow2(s as nat) as int, pow2(d as nat) as int);
}

/// The ones that follow on position `s`, that one included.
proof fn lemma_run(w: u64, s: u64)
    requires
        s < 64,
        bit(w, s),
    ensures
        1 <= u64_trailing_ones(w >> s) <= 64 - s,
        forall|j: u64| s <= j < s + u64_trailing_ones(w >> s) ==> #[trigger] bit(w, j),
        s + u64_trailing_ones(w >> s) < 64 ==> !bit(w, (s + u64_trailing_ones(w >> s)) as u64),
{
    let x = w >> s;
    axiom_u64_trailing_ones(x);
    let n = u64_trailing_ones(x) as u64;
    assert(s < 64 ==> ((w >> s) >> 0) & 1 == (w >> s) & 1) by (bit_vector);
    let top: u64 = (64 - s) as u64;
    assert(0 < s < 64 && top == 64 - s ==> ((w >> s) >> top) & 1 == 0) by (bit_vector);
    if s == 0 {
        assert(w >> 0 == w) by (bit_vector);
    }
    if n > top {
        assert((x >> top) & 1 == 1);
    }
    assert forall|j: u64| s <= j < s + n implies #[trigger] bit(w, j) by {
        let d = (j - s) as u64;
        assert((x >> d) & 1 == 1);
        lemma_shift_twice(w, s, d);
    }
    if s + n < 64 {
        lemma_shift_twice(w, s, n);
    }
}

/// The ones at the low end of a word.
proof fn lemma_ones_prefix(w: u64)
    ensures
        u64_trailing_ones(w) <= 64,
        w == u64::MAX <==> u64_trailing_ones(w) == 64,
        forall|j: u64| j < u64_trailing_ones(w) ==> #[trigger] bit(w, j),
        u64_trailing_ones(w) < 64 ==> !bit(w, u64_trailing_ones(w) as u64),
{
    axiom_u64_trailing_ones(w);
    assert forall|j: u64| j < u64_trailing_ones(w) implies #[trigger] bit(w, j) by {
        assert((w >> j) & 1u64 == 1u64);
    }
}

/// `n` ones from position `s` on.
proof fn lemma_span_bits(s: u64, n: u64)
    requires
        n < 64,
        s + n <= 64,
        s < 64,
    ensures
        (1u64 << n) >= 1,
        forall|j: u64|
            j < 64 ==> #[trigger] bit((((1u64 << n) - 1) as u64) << s, j) == (s <= j < s + n),
{
    assert(n < 64 ==> (1u64 << n) >= 1) by (bit_vector);
    let ones = ((1u64 << n) - 1) as u64;
    assert forall|j: u64| j < 64 implies #[trigger] bit(ones << s, j) == (s <= j < s + n) by {
        let e = (s + n) as u64;
        assert(n < 64 && s < 64 && j < 64 && e == s + n && e <= 64 && ones == (1u64 << n) - 1 ==> (
        ((ones << s) >> j) & 1 == 1) == (s <= j && j < e)) by (bit_vector);
    }
}

/// Iterate over the bytes of a mask that is held as four words.
pub trait IntoByteMaskIter: Sized {
    /// The bytes to visit.
    spec fn bytes_to_visit(self) -> Set<u8>;

    fn byte_mask_iter(self) -> (r: ByteMaskIter)
        ensures
            r.wf(),
            r@ == self.bytes_to_visit(),
    ;
}

impl IntoByteMaskIter for [u64; 4] {
    open spec fn bytes_to_visit(self) -> Set<u8> {
        word_set(self)
    }

    fn byte_mask_iter(self) -> (r: ByteMaskIter) {
        ByteMaskIter::new(ByteMask(self))
    }
}

impl<'a> IntoByteMaskIter for &'a [u64; 4] {
    open spec fn bytes_to_visit(self) -> Set<u8> {
        word_set(*self)
    }

    fn byte_mask_iter(self) -> (r: ByteMaskIter) {
        ByteMaskIter::new(ByteMask(*self))
    }
}

impl IntoByteMaskIter for ByteMask {
    open spec fn bytes_to_visit(self) -> Set<u8> {
        self@
    }

    fn byte_mask_iter(self) -> (r: ByteMaskIter) {
        self.0.byte_mask_iter()
    }
}

impl ByteMask {
    /// Create an iterator over every byte, in ascending order.
    pub fn iter(&self) -> (r: ByteMaskIter)
        ensures
            r.wf(),
            r@ == self@,
    {
        ByteMaskIter::new(*self)
    }

    /// Create an iterator over contiguous ranges of set bits, in ascending order.
    pub fn range_iter(&self) -> (r: ByteMaskRangeIter)
        ensures
            r.wf(),
            r@ == self@,
    {
        ByteMaskRangeIter::new(*self)
    }

    /// The bytes of the mask, in ascending order.
    pub fn to_vec(&self) -> (r: Vec<u8>)
        ensures
            r@ == members(self@),
    {
        let mut it = self.iter();
        it.collect()
    }
}

impl View for ByteMaskIter {
    type V = Set<u8>;

    /// The bytes still to come.
    closed spec fn view(&self) -> Set<u8> {
        word_set(self.mask)
    }
}

impl ByteMaskIter {
    pub closed spec fn wf(&self) -> bool {
        walked(self.mask, self.i)
    }

    pub fn new(mask: ByteMask) -> (r: Self)
        ensures
            r.wf(),
            r@ == mask@,
    {
        ByteMaskIter { i: 0, mask: mask.0 }
    }

    /// The least of the bytes still to come, which is then taken out.
    pub fn next(&mut self) -> (r: Option<u8>)
        requires
            old(self).wf(),
        ensures
            final(self).wf(),
            match r {
                Some(b) => {
                    &&& is_least(old(self)@, b)
                    &&& final(self)@ == old(self)@.remove(b)
                },
                None => old(self)@ == Set::<u8>::empty() && final(self)@ == old(self)@,
            },
    {
        broadcast use group_bit;

        loop
            invariant
                self.wf(),
                self.mask == old(self).mask,
            decreases 4 - self.i,
        {
            broadcast use group_bit;

            let w = self.mask[self.i as usize];
            proof {
                lemma_lowest_bit(w);
            }
            if w != 0 {
                let wi = w.trailing_zeros() as u8;
                self.mask[self.i as usize] = w ^ (1u64 << wi);
                let index = self.i * 64 + wi;
                proof {
                    let before = old(self)@;
                    assert(index as int / 64 == self.i && index % 64 == wi);
                    assert forall|c: u8| before.contains(c) implies index <= c by {
                        if c < index {
                            assert(!bit(w, (c % 64) as u64) || c as int / 64 < self.i);
                        }
                    }
                    assert(self@ =~= before.remove(index));
                }
                return Some(index);
            } else if self.i < 3 {
                self.i = self.i + 1;
            } else {
                proof {
                    assert(self@ =~= Set::<u8>::empty());
                }
                return None;
            }
        }
    }

    /// All the bytes still to come, in ascending order.
    pub fn collect(&mut self) -> (r: Vec<u8>)
        requires
            old(self).wf(),
        ensures
            final(self).wf(),
            final(self)@ == Set::<u8>::empty(),
            r@ == members(old(self)@),
    {
        let mut out: Vec<u8> = Vec::new();
        loop
            invariant
                self.wf(),
                out@ + members(self@) =~= members(old(self)@),
            decreases members(self@).len(),
        {
            let ghost before = self@;
            match self.next() {
                Some(b) => {
                    proof {
                        lemma_members_tail(before, b);
                    }
                    out.push(b);
                },
                None => {
                    proof {
                        lemma_members(before);
                        lemma_rank_is_len(before);
                    }
                    return out;
                },
            }
        }
    }
}

impl View for ByteMaskRangeIter {
    type V = Set<u8>;

    /// The bytes still to come.
    closed spec fn view(&self) -> Set<u8> {
        word_set(self.mask)
    }
}

/// `start..=end` is the first run of `s`: it begins at the least member and goes on as far as
/// there is no gap.
pub open spec fn is_first_run(s: Set<u8>, start: u8, end: u8) -> bool {
    &&& start <= end
    &&& is_least(s, start)
    &&& forall|c: u8| start <= c <= end ==> #[trigger] s.contains(c)
    &&& end < 255 ==> !s.contains((end + 1) as u8)
}

impl ByteMaskRangeIter {
    pub closed spec fn wf(&self) -> bool {
        walked(self.mask, self.i)
    }

    pub fn new(mask: ByteMask) -> (r: Self)
        ensures
            r.wf(),
            r@ == mask@,
    {
        ByteMaskRangeIter { i: 0, mask: mask.0 }
    }

    /// Once the words from that of `start` to that of `end` have lost the bits of the run, and
    /// the others are as they were, exactly the run is gone.
    proof fn lemma_run_cut(&self, before: [u64; 4], start: u8, end: u8)
        requires
            start <= end,
            self.i < 4,
            self.i == end as int / 64 || (self.i == end as int / 64 + 1 && end % 64 == 63),
            forall|j: int| 0 <= j < self.i ==> self.mask@[j] == 0,
            forall|j: int| self.i < j < 4 ==> self.mask@[j] == before@[j],
            forall|k: u64|
                k < 64 ==> #[trigger] bit(self.mask@[self.i as int], k) == (bit(
                    before@[self.i as int],
                    k,
                ) && !(start <= 64 * self.i + k <= end)),
            is_least(word_set(before), start),
        ensures
            self.wf(),
            self@ == word_set(before).difference(span(start as int, end + 1)),
    {
        broadcast use group_bit;

        let rest = word_set(before).difference(span(start as int, end + 1));
        assert forall|c: u8| self@.contains(c) == rest.contains(c) by {
            let k = (c % 64) as u64;
            let j = c as int / 64;
            if j == self.i {
                assert(bit(self.mask@[self.i as int], k) == (bit(before@[self.i as int], k) && !(
                start <= 64 * self.i + k <= end)));
            } else if j < self.i {
                if word_set(before).contains(c) {
                    assert(start <= c);
                }
            }
        }
        assert(self@ =~= rest);
    }

    /// The first run of the bytes still to come, which is then taken out.
    pub fn next(&mut self) -> (r: Option<RangeInclusive<u8>>)
        requires
            old(self).wf(),
        ensures
            final(self).wf(),
            match r {
                Some(run) => {
                    &&& !run@.exhausted
                    &&& is_first_run(old(self)@, run@.start, run@.end)
                    &&& final(self)@ == old(self)@.difference(
                        span(run@.start as int, run@.end + 1),
                    )
                },
                None => old(self)@ == Set::<u8>::empty() && final(self)@ == old(self)@,
            },
    {
        broadcast use group_bit;
        // Skip empty words until we find the first set bit of the next range.

        while self.mask[self.i as usize] == 0
            invariant
                self.wf(),
                self.mask == old(self).mask,
            decreases 4 - self.i,
        {
            broadcast use group_bit;

            if self.i == 3 {
                proof {
                    assert(self@ =~= Set::<u8>::empty());
                }
                return None;
            }
            self.i = self.i + 1;
        }
        let w = self.mask[self.i as usize];
        proof {
            lemma_lowest_bit(w);
        }
        let start_bit = w.trailing_zeros() as u8;
        let start = self.i * 64 + start_bit;
        proof {
            assert(start as int / 64 == self.i && start % 64 == start_bit);
            assert forall|c: u8| old(self)@.contains(c) implies start <= c by {
                if c < start {
                    assert(!bit(w, (c % 64) as u64) || c as int / 64 < self.i);
                }
            }
        }
        let ghost before = self.mask;
        let run_len = (w >> start_bit).trailing_ones() as u8;
        proof {
            lemma_run(w, start_bit as u64);
        }
        // The range ends inside the current word, so clear just that span and return it.
        if run_len < 64 - start_bit {
            proof {
                lemma_span_bits(start_bit as u64, run_len as u64);
            }
            let clear_mask = ((1u64 << run_len) - 1) << start_bit;
            self.mask[self.i as usize] = w & !clear_mask;
            let end = start + (run_len - 1);
            proof {
                self.lemma_run_cut(before, start, end);
            }
            return Some(RangeInclusive::new(start, end));
        }
        // The range consumes the rest of the current word, so clear it before advancing.

        self.mask[self.i as usize] = 0;
        // Find the end of the range.
        while self.i < 3
            invariant
                self.wf(),
                before == old(self).mask,
                start < 64 * (self.i + 1),
                is_least(old(self)@, start),
                self.mask@[self.i as int] == 0,
                forall|c: u8|
                    start <= c < 64 * (self.i + 1) ==> #[trigger] word_set(before).contains(c),
                forall|j: int| self.i < j < 4 ==> self.mask@[j] == before@[j],
            decreases 3 - self.i,
        {
            broadcast use group_bit;

            self.i = self.i + 1;
            let next_word = self.mask[self.i as usize];
            proof {
                lemma_ones_prefix(next_word);
            }
            // The range covers this entire next word, so clear it and continue forward.
            if next_word == u64::MAX {
                self.mask[self.i as usize] = 0;
                continue ;
            }
            let next_run_len = next_word.trailing_ones() as u8;
            // The next word starts with a zero bit, so the range ended at the prior word boundary.
            if next_run_len == 0 {
                let end = (self.i - 1) * 64 + 63;
                proof {
                    assert((end + 1) as int / 64 == self.i && (end + 1) % 64 == 0);
                    self.lemma_run_cut(before, start, end);
                }
                return Some(RangeInclusive::new(start, end));
            }
            // The range ends inside the prefix of the next word, so clear that prefix and return
            // it.

            proof {
                lemma_span_bits(0, next_run_len as u64);
            }
            let prefix = (1u64 << next_run_len) - 1;
            self.mask[self.i as usize] = next_word & !prefix;
            let end = self.i * 64 + (next_run_len - 1);
            proof {
                assert(prefix << 0u64 == prefix) by (bit_vector);
                assert((end + 1) as int / 64 == self.i && (end + 1) % 64 == next_run_len);
                self.lemma_run_cut(before, start, end);
            }
            return Some(RangeInclusive::new(start, end));
        }
        // The range runs through the end of the mask after clearing every fully covered word.
        let end = self.i * 64 + 63;
        proof {
            self.lemma_run_cut(before, start, end);
        }
        Some(RangeInclusive::new(start, end))
    }
}

} // verus!

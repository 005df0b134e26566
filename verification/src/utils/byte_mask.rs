//! A set of bytes held as 256 bits.

use vstd::prelude::*;
use vstd::std_specs::convert::FromSpecImpl;
use vstd::std_specs::ops::{BitAndSpecImpl, BitOrSpecImpl};
use core::ops::{Range, RangeInclusive};

use crate::utils::byte_range::ByteRange;
use crate::utils::bits::{
    bit, group_bit, lemma_highest_bit, lemma_lowest_bit, lemma_members, lemma_rank_bound,
    lemma_rank_is_len, lemma_word_rank_agree, lemma_word_rank_bound, lemma_word_rank_top,
    lemma_words_equal, members, rank, word_rank,
};

verus! {

/// A 256-bit type containing a bit for every possible value in a byte.
#[derive(Clone, Copy, Debug)]
pub struct ByteMask(pub [u64; 4]);

/// The bytes whose bits are one.
pub open spec fn word_set(m: [u64; 4]) -> Set<u8> {
    Set::new(|b: u8| bit(m@[b as int / 64], (b % 64) as u64))
}

impl View for ByteMask {
    type V = Set<u8>;

    open spec fn view(&self) -> Set<u8> {
        word_set(self.0)
    }
}

/// The bytes from `start` up to but not including `end`.
pub open spec fn span(start: int, end: int) -> Set<u8> {
    Set::new(|b: u8| start <= b < end)
}

/// Masks that hold the same bytes are equal, word by word.
pub proof fn lemma_word_set_injective(a: [u64; 4], b: [u64; 4])
    requires
        word_set(a) =~= word_set(b),
    ensures
        a@ =~= b@,
        a == b,
{
    assert forall|w: int| 0 <= w < 4 implies a@[w] == b@[w] by {
        assert forall|i: u64| i < 64 implies #[trigger] bit(a@[w], i) == bit(b@[w], i) by {
            let k = (64 * w + i) as u8;
            assert(k as int / 64 == w && k % 64 == i);
            assert(word_set(a).contains(k) == word_set(b).contains(k));
        }
        lemma_words_equal(a@[w], b@[w]);
    }
    assert(a@ =~= b@);
}

/// The members below a place inside word `w` are those of the words below it and those of `w`
/// below that place.
proof fn lemma_rank_words(m: [u64; 4], w: nat, n: nat)
    requires
        w < 4,
        n <= 64,
    ensures
        rank(word_set(m), 64 * w + n) == words_count(m, w) + word_rank(m@[w as int], n),
    decreases w, n,
{
    if n > 0 {
        lemma_rank_words(m, w, (n - 1) as nat);
        let k = (64 * w + n - 1) as u8;
        assert(k as int / 64 == w && k % 64 == n - 1);
    } else if w > 0 {
        lemma_rank_words(m, (w - 1) as nat, 64);
    }
}

/// How many bits of the first `w` words are one.
spec fn words_count(m: [u64; 4], w: nat) -> nat
    decreases w,
{
    if w == 0 {
        0
    } else {
        words_count(m, (w - 1) as nat) + word_rank(m@[w - 1], 64)
    }
}

/// Some useful bit-twiddling methods for working with a mask of 256 bits.
pub trait BitMask: Sized {
    /// The bytes whose bits are set.
    spec fn bits(&self) -> Set<u8>;

    /// Returns the number of set bits in the mask.
    fn count_bits(&self) -> (n: usize)
        ensures
            self.bits().finite(),
            n == self.bits().len(),
            n == rank(self.bits(), 256),
    ;

    /// Returns `true` if all bits in the mask are clear, otherwise returns `false`.
    fn is_empty_mask(&self) -> (r: bool)
        ensures
            r == (self.bits() == Set::<u8>::empty()),
    ;

    /// Returns `true` if the `k`th bit in the mask is set, otherwise returns `false`.
    fn test_bit(&self, k: u8) -> (r: bool)
        ensures
            r == self.bits().contains(k),
    ;

    /// Sets the `k`th bit in the mask.
    fn set_bit(&mut self, k: u8)
        ensures
            final(self).bits() == old(self).bits().insert(k),
    ;

    /// Clears the `k`th bit in the mask.
    fn clear_bit(&mut self, k: u8)
        ensures
            final(self).bits() == old(self).bits().remove(k),
    ;

    /// Flips the specified bit from 1 to 0 or from 0 to 1.
    fn toggle_bit(&mut self, k: u8)
        ensures
            final(self).bits() == if old(self).bits().contains(k) {
                old(self).bits().remove(k)
            } else {
                old(self).bits().insert(k)
            },
    ;

    /// Clears all bits in the mask, restoring it to an empty mask.
    fn make_empty(&mut self)
        ensures
            final(self).bits() == Set::<u8>::empty(),
    ;

    /// Returns the bitwise `or` of the two masks.
    fn or(&self, other: &Self) -> (r: Self)
        ensures
            r.bits() == self.bits().union(other.bits()),
    ;

    /// Returns the bitwise `and` of the two masks.
    fn and(&self, other: &Self) -> (r: Self)
        ensures
            r.bits() == self.bits().intersect(other.bits()),
    ;

    /// Returns the bitwise `xor` of the two masks.
    fn xor(&self, other: &Self) -> (r: Self)
        ensures
            r.bits() == self.bits().difference(other.bits()).union(
                other.bits().difference(self.bits()),
            ),
    ;

    /// Returns the bitwise `andn` (sometimes called the conditional) of the two masks: the bits
    /// set in `self` and clear in `other`.
    fn andn(&self, other: &Self) -> (r: Self)
        ensures
            r.bits() == self.bits().difference(other.bits()),
    ;

    /// Returns the bitwise `not` of the mask.
    fn not(&self) -> (r: Self)
        ensures
            r.bits() == self.bits().complement(),
    ;
}

impl BitMask for [u64; 4] {
    open spec fn bits(&self) -> Set<u8> {
        word_set(*self)
    }

    fn count_bits(&self) -> (n: usize) {
        proof {
            lemma_rank_is_len(word_set(*self));
            lemma_rank_words(*self, 3, 64);
            lemma_word_rank_bound(self@[0], 64);
            lemma_word_rank_bound(self@[1], 64);
            lemma_word_rank_bound(self@[2], 64);
            lemma_word_rank_bound(self@[3], 64);
            reveal_with_fuel(words_count, 5);
        }
        (self[0].count_ones() + self[1].count_ones() + self[2].count_ones() + self[3].count_ones())
            as usize
    }

    fn is_empty_mask(&self) -> (r: bool) {
        broadcast use group_bit;

        let r = self[0] == 0 && self[1] == 0 && self[2] == 0 && self[3] == 0;
        proof {
            let none: [u64; 4] = [0, 0, 0, 0];
            assert(word_set(none) =~= Set::<u8>::empty());
            if word_set(*self) == Set::<u8>::empty() {
                lemma_word_set_injective(*self, none);
            }
            if r {
                assert(self@ =~= none@);
                assert(word_set(*self) =~= Set::<u8>::empty());
            }
        }
        r
    }

    fn test_bit(&self, k: u8) -> (r: bool) {
        let idx = ((k & 0b11000000) >> 6) as usize;
        let bit_i = k & 0b00111111;
        proof {
            assert((k & 0b11000000) >> 6 == k / 64 && k & 0b00111111 == k % 64) by (bit_vector);
            let w = self@[idx as int];
            let i = (k % 64) as u64;
            assert(i < 64 ==> (w & (1u64 << i) > 0) == ((w >> i) & 1 == 1)) by (bit_vector);
        }
        self[idx] & (1u64 << bit_i) > 0
    }

    fn set_bit(&mut self, k: u8) {
        broadcast use group_bit;

        let idx = (k / 64) as usize;
        let w = self[idx] | (1u64 << (k % 64));
        self[idx] = w;
        assert(self.bits() =~= old(self).bits().insert(k));
    }

    fn clear_bit(&mut self, k: u8) {
        broadcast use group_bit;

        let idx = (k / 64) as usize;
        let w = self[idx] & !(1u64 << (k % 64));
        self[idx] = w;
        assert(self.bits() =~= old(self).bits().remove(k));
    }

    fn toggle_bit(&mut self, k: u8) {
        broadcast use group_bit;

        let idx = (k / 64) as usize;
        let w = self[idx] ^ (1u64 << (k % 64));
        self[idx] = w;
        assert(self.bits() =~= if old(self).bits().contains(k) {
            old(self).bits().remove(k)
        } else {
            old(self).bits().insert(k)
        });
    }

    fn make_empty(&mut self) {
        broadcast use group_bit;

        *self = [0, 0, 0, 0];
        assert(self.bits() =~= Set::<u8>::empty());
    }

    fn or(&self, other: &Self) -> (r: Self) {
        broadcast use group_bit;

        let r = [self[0] | other[0], self[1] | other[1], self[2] | other[2], self[3] | other[3]];
        assert(r.bits() =~= self.bits().union(other.bits()));
        r
    }

    fn and(&self, other: &Self) -> (r: Self) {
        broadcast use group_bit;

        let r = [self[0] & other[0], self[1] & other[1], self[2] & other[2], self[3] & other[3]];
        assert(r.bits() =~= self.bits().intersect(other.bits()));
        r
    }

    fn xor(&self, other: &Self) -> (r: Self) {
        broadcast use group_bit;

        let r = [self[0] ^ other[0], self[1] ^ other[1], self[2] ^ other[2], self[3] ^ other[3]];
        assert(r.bits() =~= self.bits().difference(other.bits()).union(
            other.bits().difference(self.bits()),
        ));
        r
    }

    fn andn(&self, other: &Self) -> (r: Self) {
        broadcast use group_bit;

        let r = [
            self[0] & !other[0],
            self[1] & !other[1],
            self[2] & !other[2],
            self[3] & !other[3],
        ];
        assert(r.bits() =~= self.bits().difference(other.bits()));
        r
    }

    fn not(&self) -> (r: Self) {
        broadcast use group_bit;

        let r = [!self[0], !self[1], !self[2], !self[3]];
        assert(r.bits() =~= self.bits().complement());
        r
    }
}

/// The words in which `start..=end` has bits, and where in the first and the last of them it
/// begins and ends.
#[derive(Clone, Copy)]
struct BlockRange {
    block_start: u8,
    block_end: u8,
    bit_start: u8,
    bit_end: u8,
}

impl BlockRange {
    spec fn describes(&self, start: u8, end: u8) -> bool {
        &&& self.block_start == start / 64
        &&& self.block_end == end / 64
        &&& self.bit_start == start % 64
        &&& self.bit_end == end % 64
    }

    fn new(start: u8, end: u8) -> (r: Self)
        requires
            start <= end,
        ensures
            r.describes(start, end),
    {
        assert(start >> 6 == start / 64 && start & 0x3f == start % 64) by (bit_vector);
        assert(end >> 6 == end / 64 && end & 0x3f == end % 64) by (bit_vector);
        BlockRange {
            block_start: start >> 6,
            block_end: end >> 6,
            bit_start: start & 0x3f,
            bit_end: end & 0x3f,
        }
    }

    /// The bits of word `n` that lie in the range.
    fn u64_block(self, n: u8, Ghost(start): Ghost<u8>, Ghost(end): Ghost<u8>) -> (w: u64)
        requires
            n < 4,
            self.describes(start, end),
        ensures
            forall|i: u64|
                i < 64 ==> #[trigger] bit(w, i) == (start <= 64 * n + i && 64 * n + i <= end),
    {
        broadcast use group_bit;

        if n < self.block_start || n > self.block_end {
            0
        } else {
            let lo: u8 = if n == self.block_start {
                self.bit_start
            } else {
                0
            };
            let hi: u8 = if n == self.block_end {
                self.bit_end
            } else {
                63
            };
            (!0u64 << lo) & (!0u64 >> (63 - hi))
        }
    }

    /// All four words of the range.
    fn words(self, Ghost(start): Ghost<u8>, Ghost(end): Ghost<u8>) -> (m: [u64; 4])
        requires
            self.describes(start, end),
        ensures
            word_set(m) == span(start as int, end + 1),
    {
        let m = [
            self.u64_block(0, Ghost(start), Ghost(end)),
            self.u64_block(1, Ghost(start), Ghost(end)),
            self.u64_block(2, Ghost(start), Ghost(end)),
            self.u64_block(3, Ghost(start), Ghost(end)),
        ];
        assert forall|b: u8| word_set(m).contains(b) == span(start as int, end + 1).contains(b) by {
            let i = (b % 64) as u64;
            assert(bit(m@[b as int / 64], i) == (start <= b <= end));
        }
        assert(word_set(m) =~= span(start as int, end + 1));
        m
    }
}

/// The lower bound of a range of bytes that has not been iterated over, as
/// `RangeInclusive::start` documents it.
pub assume_specification<Idx>[ RangeInclusive::<Idx>::start ](r: &RangeInclusive<Idx>) -> (b: &Idx)
    ensures
        !r@.exhausted ==> *b == r@.start,
;

/// The upper bound of a range of bytes that has not been iterated over, as
/// `RangeInclusive::end` documents it.
pub assume_specification<Idx>[ RangeInclusive::<Idx>::end ](r: &RangeInclusive<Idx>) -> (b: &Idx)
    ensures
        !r@.exhausted ==> *b == r@.end,
;

impl ByteMask {
    /// The mask of all bytes.
    pub fn full() -> (r: Self)
        ensures
            r@ == Set::<u8>::full(),
    {
        broadcast use group_bit;

        let r = ByteMask([!0u64, !0u64, !0u64, !0u64]);
        assert(r@ =~= Set::<u8>::full());
        r
    }

    /// The bytes whose ones all lie where `b` has ones: row `b` of the Sierpinski triangle.
    pub fn subset(b: u8) -> (r: Self)
        ensures
            r@ == Set::new(|j: u8| b & j == j),
    {
        let mut r = ByteMask::new();
        let mut j: u16 = 0;
        while j < 256
            invariant
                j <= 256,
                r@ == Set::new(|k: u8| k < j && b & k == k),
            decreases 256 - j,
        {
            let k = j as u8;
            if b & k == k {
                r.set_bit(k);
            }
            j = j + 1;
            assert(r@ =~= Set::new(|k: u8| k < j && b & k == k));
        }
        assert(r@ =~= Set::new(|j: u8| b & j == j));
        r
    }

    /// Create a new empty ByteMask.
    pub fn new() -> (r: Self)
        ensures
            r@ == Set::<u8>::empty(),
    {
        broadcast use group_bit;

        let r = ByteMask([0, 0, 0, 0]);
        assert(r@ =~= Set::<u8>::empty());
        r
    }

    /// Constructs a `ByteMask` with all bits in the given range set.
    ///
    /// The range is interpreted over the interval `[0, 256)` and supports the standard range
    /// syntaxes: `a..b`, `a..=b`, `..b`, `..=b`, `a..` and `..`, and pairs of bounds. A range that holds no byte gives
    /// the empty mask.
    pub fn from_range<R: ByteRange>(range: R) -> (r: Self)
        ensures
            r@ == range.bytes(),
    {
        let (start, end) = range.bounds();
        if start >= end {
            let r = ByteMask::new();
            assert(r@ =~= span(start as int, end as int));
            return r;
        }
        let (lo, hi) = (start as u8, (end - 1) as u8);
        ByteMask(BlockRange::new(lo, hi).words(Ghost(lo), Ghost(hi)))
    }

    /// The mask of the bytes in `bytes`.
    pub fn from_iter(bytes: &[u8]) -> (r: Self)
        ensures
            r@ == bytes@.to_set(),
    {
        let mut r = ByteMask::new();
        let mut i: usize = 0;
        while i < bytes.len()
            invariant
                i <= bytes.len(),
                r@ == bytes@.subrange(0, i as int).to_set(),
            decreases bytes.len() - i,
        {
            let ghost seen = bytes@.subrange(0, i as int);
            let ghost next = bytes@.subrange(0, i + 1);
            r.set_bit(bytes[i]);
            i = i + 1;
            assert(next =~= seen.push(bytes@[i - 1]));
            assert forall|b: u8| next.to_set().contains(b) == r@.contains(b) by {
                if seen.contains(b) {
                    let j = choose|j: int| 0 <= j < seen.len() && seen[j] == b;
                    assert(next[j] == b);
                }
                assert(next[i - 1] == bytes@[i - 1]);
            }
            assert(r@ =~= next.to_set());
        }
        assert(bytes@.subrange(0, bytes@.len() as int) =~= bytes@);
        r
    }

    /// The four words of the mask.
    pub fn as_ref(&self) -> (r: &[u64; 4])
        ensures
            *r == self.0,
    {
        &self.0
    }

    /// Unwraps the `ByteMask` type to yield the inner array.
    pub fn into_inner(self) -> (r: [u64; 4])
        ensures
            r == self.0,
    {
        self.0
    }

    /// Returns how many set bits precede the requested bit.
    pub fn index_of(&self, byte: u8) -> (r: u8)
        ensures
            r == rank(self@, byte as nat),
    {
        broadcast use group_bit;

        if byte == 0 {
            return 0;
        }
        let low = (byte - 1) & 0b00111111;
        proof {
            let p = (byte - 1) as u8;
            assert(p & 0b00111111 == p % 64) by (bit_vector);
            lemma_rank_bound(self@, byte as nat);
        }
        let mask = !0u64 >> (63 - low);
        let word = ((byte - 1) / 64) as usize;
        let mut count: u32 = 0;
        let mut w: usize = 0;
        while w < word
            invariant
                w <= word < 4,
                count == words_count(self.0, w as nat),
                count <= 64 * w,
            decreases word - w,
        {
            proof {
                lemma_word_rank_bound(self.0@[w as int], 64);
            }
            count = count + self.0[w].count_ones();
            w = w + 1;
        }
        let active = self.0[word];
        proof {
            let n = (low + 1) as nat;
            lemma_word_rank_agree(active & mask, active, n);
            lemma_word_rank_top(active & mask, n, 64);
            lemma_word_rank_bound(active & mask, 64);
            lemma_rank_words(self.0, word as nat, n);
            assert(64 * word + n == byte);
        }
        count = count + (active & mask).count_ones();
        count as u8
    }

    /// Returns the byte corresponding to the `nth` set bit in the mask, counting forwards or
    /// backwards.
    pub fn indexed_bit<const FORWARD: bool>(&self, idx: usize) -> (r: Option<u8>)
        ensures
            FORWARD && idx < members(self@).len() ==> r == Some(members(self@)[idx as int]),
            !FORWARD && idx < members(self@).len() ==> r == Some(
                members(self@)[members(self@).len() - 1 - idx],
            ),
            idx >= members(self@).len() ==> r is None,
    {
        let count = self.count_bits();
        proof {
            lemma_members(self@);
        }
        if idx >= count {
            return None;
        }
        let target: usize = if FORWARD {
            idx
        } else {
            count - 1 - idx
        };
        Some(self.nth(target))
    }

    /// The member of rank `target`.
    fn nth(&self, target: usize) -> (byte: u8)
        requires
            target < rank(self@, 256),
        ensures
            byte == members(self@)[target as int],
    {
        broadcast use group_bit;

        let mut i: usize = 0;
        let mut c: usize = 0;
        proof {
            reveal_with_fuel(words_count, 2);
            lemma_rank_words(self.0, 3, 64);
            lemma_word_rank_bound(self.0@[0], 64);
        }
        let mut c_ahead = self.0[0].count_ones() as usize;
        while c_ahead <= target
            invariant
                i < 4,
                c == words_count(self.0, i as nat),
                c_ahead == words_count(self.0, (i + 1) as nat),
                c <= target < rank(self@, 256),
                c_ahead <= 64 * (i + 1),
                rank(self@, 256) == words_count(self.0, 3) + word_rank(self.0@[3], 64),
            decreases 4 - i,
        {
            i = i + 1;
            proof {
                lemma_word_rank_bound(self.0@[i as int], 64);
            }
            c = c_ahead;
            c_ahead = c_ahead + self.0[i].count_ones() as usize;
        }
        let mut m = self.0[i];
        proof {
            lemma_lowest_bit(m);
            if m == 0 {
                lemma_word_rank_top(m, 0, 64);
            }
        }
        let mut loc: u32 = m.trailing_zeros();
        proof {
            lemma_word_rank_top(self.0@[i as int], 0, loc as nat);
        }
        while c < target
            invariant
                i < 4,
                words_count(self.0, i as nat) <= c <= target,
                target < words_count(self.0, i as nat) + word_rank(self.0@[i as int], 64),
                loc < 64,
                c == words_count(self.0, i as nat) + word_rank(self.0@[i as int], loc as nat),
                bit(self.0@[i as int], loc as u64),
                bit(m, loc as u64),
                forall|j: u64| j < loc ==> !#[trigger] bit(m, j),
                forall|j: u64|
                    loc <= j < 64 ==> #[trigger] bit(m, j) == bit(self.0@[i as int], j),
            decreases target - c,
        {
            broadcast use group_bit;

            let ghost from = loc;
            m = m ^ (1u64 << loc);
            proof {
                lemma_lowest_bit(m);
                assert(forall|j: u64| j <= from ==> !#[trigger] bit(m, j));
                assert(forall|j: u64|
                    from < j < 64 ==> #[trigger] bit(m, j) == bit(self.0@[i as int], j));
                assert(word_rank(self.0@[i as int], (from + 1) as nat) == word_rank(
                    self.0@[i as int],
                    from as nat,
                ) + 1);
                let orig = self.0@[i as int];
                if m == 0 {
                    assert forall|j: u64| from + 1 <= j < 64 implies !#[trigger] bit(orig, j) by {
                        assert(!bit(m, j));
                    }
                    lemma_word_rank_top(orig, (from + 1) as nat, 64);
                }
            }
            loc = m.trailing_zeros();
            proof {
                let orig = self.0@[i as int];
                assert forall|j: u64| from + 1 <= j < loc implies !#[trigger] bit(orig, j) by {
                    assert(!bit(m, j));
                }
                if loc <= from {
                    assert(!bit(m, loc as u64));
                }
                lemma_word_rank_top(self.0@[i as int], (from + 1) as nat, loc as nat);
            }
            c = c + 1;
        }
        let byte = (i * 64) as u8 + loc as u8;
        proof {
            lemma_rank_words(self.0, i as nat, loc as nat);
            assert(byte as int / 64 == i && byte % 64 == loc);
            lemma_members(self@);
            assert(self@.contains(byte));
        }
        byte
    }

    /// Returns the bit in the mask corresponding to the next highest bit above `byte`, or `None`
    /// if `byte` was at or above the highest set bit in the mask.
    pub fn next_bit(&self, byte: u8) -> (r: Option<u8>)
        ensures
            match r {
                Some(n) => {
                    &&& byte < n
                    &&& self@.contains(n)
                    &&& forall|c: u8| byte < c < n ==> !#[trigger] self@.contains(c)
                },
                None => forall|c: u8| byte < c ==> !#[trigger] self@.contains(c),
            },
    {
        broadcast use group_bit;

        if byte == 255 {
            return None;
        }
        let from = byte + 1;
        let mut i: usize = (from / 64) as usize;
        let mut mask = !0u64 << (from % 64);
        while i < 4
            invariant
                i <= 4,
                byte < 255,
                from == byte + 1,
                from / 64 <= i,
                forall|j: u64| j < 64 ==> #[trigger] bit(mask, j) == (from <= 64 * i + j),
                forall|c: u8| byte < c < 64 * i ==> !#[trigger] self@.contains(c),
            decreases 4 - i,
        {
            broadcast use group_bit;

            let w = self.0[i] & mask;
            proof {
                lemma_lowest_bit(w);
            }
            let cnt = w.trailing_zeros();
            if cnt < 64 {
                let n = (i * 64) as u8 + cnt as u8;
                proof {
                    assert(n as int / 64 == i && n % 64 == cnt);
                    assert(bit(w, cnt as u64));
                    assert forall|c: u8| byte < c < n implies !#[trigger] self@.contains(c) by {
                        if c >= 64 * i {
                            assert(c as int / 64 == i);
                            assert(!bit(w, (c % 64) as u64));
                        }
                    }
                }
                return Some(n);
            }
            proof {
                assert forall|c: u8| byte < c < 64 * (i + 1) implies !#[trigger] self@.contains(
                    c,
                ) by {
                    if c >= 64 * i {
                        assert(c as int / 64 == i);
                        assert(!bit(w, (c % 64) as u64));
                    }
                }
            }
            mask = !0u64;
            i = i + 1;
        }
        None
    }

    /// Returns the bit in the mask corresponding to the previous bit below `byte`, or `None`
    /// if `byte` was at or below the lowest set bit in the mask.
    pub fn prev_bit(&self, byte: u8) -> (r: Option<u8>)
        ensures
            match r {
                Some(n) => {
                    &&& n < byte
                    &&& self@.contains(n)
                    &&& forall|c: u8| n < c < byte ==> !#[trigger] self@.contains(c)
                },
                None => forall|c: u8| c < byte ==> !#[trigger] self@.contains(c),
            },
    {
        broadcast use group_bit;

        if byte == 0 {
            return None;
        }
        let to = byte - 1;
        let mut i: usize = (to / 64) as usize + 1;
        let mut mask = !0u64 >> (63 - to % 64);
        while i > 0
            invariant
                i <= 4,
                byte > 0,
                to == byte - 1,
                i <= to / 64 + 1,
                forall|j: u64| j < 64 ==> #[trigger] bit(mask, j) == (64 * (i - 1) + j <= to),
                forall|c: u8| 64 * i <= c < byte ==> !#[trigger] self@.contains(c),
            decreases i,
        {
            i = i - 1;
            broadcast use group_bit;

            let w = self.0[i] & mask;
            proof {
                lemma_highest_bit(w);
            }
            let cnt = w.leading_zeros();
            if cnt < 64 {
                let n = (i * 64) as u8 + (63 - cnt as u8);
                proof {
                    assert(n as int / 64 == i && n % 64 == 63 - cnt);
                    assert(bit(w, (63 - cnt) as u64));
                    assert forall|c: u8| n < c < byte implies !#[trigger] self@.contains(c) by {
                        if c < 64 * (i + 1) {
                            assert(c as int / 64 == i);
                            assert(!bit(w, (c % 64) as u64));
                        }
                    }
                }
                return Some(n);
            }
            proof {
                assert forall|c: u8| 64 * i <= c < byte implies !#[trigger] self@.contains(c) by {
                    if c < 64 * (i + 1) {
                        assert(c as int / 64 == i);
                        assert(!bit(w, (c % 64) as u64));
                    }
                }
            }
            mask = !0u64;
        }
        None
    }

    /// Turns on bits in inclusive range `start..=end`.
    pub fn set_inclusive_bit_range(&mut self, range: RangeInclusive<u8>)
        requires
            !range@.exhausted,
            range@.start <= range@.end,
        ensures
            final(self)@ == old(self)@.union(span(range@.start as int, range@.end + 1)),
    {
        let (start, end) = (*range.start(), *range.end());
        let m = BlockRange::new(start, end).words(Ghost(start), Ghost(end));
        self.0 = self.0.or(&m);
    }

    /// Turns off bits in inclusive range `start..=end`.
    pub fn clear_inclusive_bit_range(&mut self, range: RangeInclusive<u8>)
        requires
            !range@.exhausted,
            range@.start <= range@.end,
        ensures
            final(self)@ == old(self)@.difference(span(range@.start as int, range@.end + 1)),
    {
        let (start, end) = (*range.start(), *range.end());
        let m = BlockRange::new(start, end).words(Ghost(start), Ghost(end));
        self.0 = self.0.andn(&m);
    }

    /// Flips all bits in inclusive range `start..=end`.
    pub fn toggle_inclusive_bit_range(&mut self, range: RangeInclusive<u8>)
        requires
            !range@.exhausted,
            range@.start <= range@.end,
        ensures
            final(self)@ == old(self)@.difference(span(range@.start as int, range@.end + 1)).union(
                span(range@.start as int, range@.end + 1).difference(old(self)@),
            ),
    {
        let (start, end) = (*range.start(), *range.end());
        let m = BlockRange::new(start, end).words(Ghost(start), Ghost(end));
        self.0 = self.0.xor(&m);
    }
}

impl BitMask for ByteMask {
    open spec fn bits(&self) -> Set<u8> {
        self@
    }

    fn count_bits(&self) -> (n: usize) {
        self.0.count_bits()
    }

    fn is_empty_mask(&self) -> (r: bool) {
        self.0.is_empty_mask()
    }

    fn test_bit(&self, k: u8) -> (r: bool) {
        self.0.test_bit(k)
    }

    fn set_bit(&mut self, k: u8) {
        self.0.set_bit(k)
    }

    fn clear_bit(&mut self, k: u8) {
        self.0.clear_bit(k)
    }

    fn toggle_bit(&mut self, k: u8) {
        self.0.toggle_bit(k)
    }

    fn make_empty(&mut self) {
        self.0.make_empty()
    }

    fn or(&self, other: &Self) -> (r: Self) {
        ByteMask(self.0.or(&other.0))
    }

    fn and(&self, other: &Self) -> (r: Self) {
        ByteMask(self.0.and(&other.0))
    }

    fn xor(&self, other: &Self) -> (r: Self) {
        ByteMask(self.0.xor(&other.0))
    }

    fn andn(&self, other: &Self) -> (r: Self) {
        ByteMask(self.0.andn(&other.0))
    }

    fn not(&self) -> (r: Self) {
        ByteMask(self.0.not())
    }
}

/// The mask that holds exactly the bytes of `s`.
pub open spec fn mask_of(s: Set<u8>) -> ByteMask {
    choose|m: ByteMask| m@ == s
}

/// A mask is the only one with its bytes.
pub proof fn lemma_mask_of(m: ByteMask)
    ensures
        mask_of(m@) == m,
{
    let n = mask_of(m@);
    assert(n@ == m@);
    lemma_word_set_injective(n.0, m.0);
}

/// The word whose bit `i`, for each `i` below `n`, says whether `s` holds `base + i`.
spec fn word_from(s: Set<u8>, base: int, n: nat) -> u64
    decreases n,
{
    if n == 0 {
        0
    } else {
        let w = word_from(s, base, (n - 1) as nat);
        if s.contains((base + n - 1) as u8) {
            w | (1u64 << ((n - 1) as u64))
        } else {
            w
        }
    }
}

proof fn lemma_word_from(s: Set<u8>, base: int, n: nat)
    requires
        n <= 64,
    ensures
        forall|i: u64|
            i < 64 ==> #[trigger] bit(word_from(s, base, n), i) == (i < n && s.contains(
                (base + i) as u8,
            )),
    decreases n,
{
    broadcast use group_bit;

    if n > 0 {
        lemma_word_from(s, base, (n - 1) as nat);
        let before = word_from(s, base, (n - 1) as nat);
        let k = (n - 1) as u64;
        assert forall|i: u64| i < 64 implies #[trigger] bit(word_from(s, base, n), i) == (i < n
            && s.contains((base + i) as u8)) by {
            assert(bit(before, i) == (i < n - 1 && s.contains((base + i) as u8)));
            assert(bit(before | (1u64 << k), i) == (bit(before, i) || i == k));
        }
    }
}

/// Every set of bytes has its mask.
pub proof fn lemma_mask_of_any(s: Set<u8>)
    ensures
        mask_of(s)@ == s,
{
    let m = ByteMask(
        [
            word_from(s, 0, 64),
            word_from(s, 64, 64),
            word_from(s, 128, 64),
            word_from(s, 192, 64),
        ],
    );
    lemma_word_from(s, 0, 64);
    lemma_word_from(s, 64, 64);
    lemma_word_from(s, 128, 64);
    lemma_word_from(s, 192, 64);
    assert forall|b: u8| m@.contains(b) == s.contains(b) by {
        let w = b as int / 64;
        let i = (b % 64) as u64;
        assert(m.0@[w] == word_from(s, 64 * w, 64));
        assert(bit(word_from(s, 64 * w, 64), i) == s.contains((64 * w + i) as u8));
    }
    assert(m@ =~= s);
}

impl Default for ByteMask {
    fn default() -> (r: Self)
        ensures
            r@ == Set::<u8>::empty(),
    {
        ByteMask::new()
    }
}

impl PartialEq for ByteMask {
    fn eq(&self, other: &ByteMask) -> (r: bool) {
        let r = self.0[0] == other.0[0] && self.0[1] == other.0[1] && self.0[2] == other.0[2]
            && self.0[3] == other.0[3];
        proof {
            if r {
                assert(self.0@ =~= other.0@);
            }
            if self@ == other@ {
                lemma_word_set_injective(self.0, other.0);
            }
        }
        r
    }
}

impl vstd::std_specs::cmp::PartialEqSpecImpl for ByteMask {
    open spec fn obeys_eq_spec() -> bool {
        true
    }

    open spec fn eq_spec(&self, other: &ByteMask) -> bool {
        self@ == other@
    }
}

impl Eq for ByteMask {

}

impl PartialEq<[u64; 4]> for ByteMask {
    fn eq(&self, other: &[u64; 4]) -> (r: bool) {
        *self == ByteMask(*other)
    }
}

impl vstd::std_specs::cmp::PartialEqSpecImpl<[u64; 4]> for ByteMask {
    open spec fn obeys_eq_spec() -> bool {
        true
    }

    open spec fn eq_spec(&self, other: &[u64; 4]) -> bool {
        self@ == word_set(*other)
    }
}

impl PartialEq<ByteMask> for [u64; 4] {
    fn eq(&self, other: &ByteMask) -> (r: bool) {
        ByteMask(*self) == *other
    }
}

impl vstd::std_specs::cmp::PartialEqSpecImpl<ByteMask> for [u64; 4] {
    open spec fn obeys_eq_spec() -> bool {
        true
    }

    open spec fn eq_spec(&self, other: &ByteMask) -> bool {
        word_set(*self) == other@
    }
}

impl From<u8> for ByteMask {
    fn from(singleton_byte: u8) -> (r: Self) {
        let mut new_mask = Self::new();
        new_mask.set_bit(singleton_byte);
        proof {
            lemma_mask_of(new_mask);
        }
        new_mask
    }
}

impl FromSpecImpl<u8> for ByteMask {
    open spec fn obeys_from_spec() -> bool {
        true
    }

    open spec fn from_spec(singleton_byte: u8) -> ByteMask {
        mask_of(Set::empty().insert(singleton_byte))
    }
}

impl From<Range<u8>> for ByteMask {
    fn from(range: Range<u8>) -> (r: Self) {
        let r = Self::from_range(range);
        proof {
            lemma_mask_of(r);
        }
        r
    }
}

impl FromSpecImpl<Range<u8>> for ByteMask {
    open spec fn obeys_from_spec() -> bool {
        true
    }

    open spec fn from_spec(range: Range<u8>) -> ByteMask {
        mask_of(span(range.start as int, range.end as int))
    }
}

impl From<RangeInclusive<u8>> for ByteMask {
    fn from(range: RangeInclusive<u8>) -> (r: Self) {
        let r = Self::from_range(range);
        proof {
            lemma_mask_of(r);
        }
        r
    }
}

/// The bytes that `range` still holds.
pub open spec fn inclusive_bytes(range: RangeInclusive<u8>) -> Set<u8> {
    if range@.exhausted {
        span(range@.start as int, range@.end as int)
    } else {
        span(range@.start as int, range@.end + 1)
    }
}

impl FromSpecImpl<RangeInclusive<u8>> for ByteMask {
    open spec fn obeys_from_spec() -> bool {
        true
    }

    open spec fn from_spec(range: RangeInclusive<u8>) -> ByteMask {
        mask_of(inclusive_bytes(range))
    }
}

impl From<[u64; 4]> for ByteMask {
    fn from(mask: [u64; 4]) -> (r: Self) {
        ByteMask(mask)
    }
}

impl FromSpecImpl<[u64; 4]> for ByteMask {
    open spec fn obeys_from_spec() -> bool {
        true
    }

    open spec fn from_spec(mask: [u64; 4]) -> ByteMask {
        ByteMask(mask)
    }
}

impl From<ByteMask> for [u64; 4] {
    fn from(mask: ByteMask) -> (r: Self) {
        mask.0
    }
}

impl FromSpecImpl<ByteMask> for [u64; 4] {
    open spec fn obeys_from_spec() -> bool {
        true
    }

    open spec fn from_spec(mask: ByteMask) -> [u64; 4] {
        mask.0
    }
}

impl std::ops::BitOr<ByteMask> for ByteMask {
    type Output = ByteMask;

    fn bitor(self, other: ByteMask) -> (r: ByteMask) {
        let r = self.or(&other);
        proof {
            lemma_mask_of(r);
        }
        r
    }
}

impl BitOrSpecImpl<ByteMask> for ByteMask {
    open spec fn obeys_bitor_spec() -> bool {
        true
    }

    open spec fn bitor_req(self, other: ByteMask) -> bool {
        true
    }

    open spec fn bitor_spec(self, other: ByteMask) -> ByteMask {
        mask_of(self@.union(other@))
    }
}

impl<'a> std::ops::BitOr<&'a ByteMask> for &'a ByteMask {
    type Output = ByteMask;

    fn bitor(self, other: &'a ByteMask) -> (r: ByteMask) {
        let r = self.or(other);
        proof {
            lemma_mask_of(r);
        }
        r
    }
}

impl<'a> BitOrSpecImpl<&'a ByteMask> for &'a ByteMask {
    open spec fn obeys_bitor_spec() -> bool {
        true
    }

    open spec fn bitor_req(self, other: &'a ByteMask) -> bool {
        true
    }

    open spec fn bitor_spec(self, other: &'a ByteMask) -> ByteMask {
        mask_of(self@.union(other@))
    }
}

impl std::ops::BitAnd<ByteMask> for ByteMask {
    type Output = ByteMask;

    fn bitand(self, other: ByteMask) -> (r: ByteMask) {
        let r = self.and(&other);
        proof {
            lemma_mask_of(r);
        }
        r
    }
}

impl BitAndSpecImpl<ByteMask> for ByteMask {
    open spec fn obeys_bitand_spec() -> bool {
        true
    }

    open spec fn bitand_req(self, other: ByteMask) -> bool {
        true
    }

    open spec fn bitand_spec(self, other: ByteMask) -> ByteMask {
        mask_of(self@.intersect(other@))
    }
}

impl<'a> std::ops::BitAnd<&'a ByteMask> for &'a ByteMask {
    type Output = ByteMask;

    fn bitand(self, other: &'a ByteMask) -> (r: ByteMask) {
        let r = self.and(other);
        proof {
            lemma_mask_of(r);
        }
        r
    }
}

impl<'a> BitAndSpecImpl<&'a ByteMask> for &'a ByteMask {
    open spec fn obeys_bitand_spec() -> bool {
        true
    }

    open spec fn bitand_req(self, other: &'a ByteMask) -> bool {
        true
    }

    open spec fn bitand_spec(self, other: &'a ByteMask) -> ByteMask {
        mask_of(self@.intersect(other@))
    }
}

impl core::ops::BitOrAssign for ByteMask {
    fn bitor_assign(&mut self, other: ByteMask)
        ensures
            final(self)@ == old(self)@.union(other@),
    {
        *self = self.or(&other);
    }
}

impl core::ops::BitAndAssign for ByteMask {
    fn bitand_assign(&mut self, other: ByteMask)
        ensures
            final(self)@ == old(self)@.intersect(other@),
    {
        *self = self.and(&other);
    }
}

/// Returns a new empty mask.
pub fn empty_mask() -> (m: [u64; 4])
    ensures
        m@ == seq![0u64, 0, 0, 0],
        word_set(m) == Set::<u8>::empty(),
{
    broadcast use group_bit;

    let m: [u64; 4] = [0, 0, 0, 0];
    assert(m@ =~= seq![0u64, 0, 0, 0]);
    assert(word_set(m) =~= Set::<u8>::empty());
    m
}

} // verus!

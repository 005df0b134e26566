//! Single bits of machine words, and the vocabulary in which sets of bytes are counted and listed.

use vstd::prelude::*;
use vstd::std_specs::bits::{
    axiom_u64_leading_zeros, axiom_u64_trailing_zeros, u64_leading_zeros, u64_trailing_zeros,
};

verus! {

/// Whether bit `i` of `w` is one.
pub open spec fn bit(w: u64, i: u64) -> bool {
    (w >> i) & 1 == 1
}

/// How many of the lowest `n` bits of `w` are one.
pub open spec fn word_rank(w: u64, n: nat) -> nat
    decreases n,
{
    if n == 0 {
        0
    } else {
        word_rank(w, (n - 1) as nat) + if bit(w, (n - 1) as u64) {
            1nat
        } else {
            0nat
        }
    }
}

/// How many members of `s` are smaller than `n`.
pub open spec fn rank(s: Set<u8>, n: nat) -> nat
    decreases n,
{
    if n == 0 {
        0
    } else {
        rank(s, (n - 1) as nat) + if s.contains((n - 1) as u8) {
            1nat
        } else {
            0nat
        }
    }
}

/// The members of `s` that are smaller than `n`, in ascending order.
pub open spec fn members_below(s: Set<u8>, n: nat) -> Seq<u8>
    decreases n,
{
    if n == 0 {
        Seq::empty()
    } else {
        let init = members_below(s, (n - 1) as nat);
        if s.contains((n - 1) as u8) {
            init.push((n - 1) as u8)
        } else {
            init
        }
    }
}

/// All members of `s`, in ascending order.
pub open spec fn members(s: Set<u8>) -> Seq<u8> {
    members_below(s, 256)
}

/// `b` is the smallest member of `s`.
pub open spec fn is_least(s: Set<u8>, b: u8) -> bool {
    &&& s.contains(b)
    &&& forall|c: u8| #[trigger] s.contains(c) ==> b <= c
}

/// The number of ones in the binary representation, as `u64::count_ones` documents it.
pub assume_specification[ u64::count_ones ](w: u64) -> (r: u32)
    ensures
        r == word_rank(w, 64),
;

pub broadcast proof fn lemma_bit_or(a: u64, b: u64, i: u64)
    requires
        i < 64,
    ensures
        #[trigger] bit(a | b, i) == (bit(a, i) || bit(b, i)),
{
    assert(i < 64 ==> (((a | b) >> i) & 1 == 1) == ((a >> i) & 1 == 1 || (b >> i) & 1 == 1))
        by (bit_vector);
}

pub broadcast proof fn lemma_bit_and(a: u64, b: u64, i: u64)
    requires
        i < 64,
    ensures
        #[trigger] bit(a & b, i) == (bit(a, i) && bit(b, i)),
{
    assert(i < 64 ==> (((a & b) >> i) & 1 == 1) == ((a >> i) & 1 == 1 && (b >> i) & 1 == 1))
        by (bit_vector);
}

pub broadcast proof fn lemma_bit_xor(a: u64, b: u64, i: u64)
    requires
        i < 64,
    ensures
        #[trigger] bit(a ^ b, i) == (bit(a, i) != bit(b, i)),
{
    assert(i < 64 ==> (((a ^ b) >> i) & 1 == 1) == (((a >> i) & 1 == 1) != ((b >> i) & 1 == 1)))
        by (bit_vector);
}

pub broadcast proof fn lemma_bit_not(a: u64, i: u64)
    requires
        i < 64,
    ensures
        #[trigger] bit(!a, i) == !bit(a, i),
{
    assert(i < 64 ==> (((!a) >> i) & 1 == 1) == !((a >> i) & 1 == 1)) by (bit_vector);
}

pub broadcast proof fn lemma_bit_one(k: u64, i: u64)
    requires
        i < 64,
        k < 64,
    ensures
        #[trigger] bit(1u64 << k, i) == (i == k),
{
    assert(i < 64 && k < 64 ==> (((1u64 << k) >> i) & 1 == 1) == (i == k)) by (bit_vector);
}

pub broadcast proof fn lemma_bit_from(lo: u64, i: u64)
    requires
        i < 64,
        lo < 64,
    ensures
        #[trigger] bit(!0u64 << lo, i) == (lo <= i),
{
    assert(i < 64 && lo < 64 ==> ((((!0u64) << lo) >> i) & 1 == 1) == (lo <= i)) by (bit_vector);
}

pub broadcast proof fn lemma_bit_to(k: u64, i: u64)
    requires
        i < 64,
        k < 64,
    ensures
        #[trigger] bit(!0u64 >> k, i) == (i < 64 - k),
{
    assert(i < 64 && k < 64 ==> ((((!0u64) >> k) >> i) & 1 == 1) == (i < 64 - k)) by (bit_vector);
}

pub broadcast proof fn lemma_bit_zero(i: u64)
    ensures
        !#[trigger] bit(0u64, i),
{
    assert(!((0u64 >> i) & 1 == 1)) by (bit_vector);
}

pub broadcast proof fn lemma_bit_ones(i: u64)
    requires
        i < 64,
    ensures
        #[trigger] bit(!0u64, i),
{
    assert(i < 64 ==> ((!0u64) >> i) & 1 == 1) by (bit_vector);
}

pub broadcast group group_bit {
    lemma_bit_or,
    lemma_bit_and,
    lemma_bit_xor,
    lemma_bit_not,
    lemma_bit_one,
    lemma_bit_from,
    lemma_bit_to,
    lemma_bit_zero,
    lemma_bit_ones,
}

/// The position of the lowest one.
pub proof fn lemma_lowest_bit(w: u64)
    ensures
        u64_trailing_zeros(w) <= 64,
        w == 0 <==> u64_trailing_zeros(w) == 64,
        w != 0 ==> bit(w, u64_trailing_zeros(w) as u64),
        forall|j: u64| j < u64_trailing_zeros(w) ==> !#[trigger] bit(w, j),
{
    axiom_u64_trailing_zeros(w);
    assert forall|j: u64| j < u64_trailing_zeros(w) implies !#[trigger] bit(w, j) by {
        assert((w >> j) & 1u64 == 0u64);
    }
}

/// The position of the highest one.
pub proof fn lemma_highest_bit(w: u64)
    ensures
        0 <= u64_leading_zeros(w) <= 64,
        w == 0 <==> u64_leading_zeros(w) == 64,
        w != 0 ==> bit(w, (63 - u64_leading_zeros(w)) as u64),
        forall|j: u64| 64 - u64_leading_zeros(w) <= j < 64 ==> !#[trigger] bit(w, j),
{
    axiom_u64_leading_zeros(w);
    if w != 0 {
        let k: u64 = (63 - u64_leading_zeros(w)) as u64;
        assert((w >> k) & 1u64 != 0u64);
        assert((w >> k) & 1u64 != 0u64 ==> (w >> k) & 1u64 == 1u64) by (bit_vector);
    }
    assert forall|j: u64| 64 - u64_leading_zeros(w) <= j < 64 implies !#[trigger] bit(w, j) by {
        assert((w >> j) & 1u64 == 0u64);
    }
}

/// Words that agree in every bit are equal.
pub proof fn lemma_words_equal(a: u64, b: u64)
    requires
        forall|i: u64| i < 64 ==> #[trigger] bit(a, i) == bit(b, i),
    ensures
        a == b,
{
    let x = a ^ b;
    lemma_lowest_bit(x);
    if x != 0 {
        let i = u64_trailing_zeros(x) as u64;
        lemma_bit_xor(a, b, i);
        assert(bit(a, i) == bit(b, i));
    }
    assert(a ^ b == 0 ==> a == b) by (bit_vector);
}

/// Words that agree in the lowest `n` bits count the same below `n`.
pub proof fn lemma_word_rank_agree(a: u64, b: u64, n: nat)
    requires
        n <= 64,
        forall|i: u64| i < n ==> #[trigger] bit(a, i) == bit(b, i),
    ensures
        word_rank(a, n) == word_rank(b, n),
    decreases n,
{
    if n > 0 {
        lemma_word_rank_agree(a, b, (n - 1) as nat);
        assert(bit(a, (n - 1) as u64) == bit(b, (n - 1) as u64));
    }
}

/// Where no bit from `n` up is one, all ones are counted below `n`.
pub proof fn lemma_word_rank_top(w: u64, n: nat, m: nat)
    requires
        n <= m <= 64,
        forall|i: u64| n <= i < m ==> !#[trigger] bit(w, i),
    ensures
        word_rank(w, m) == word_rank(w, n),
    decreases m - n,
{
    if n < m {
        lemma_word_rank_top(w, n, (m - 1) as nat);
        assert(!bit(w, (m - 1) as u64));
    }
}

pub proof fn lemma_word_rank_bound(w: u64, n: nat)
    ensures
        word_rank(w, n) <= n,
    decreases n,
{
    if n > 0 {
        lemma_word_rank_bound(w, (n - 1) as nat);
    }
}

pub proof fn lemma_rank_bound(s: Set<u8>, n: nat)
    ensures
        rank(s, n) <= n,
    decreases n,
{
    if n > 0 {
        lemma_rank_bound(s, (n - 1) as nat);
    }
}

pub proof fn lemma_rank_mono(s: Set<u8>, m: nat, n: nat)
    requires
        m <= n,
    ensures
        rank(s, m) <= rank(s, n),
        rank(s, n) - rank(s, m) <= n - m,
    decreases n,
{
    if m < n {
        lemma_rank_mono(s, m, (n - 1) as nat);
    }
}

/// Between `m` and `n`, where `s` has no member, the rank does not grow.
pub proof fn lemma_rank_gap(s: Set<u8>, m: nat, n: nat)
    requires
        m <= n <= 256,
        forall|b: u8| m <= b < n ==> !#[trigger] s.contains(b),
    ensures
        rank(s, m) == rank(s, n),
    decreases n,
{
    if m < n {
        lemma_rank_gap(s, m, (n - 1) as nat);
        assert(!s.contains((n - 1) as u8));
    }
}

pub proof fn lemma_rank_agree(s: Set<u8>, t: Set<u8>, n: nat)
    requires
        n <= 256,
        forall|b: u8| b < n ==> #[trigger] s.contains(b) == t.contains(b),
    ensures
        rank(s, n) == rank(t, n),
    decreases n,
{
    if n > 0 {
        lemma_rank_agree(s, t, (n - 1) as nat);
        assert(s.contains((n - 1) as u8) == t.contains((n - 1) as u8));
    }
}

/// The list of members has one entry per member, each at the place its rank gives.
pub proof fn lemma_members_below(s: Set<u8>, n: nat)
    requires
        n <= 256,
    ensures
        members_below(s, n).len() == rank(s, n),
        forall|b: u8|
            b < n && #[trigger] s.contains(b) ==> rank(s, b as nat) < rank(s, n) && members_below(
                s,
                n,
            )[rank(s, b as nat) as int] == b,
        forall|i: int|
            0 <= i < rank(s, n) ==> s.contains(#[trigger] members_below(s, n)[i]) && members_below(
                s,
                n,
            )[i] < n && rank(s, members_below(s, n)[i] as nat) == i,
    decreases n,
{
    if n > 0 {
        lemma_members_below(s, (n - 1) as nat);
        let l = members_below(s, n);
        let init = members_below(s, (n - 1) as nat);
        let last = (n - 1) as u8;
        assert forall|b: u8| b < n && #[trigger] s.contains(b) implies rank(s, b as nat) < rank(s, n)
            && l[rank(s, b as nat) as int] == b by {
            if b < n - 1 {
                assert(init[rank(s, b as nat) as int] == b);
            }
        }
        assert forall|i: int| 0 <= i < rank(s, n) implies s.contains(#[trigger] l[i]) && l[i] < n
            && rank(s, l[i] as nat) == i by {
            if i < rank(s, (n - 1) as nat) {
                assert(l[i] == init[i]);
            }
        }
    }
}

/// `members` lists exactly the members, strictly ascending, the member of rank `i` at place `i`.
pub proof fn lemma_members(s: Set<u8>)
    ensures
        members(s).len() == rank(s, 256),
        forall|b: u8| #[trigger]
            s.contains(b) ==> rank(s, b as nat) < rank(s, 256) && members(s)[rank(
                s,
                b as nat,
            ) as int] == b,
        forall|i: int|
            0 <= i < members(s).len() ==> s.contains(#[trigger] members(s)[i]) && rank(
                s,
                members(s)[i] as nat,
            ) == i,
        forall|i: int, j: int|
            0 <= i < j < members(s).len() ==> #[trigger] members(s)[i] < #[trigger] members(s)[j],
{
    lemma_members_below(s, 256);
    assert forall|i: int, j: int| 0 <= i < j < members(s).len() implies #[trigger] members(s)[i]
        < #[trigger] members(s)[j] by {
        if members(s)[j] <= members(s)[i] {
            lemma_rank_mono(s, members(s)[j] as nat, members(s)[i] as nat);
        }
    }
}

/// The rank counts the members below `n`.
pub proof fn lemma_rank_is_count(s: Set<u8>, n: nat)
    requires
        n <= 256,
    ensures
        s.filter(|b: u8| b < n).finite(),
        rank(s, n) == s.filter(|b: u8| b < n).len(),
    decreases n,
{
    let f = s.filter(|b: u8| b < n);
    if n == 0 {
        assert(f =~= Set::empty());
    } else {
        lemma_rank_is_count(s, (n - 1) as nat);
        let g = s.filter(|b: u8| b < n - 1);
        if s.contains((n - 1) as u8) {
            assert(f =~= g.insert((n - 1) as u8));
        } else {
            assert(f =~= g);
        }
    }
}

/// A set of bytes is finite, and its size is the rank of the end.
pub proof fn lemma_rank_is_len(s: Set<u8>)
    ensures
        s.finite(),
        rank(s, 256) == s.len(),
        rank(s, 256) == 0 <==> s =~= Set::empty(),
{
    lemma_rank_is_count(s, 256);
    assert(s.filter(|b: u8| b < 256) =~= s);
    if s.len() == 0 {
        assert forall|b: u8| !s.contains(b) by {
            if s.contains(b) {
                lemma_members(s);
            }
        }
    }
}

/// Taking the least member out takes the head off the list.
pub proof fn lemma_members_tail(s: Set<u8>, b: u8)
    requires
        is_least(s, b),
    ensures
        members(s).len() > 0,
        members(s)[0] == b,
        members(s.remove(b)) == members(s).drop_first(),
{
    let t = s.remove(b);
    lemma_members(s);
    lemma_rank_gap(s, 0, b as nat);
    lemma_members_below_tail(s, b, 256);
    assert(members(s) =~= seq![b] + members(t));
    assert(members(s).drop_first() =~= members(t));
}

proof fn lemma_members_below_tail(s: Set<u8>, b: u8, n: nat)
    requires
        is_least(s, b),
        b < n <= 256,
    ensures
        members_below(s, n) =~= seq![b] + members_below(s.remove(b), n),
    decreases n,
{
    let m = (n - 1) as nat;
    if b < m {
        lemma_members_below_tail(s, b, m);
    } else {
        lemma_members_below_none(s, m);
        lemma_members_below_none(s.remove(b), m);
    }
}

proof fn lemma_members_below_none(s: Set<u8>, n: nat)
    requires
        n <= 256,
        forall|c: u8| c < n ==> !#[trigger] s.contains(c),
    ensures
        members_below(s, n) =~= Seq::empty(),
    decreases n,
{
    if n > 0 {
        lemma_members_below_none(s, (n - 1) as nat);
        assert(!s.contains((n - 1) as u8));
    }
}

} // verus!

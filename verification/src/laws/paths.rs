//! What the words for paths and sets of bytes mean.

use vstd::prelude::*;

use crate::slices::{begins_with, lemma_overlap, overlap};
use crate::trie_order::{lemma_less_total, lemma_less_transitive, less};
use crate::utils::bits::{
    is_least, lemma_members, lemma_rank_is_count, lemma_rank_is_len, members, rank,
};
use crate::zipper::up;

verus! {

/// Two paths have the same bytes as far as they overlap, and no further.
pub proof fn law_overlap_is_longest(a: Seq<u8>, b: Seq<u8>, n: int)
    requires
        0 <= n <= a.len(),
        n <= b.len(),
    ensures
        n <= overlap(a, b) <==> a.subrange(0, n) == b.subrange(0, n),
        overlap(a, b) <= a.len(),
        overlap(a, b) <= b.len(),
{
    lemma_overlap(a, b);
    let k = overlap(a, b) as int;
    if n <= k {
        assert forall|i: int| 0 <= i < n implies a[i] == b[i] by {}
        assert(a.subrange(0, n) =~= b.subrange(0, n));
    } else {
        assert(a.subrange(0, n)[k] == a[k]);
        assert(b.subrange(0, n)[k] == b[k]);
    }
}

/// A path that goes on from another begins with it, and no other does.
pub proof fn law_begins_with(a: Seq<u8>, b: Seq<u8>)
    ensures
        begins_with(a + b, a),
        begins_with(b, a) ==> b == a + b.subrange(a.len() as int, b.len() as int),
{
    assert((a + b).subrange(0, a.len() as int) =~= a);
    if begins_with(b, a) {
        assert(b =~= b.subrange(0, a.len() as int) + b.subrange(a.len() as int, b.len() as int));
    }
}

/// Going up leaves out the last bytes, and as many as are asked for.
pub proof fn law_up_leaves_out_last(a: Seq<u8>, b: Seq<u8>)
    ensures
        up(a + b, b.len() as int) == a,
{
    assert(up(a + b, b.len() as int) =~= a);
}

/// Paths are ordered as words are: where they first differ the smaller byte comes first, and a path
/// comes before those that go on from it.
pub proof fn law_paths_are_ordered_as_words(p: Seq<u8>, x: u8, y: u8, a: Seq<u8>, b: Seq<u8>)
    ensures
        x < y ==> less(p.push(x) + a, p.push(y) + b),
        less(p, p.push(x) + a),
        !less(p, p),
{
    lemma_words(p, x, y, a, b);
    crate::trie_order::lemma_overlap_at(p, p.push(x) + a, p.len() as int);
    crate::trie_order::lemma_less_irreflexive(p);
}

proof fn lemma_words(p: Seq<u8>, x: u8, y: u8, a: Seq<u8>, b: Seq<u8>)
    ensures
        x < y ==> less(p.push(x) + a, p.push(y) + b),
{
    let n = p.len() as int;
    let (c, d) = (p.push(x) + a, p.push(y) + b);
    assert(c[n] == x && d[n] == y);
    assert forall|i: int| 0 <= i < n implies c[i] == d[i] by {
        assert(c[i] == p[i] && d[i] == p[i]);
    }
    if x < y {
        crate::trie_order::lemma_overlap_at(c, d, n);
    }
}

/// Of two paths one comes first, unless they are the same, and what comes first of three comes before
/// the last.
pub proof fn law_order_of_paths(a: Seq<u8>, b: Seq<u8>, c: Seq<u8>)
    ensures
        a != b ==> (less(a, b) <==> !less(b, a)),
        a == b ==> !less(a, b),
        less(a, b) && less(b, c) ==> less(a, c),
{
    lemma_less_total(a, b);
    crate::trie_order::lemma_less_irreflexive(a);
    if less(a, b) && less(b, c) {
        lemma_less_transitive(a, b, c);
    }
}

/// The members of a set are listed each once, in ascending order, and nothing else is.
pub proof fn law_members_in_order(s: Set<u8>)
    ensures
        forall|i: int, j: int| 0 <= i < j < members(s).len() ==> members(s)[i] < members(s)[j],
        forall|b: u8| #[trigger] members(s).contains(b) <==> s.contains(b),
        members(s).len() == s.len(),
        s.finite(),
{
    lemma_members(s);
    lemma_rank_is_len(s);
    assert forall|b: u8| #[trigger] members(s).contains(b) <==> s.contains(b) by {
        if s.contains(b) {
            assert(members(s)[rank(s, b as nat) as int] == b);
        }
        if members(s).contains(b) {
            let i = choose|i: int| 0 <= i < members(s).len() && members(s)[i] == b;
            assert(s.contains(members(s)[i]));
        }
    }
}

/// The rank of a byte is how many members are smaller, and the members stand at their ranks.
pub proof fn law_rank_counts_smaller(s: Set<u8>, b: u8)
    ensures
        rank(s, b as nat) == s.filter(|c: u8| c < b).len(),
        rank(s, 256) == s.len(),
        s.contains(b) ==> members(s)[rank(s, b as nat) as int] == b,
{
    lemma_rank_is_count(s, b as nat);
    lemma_rank_is_len(s);
    lemma_members(s);
    assert(s.filter(|c: u8| c < b as nat) =~= s.filter(|c: u8| c < b));
}

/// The least member is the first that is listed.
pub proof fn law_least_is_first(s: Set<u8>, b: u8)
    ensures
        is_least(s, b) <==> members(s).len() > 0 && members(s)[0] == b,
{
    law_members_in_order(s);
    if is_least(s, b) {
        assert(members(s).contains(b));
        let i = choose|i: int| 0 <= i < members(s).len() && members(s)[i] == b;
        assert(members(s).contains(members(s)[0]));
        assert(s.contains(members(s)[0]));
    }
    if members(s).len() > 0 && members(s)[0] == b {
        assert(members(s).contains(b));
        assert forall|c: u8| #[trigger] s.contains(c) implies b <= c by {
            assert(members(s).contains(c));
            let i = choose|i: int| 0 <= i < members(s).len() && members(s)[i] == c;
        }
    }
}

} // verus!

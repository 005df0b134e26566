//! What is written of places that are shared.

use vstd::prelude::*;

use crate::arena_compact::shared_layout::{
    shared_build, shared_kids, shared_line, wrapped, Shelf,
};
use crate::trie::Trie;
use crate::utils::bits::lemma_rank_is_len;

verus! {

/// All that is kept in `s` is kept in `s2`.
pub open spec fn keeps_all(s: Shelf, s2: Shelf) -> bool {
    forall|id: u64| #[trigger] s.nodes.contains_key(id) ==> s2.nodes.contains_key(id)
}

/// Below a fork a place whose number has a node is not written again: that node stands for it, and
/// nothing changes.
pub proof fn law_known_place_is_not_written(
    s: Shelf,
    t: Trie<u64>,
    shares: spec_fn(Seq<u8>) -> Option<u64>,
    p: Seq<u8>,
    id: u64,
)
    requires
        shares(p) == Some(id),
        s.nodes.contains_key(id),
    ensures
        shared_build(s, t, shares, p, true) == (s, s.nodes[id]),
{
}

/// Below a fork a place that has a number is known once it is written.
pub proof fn law_written_place_is_known(
    s: Shelf,
    t: Trie<u64>,
    shares: spec_fn(Seq<u8>) -> Option<u64>,
    p: Seq<u8>,
    id: u64,
)
    requires
        shares(p) == Some(id),
    ensures
        shared_build(s, t, shares, p, true).0.nodes.contains_key(id),
        shared_build(s, t, shares, p, true).0.nodes[id] == shared_build(s, t, shares, p, true).1,
{
}

/// A fork that has a number is known once it is written, wherever it stands, and what is known of it is
/// a node for it and not for the bytes above. What is below it stands below a fork.
pub proof fn law_written_fork_is_known(
    s: Shelf,
    t: Trie<u64>,
    shares: spec_fn(Seq<u8>) -> Option<u64>,
    p: Seq<u8>,
    prefix: Seq<u8>,
    id: u64,
)
    requires
        shares(p) == Some(id),
        t.kids.dom().len() >= 2,
        !t.is_link(),
    ensures
        shared_line(s, t, shares, p, prefix).0.nodes.contains_key(id),
        s.nodes.contains_key(id) ==> shared_line(s, t, shares, p, prefix) == wrapped(
            s,
            s.nodes[id],
            prefix,
        ),
        !s.nodes.contains_key(id) ==> keeps_all(
            shared_kids(s, t, shares, p, true, 256).0,
            shared_line(s, t, shares, p, prefix).0,
        ),
{
    lemma_rank_is_len(t.kids.dom());
}

/// What is known stays known.
pub proof fn law_known_stays_known(
    s: Shelf,
    t: Trie<u64>,
    shares: spec_fn(Seq<u8>) -> Option<u64>,
    p: Seq<u8>,
    below_fork: bool,
)
    ensures
        keeps_all(s, shared_build(s, t, shares, p, below_fork).0),
    decreases t, 302nat,
{
    lemma_line_keeps(s, t, shares, p, Seq::empty());
}

proof fn lemma_line_keeps(
    s: Shelf,
    t: Trie<u64>,
    shares: spec_fn(Seq<u8>) -> Option<u64>,
    p: Seq<u8>,
    prefix: Seq<u8>,
)
    ensures
        keeps_all(s, shared_line(s, t, shares, p, prefix).0),
    decreases t, 301nat,
{
    if t.is_link() && t.kids.contains_key(t.link_byte()) {
        let b = t.link_byte();
        lemma_line_keeps(s, t.kids[b], shares, p.push(b), prefix.push(b));
    } else {
        let fork = crate::utils::bits::rank(t.kids.dom(), 256) >= 2;
        lemma_kids_keep(s, t, shares, p, fork, 256);
    }
}

proof fn lemma_kids_keep(
    s: Shelf,
    t: Trie<u64>,
    shares: spec_fn(Seq<u8>) -> Option<u64>,
    p: Seq<u8>,
    fork: bool,
    n: nat,
)
    ensures
        keeps_all(s, shared_kids(s, t, shares, p, fork, n).0),
    decreases t, n,
{
    if n > 0 {
        let b = (n - 1) as u8;
        let s1 = shared_kids(s, t, shares, p, fork, (n - 1) as nat).0;
        lemma_kids_keep(s, t, shares, p, fork, (n - 1) as nat);
        if t.kids.contains_key(b) {
            law_known_stays_known(s1, t.kids[b], shares, p.push(b), fork);
        }
    }
}

/// Of two children with one number the second adds nothing to the file.
pub proof fn law_second_child_adds_nothing(
    s: Shelf,
    t: Trie<u64>,
    shares: spec_fn(Seq<u8>) -> Option<u64>,
    p: Seq<u8>,
    first: u8,
    second: u8,
)
    requires
        t.kids.contains_key(first),
        t.kids.contains_key(second),
        first < second,
        shares(p.push(first)) is Some,
        shares(p.push(first)) == shares(p.push(second)),
    ensures
        shared_kids(s, t, shares, p, true, (second + 1) as nat).0 == shared_kids(
            s,
            t,
            shares,
            p,
            true,
            second as nat,
        ).0,
{
    let id = shares(p.push(first))->Some_0;
    let s0 = shared_kids(s, t, shares, p, true, first as nat).0;
    law_written_place_is_known(s0, t.kids[first], shares, p.push(first), id);
    lemma_still_known(s, t, shares, p, first, second as nat, id);
    let s1 = shared_kids(s, t, shares, p, true, second as nat).0;
    law_known_place_is_not_written(s1, t.kids[second], shares, p.push(second), id);
}

proof fn lemma_still_known(
    s: Shelf,
    t: Trie<u64>,
    shares: spec_fn(Seq<u8>) -> Option<u64>,
    p: Seq<u8>,
    first: u8,
    n: nat,
    id: u64,
)
    requires
        first < n <= 256,
        shared_kids(s, t, shares, p, true, (first + 1) as nat).0.nodes.contains_key(id),
    ensures
        shared_kids(s, t, shares, p, true, n).0.nodes.contains_key(id),
    decreases n,
{
    if first + 1 < n {
        let m = (n - 1) as nat;
        lemma_still_known(s, t, shares, p, first, m, id);
        let b = (n - 1) as u8;
        let s1 = shared_kids(s, t, shares, p, true, m).0;
        if t.kids.contains_key(b) {
            law_known_stays_known(s1, t.kids[b], shares, p.push(b), true);
        }
    }
}

} // verus!

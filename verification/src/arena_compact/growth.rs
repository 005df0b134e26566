//! How many bytes a merge appends.

use vstd::prelude::*;

use crate::arena_compact::layout::push_nodes;
use crate::arena_compact::node::{node_bytes, NodeView};
use crate::arena_compact::varint::lemma_varint_len;
use crate::trie::{chain, lemma_link, Trie};
use crate::utils::bits::{lemma_rank_is_len, rank};

verus! {

/// No node takes more bytes.
pub const NODE_ROOM: u64 = 60;

/// A place that is new takes no more bytes, with its node and its byte of a line.
pub const PLACE_ROOM: u64 = 130;

/// A place that was there and is led through takes no more bytes, besides the nodes of its children.
pub const STEP_ROOM: u64 = 140;

/// The number of places of a trie.
#[verifier::opaque]
pub open spec fn places<V>(t: Trie<V>) -> nat
    decreases t, 257nat,
{
    1 + kid_places(t, 256)
}

/// The number of places at and below the children whose bytes are below `n`.
#[verifier::opaque]
pub open spec fn kid_places<V>(t: Trie<V>, n: nat) -> nat
    decreases t, n,
{
    if n == 0 {
        0
    } else {
        let b = (n - 1) as u8;
        kid_places(t, (n - 1) as nat) + if t.kids.contains_key(b) {
            places(t.kids[b])
        } else {
            0
        }
    }
}

/// How many bytes lead on from a place without a choice.
pub open spec fn run<V>(t: Trie<V>) -> nat
    decreases t,
{
    if t.is_link() && t.kids.contains_key(t.link_byte()) {
        1 + run(t.kids[t.link_byte()])
    } else {
        0
    }
}

/// From `t` a single byte leads on, and `u` does not just follow it.
pub open spec fn leaves(t: Trie<u64>, u: Trie<u64>) -> bool {
    t.is_link() && (u.val is Some || u.kids.dom() != t.kids.dom())
}

/// No more bytes are appended for the paths of `u` when it is merged into `t`: for each place of both
/// the nodes of all children of `t` there; where `u` leaves the bytes of a line, the rest of those;
/// and something for each place of `u`.
#[verifier::opaque]
pub open spec fn growth(t: Trie<u64>, u: Trie<u64>) -> nat
    decreases u, 257nat,
{
    STEP_ROOM as nat + NODE_ROOM as nat * rank(t.kids.dom(), 256) + (if leaves(t, u) {
        run(t)
    } else {
        0
    }) + kid_growth(t, u, 256)
}

/// The part of [growth] for the children of `u` whose bytes are below `n`.
#[verifier::opaque]
pub open spec fn kid_growth(t: Trie<u64>, u: Trie<u64>, n: nat) -> nat
    decreases u, n,
{
    if n == 0 {
        0
    } else {
        let b = (n - 1) as u8;
        kid_growth(t, u, (n - 1) as nat) + if u.kids.contains_key(b) {
            if t.kids.contains_key(b) {
                growth(t.kids[b], u.kids[b])
            } else {
                PLACE_ROOM as nat * places(u.kids[b])
            }
        } else {
            0
        }
    }
}

/// What [growth] is made of.
pub proof fn lemma_growth(t: Trie<u64>, u: Trie<u64>)
    ensures
        growth(t, u) == STEP_ROOM + NODE_ROOM * rank(t.kids.dom(), 256) + (if leaves(t, u) {
            run(t)
        } else {
            0
        }) + kid_growth(t, u, 256),
        places(u) == 1 + kid_places(u, 256),
{
    reveal(growth);
    reveal(kid_growth);
    reveal(places);
    reveal(kid_places);
}

/// The part of [growth] for a child.
pub open spec fn growth_below(t: Trie<u64>, b: u8, k: Trie<u64>) -> nat {
    if t.kids.contains_key(b) {
        growth(t.kids[b], k)
    } else {
        PLACE_ROOM as nat * places(k)
    }
}

/// A child more.
pub proof fn lemma_kid_growth_insert(
    t: Trie<u64>,
    val: Option<u64>,
    kids: Map<u8, Trie<u64>>,
    b: u8,
    k: Trie<u64>,
    n: nat,
)
    requires
        !kids.contains_key(b),
        n <= 256,
    ensures
        kid_growth(t, Trie { val, kids: kids.insert(b, k) }, n) == kid_growth(
            t,
            Trie { val, kids },
            n,
        ) + if b < n {
            growth_below(t, b, k)
        } else {
            0
        },
    decreases n,
{
    reveal(growth);
    reveal(kid_growth);
    if n > 0 {
        lemma_kid_growth_insert(t, val, kids, b, k, (n - 1) as nat);
        let c = (n - 1) as u8;
        assert(kids.insert(b, k).contains_key(c) == (c == b || kids.contains_key(c)));
    }
}

pub proof fn lemma_kid_places_insert(
    val: Option<u64>,
    kids: Map<u8, Trie<u64>>,
    b: u8,
    k: Trie<u64>,
    n: nat,
)
    requires
        !kids.contains_key(b),
        n <= 256,
    ensures
        kid_places(Trie { val, kids: kids.insert(b, k) }, n) == kid_places(Trie { val, kids }, n)
            + if b < n {
            places(k)
        } else {
            0
        },
    decreases n,
{
    reveal(places);
    reveal(kid_places);
    if n > 0 {
        lemma_kid_places_insert(val, kids, b, k, (n - 1) as nat);
        let c = (n - 1) as u8;
        assert(kids.insert(b, k).contains_key(c) == (c == b || kids.contains_key(c)));
    }
}

pub proof fn lemma_no_kids_growth(t: Trie<u64>, val: Option<u64>, n: nat)
    ensures
        kid_growth(t, Trie { val, kids: Map::empty() }, n) == 0,
        kid_places(Trie::<u64> { val, kids: Map::empty() }, n) == 0,
    decreases n,
{
    reveal(growth);
    reveal(kid_growth);
    reveal(places);
    reveal(kid_places);
    if n > 0 {
        lemma_no_kids_growth(t, val, (n - 1) as nat);
    }
}

/// The value of a place does not matter.
pub proof fn lemma_kid_places_val(
    a: Option<u64>,
    b: Option<u64>,
    kids: Map<u8, Trie<u64>>,
    n: nat,
)
    ensures
        kid_places(Trie { val: a, kids }, n) == kid_places(Trie { val: b, kids }, n),
    decreases n,
{
    reveal(places);
    reveal(kid_places);
    if n > 0 {
        lemma_kid_places_val(a, b, kids, (n - 1) as nat);
    }
}

/// Where all children of `u` are new.
pub proof fn lemma_growth_of_new(t: Trie<u64>, u: Trie<u64>, n: nat)
    requires
        n <= 256,
        forall|b: u8| #[trigger] u.kids.contains_key(b) ==> !t.kids.contains_key(b),
    ensures
        kid_growth(t, u, n) == PLACE_ROOM * kid_places(u, n),
    decreases n,
{
    reveal(growth);
    reveal(kid_growth);
    reveal(places);
    reveal(kid_places);
    if n > 0 {
        lemma_growth_of_new(t, u, (n - 1) as nat);
        let b = (n - 1) as u8;
        if u.kids.contains_key(b) {
            assert(!t.kids.contains_key(b));
        }
    }
}

/// A chain has a place for each of its bytes.
pub proof fn lemma_chain_places(line: Seq<u8>, t: Trie<u64>)
    ensures
        places(chain(line, t)) == line.len() + places(t),
    decreases line.len(),
{
    reveal(places);
    reveal(kid_places);
    if line.len() > 0 {
        let k = chain(line.drop_first(), t);
        lemma_chain_places(line.drop_first(), t);
        lemma_kid_places_insert(None, Map::empty(), line[0], k, 256);
        lemma_no_kids_growth(t, None, 256);
    }
}

/// Along a chain a byte leads on from each place.
pub proof fn lemma_chain_run(line: Seq<u8>, t: Trie<u64>)
    ensures
        run(chain(line, t)) >= line.len(),
    decreases line.len(),
{
    if line.len() > 0 {
        let c = chain(line, t);
        assert(c.kids.dom() =~= Set::<u8>::empty().insert(line[0]));
        lemma_link(c);
        assert(Set::<u8>::empty().insert(c.link_byte()).contains(line[0]));
        lemma_chain_run(line.drop_first(), t);
    }
}

/// Places that are led through along a line.
pub proof fn lemma_chain_growth(line: Seq<u8>, t: Trie<u64>, u: Trie<u64>)
    ensures
        growth(chain(line, t), chain(line, u)) >= (STEP_ROOM + NODE_ROOM) * line.len() + growth(t, u),
    decreases line.len(),
{
    reveal(growth);
    reveal(kid_growth);
    if line.len() > 0 {
        let b = line[0];
        let (x, y) = (chain(line.drop_first(), t), chain(line.drop_first(), u));
        let (c, d) = (chain(line, t), chain(line, u));
        lemma_chain_growth(line.drop_first(), t, u);
        lemma_kid_growth_insert(c, None, Map::empty(), b, y, 256);
        lemma_no_kids_growth(c, None, 256);
        assert(c.kids.contains_key(b) && c.kids[b] == x);
        assert(c.kids.dom() =~= Set::<u8>::empty().insert(b));
        lemma_rank_is_len(c.kids.dom());
    }
}

/// A node has few bytes.
pub proof fn lemma_node_room(n: NodeView, id: nat)
    ensures
        node_bytes(n, id).len() <= NODE_ROOM,
{
    match n {
        NodeView::Line { path, value, child } => {
            lemma_varint_len((id - path) as u64);
            if let Some(v) = value {
                lemma_varint_len(v);
            }
            if let Some(c) = child {
                lemma_varint_len((id - c) as u64);
            }
        },
        NodeView::Branch { mask, first, value } => {
            if let Some(v) = value {
                lemma_varint_len(v);
            }
            if let Some(c) = first {
                lemma_varint_len((id - c) as u64);
            }
            crate::arena_compact::node::lemma_child_bytes_len(mask);
        },
    }
}

pub proof fn lemma_nodes_room(d: Seq<u8>, ns: Seq<NodeView>)
    ensures
        push_nodes(d, ns).len() <= d.len() + NODE_ROOM * ns.len(),
    decreases ns.len(),
{
    if ns.len() > 0 {
        lemma_nodes_room(d, ns.drop_last());
        lemma_node_room(ns.last(), push_nodes(d, ns.drop_last()).len());
    }
}

} // verus!

//! Where the bytes of a trie go when shared places are written once.

use vstd::prelude::*;

use crate::arena_compact::layout::{
    build, build_kids, layout, make_node, push_node, with_root, zeros, Arena,
};
use crate::arena_compact::node::NodeView;
use crate::slices::begins_with;
use crate::trie::{chain, lemma_at_push, lemma_link, Trie};
use crate::utils::bits::{lemma_members, lemma_rank_is_len, members, rank};

verus! {

/// An arena, and for the number of each shared place that has been written the node for it.
#[verifier::ext_equal]
pub struct Shelf {
    pub arena: Arena,
    pub nodes: Map<u64, NodeView>,
}

impl Shelf {
    pub open spec fn start() -> Shelf {
        Shelf { arena: Arena::start(), nodes: Map::empty() }
    }

    /// The node is kept for the number, where there is one.
    pub open spec fn keep(self, addr: Option<u64>, n: NodeView) -> Shelf {
        match addr {
            Some(id) => Shelf { arena: self.arena, nodes: self.nodes.insert(id, n) },
            None => self,
        }
    }

    /// The node that is kept for the number.
    pub open spec fn kept(self, addr: Option<u64>) -> Option<NodeView> {
        match addr {
            Some(id) => if self.nodes.contains_key(id) {
                Some(self.nodes[id])
            } else {
                None
            },
            None => None,
        }
    }

    pub open spec fn with_arena(self, arena: Arena) -> Shelf {
        Shelf { arena, nodes: self.nodes }
    }
}

/// The node that leads through the bytes of `prefix` to `n`, of which a copy is written.
pub open spec fn wrapped(s: Shelf, n: NodeView, prefix: Seq<u8>) -> (Shelf, NodeView) {
    if prefix.len() == 0 {
        (s, n)
    } else {
        let (a, path) = s.arena.add_line(prefix);
        (
            s.with_arena(a.push(n)),
            NodeView::Line { path, value: None, child: Some(a.bytes.len()) },
        )
    }
}

/// The node for the place `t` at the end of `p`.
///
/// Below a fork a place whose number has a node already is not written again.
pub open spec fn shared_build(
    s: Shelf,
    t: Trie<u64>,
    shares: spec_fn(Seq<u8>) -> Option<u64>,
    p: Seq<u8>,
    below_fork: bool,
) -> (Shelf, NodeView)
    decreases t, 302nat,
{
    let addr = if below_fork {
        shares(p)
    } else {
        None
    };
    match s.kept(addr) {
        Some(n) => (s, n),
        None => {
            let (s1, n) = shared_line(s, t, shares, p, Seq::empty());
            (s1.keep(addr, n), n)
        },
    }
}

/// The node for the place `t` at the end of `p`, above which the bytes of `prefix` lead on without
/// a choice. A fork whose number has a node already is not written again.
pub open spec fn shared_line(
    s: Shelf,
    t: Trie<u64>,
    shares: spec_fn(Seq<u8>) -> Option<u64>,
    p: Seq<u8>,
    prefix: Seq<u8>,
) -> (Shelf, NodeView)
    decreases t, 301nat,
{
    if t.is_link() && t.kids.contains_key(t.link_byte()) {
        let b = t.link_byte();
        shared_line(s, t.kids[b], shares, p.push(b), prefix.push(b))
    } else {
        let mask = t.kids.dom();
        let fork = rank(mask, 256) >= 2;
        let addr = if fork {
            shares(p)
        } else {
            None
        };
        match s.kept(addr) {
            Some(n) => wrapped(s, n, prefix),
            None => {
                let (s1, ns) = shared_kids(s, t, shares, p, fork, 256);
                if addr is Some && prefix.len() > 0 {
                    let (a, n) = make_node(s1.arena, mask, ns, Seq::empty(), t.val);
                    wrapped(s1.with_arena(a).keep(addr, n), n, prefix)
                } else {
                    let (a, n) = make_node(s1.arena, mask, ns, prefix, t.val);
                    (s1.with_arena(a).keep(addr, n), n)
                }
            },
        }
    }
}

/// The nodes for the children of `t` whose bytes are below `n`.
pub open spec fn shared_kids(
    s: Shelf,
    t: Trie<u64>,
    shares: spec_fn(Seq<u8>) -> Option<u64>,
    p: Seq<u8>,
    fork: bool,
    n: nat,
) -> (Shelf, Seq<NodeView>)
    decreases t, n,
{
    if n == 0 {
        (s, Seq::empty())
    } else {
        let (s1, ns) = shared_kids(s, t, shares, p, fork, (n - 1) as nat);
        let b = (n - 1) as u8;
        if t.kids.contains_key(b) {
            let (s2, c) = shared_build(s1, t.kids[b], shares, p.push(b), fork);
            (s2, ns.push(c))
        } else {
            (s1, ns)
        }
    }
}

/// The file of a trie in which the shared places are written once. It ends in zeros.
pub open spec fn shared_layout(t: Trie<u64>, shares: spec_fn(Seq<u8>) -> Option<u64>) -> Seq<u8> {
    let (s, n) = shared_build(Shelf::start(), t, shares, Seq::empty(), false);
    with_root(push_node(s.arena.bytes, n), s.arena.bytes.len()) + zeros(8)
}

/// No two places of the trie have the same number.
pub open spec fn unshared<V>(t: Trie<V>, shares: spec_fn(Seq<u8>) -> Option<u64>) -> bool {
    forall|p: Seq<u8>, q: Seq<u8>|
        #![trigger shares(p), shares(q)]
        shares(p) is Some && shares(p) == shares(q) && t.has(p) && t.has(q) ==> p == q
}

/// A chain is written as what is at its end, below its bytes.
pub proof fn lemma_shared_chain(
    s: Shelf,
    line: Seq<u8>,
    t: Trie<u64>,
    shares: spec_fn(Seq<u8>) -> Option<u64>,
    p: Seq<u8>,
    prefix: Seq<u8>,
)
    ensures
        shared_line(s, chain(line, t), shares, p, prefix) == shared_line(
            s,
            t,
            shares,
            p + line,
            prefix + line,
        ),
    decreases line.len(),
{
    if line.len() == 0 {
        assert(prefix + line =~= prefix);
        assert(p + line =~= p);
    } else {
        let c = chain(line, t);
        let b = line[0];
        assert(c.kids.dom() =~= Set::<u8>::empty().insert(b));
        lemma_link(c);
        assert(Set::<u8>::empty().insert(c.link_byte()).contains(b));
        assert(c.kids[b] == chain(line.drop_first(), t));
        lemma_shared_chain(s, line.drop_first(), t, shares, p.push(b), prefix.push(b));
        assert(prefix.push(b) + line.drop_first() =~= prefix + line);
        assert(p.push(b) + line.drop_first() =~= p + line);
    }
}

/// Only the children below `n` matter to the nodes below `n`.
proof fn lemma_shared_kids_agree(
    s: Shelf,
    t: Trie<u64>,
    u: Trie<u64>,
    shares: spec_fn(Seq<u8>) -> Option<u64>,
    p: Seq<u8>,
    fork: bool,
    n: nat,
)
    requires
        n <= 256,
        forall|b: u8|
            b < n ==> #[trigger] t.kids.contains_key(b) == u.kids.contains_key(b) && (
            t.kids.contains_key(b) ==> t.kids[b] == u.kids[b]),
    ensures
        shared_kids(s, t, shares, p, fork, n) == shared_kids(s, u, shares, p, fork, n),
    decreases n,
{
    if n > 0 {
        lemma_shared_kids_agree(s, t, u, shares, p, fork, (n - 1) as nat);
        let b = (n - 1) as u8;
        assert(t.kids.contains_key(b) == u.kids.contains_key(b));
    }
}

/// Bytes that lead nowhere add no nodes.
pub proof fn lemma_shared_kids_gap(
    s: Shelf,
    t: Trie<u64>,
    shares: spec_fn(Seq<u8>) -> Option<u64>,
    p: Seq<u8>,
    fork: bool,
    m: nat,
    n: nat,
)
    requires
        m <= n <= 256,
        forall|b: u8| m <= b < n ==> !#[trigger] t.kids.contains_key(b),
    ensures
        shared_kids(s, t, shares, p, fork, n) == shared_kids(s, t, shares, p, fork, m),
    decreases n,
{
    if m < n {
        lemma_shared_kids_gap(s, t, shares, p, fork, m, (n - 1) as nat);
        assert(!t.kids.contains_key((n - 1) as u8));
    }
}

/// With one more child, behind the others, there is one more node.
pub proof fn lemma_shared_kids_step(
    s: Shelf,
    mask: Set<u8>,
    i: int,
    kids: Map<u8, Trie<u64>>,
    val: Option<u64>,
    kid: Trie<u64>,
    shares: spec_fn(Seq<u8>) -> Option<u64>,
    p: Seq<u8>,
    fork: bool,
)
    requires
        0 <= i < members(mask).len(),
        kids.dom() =~= mask.filter(|b: u8| b < members(mask)[i]),
    ensures
        ({
            let byte = members(mask)[i];
            let next = kids.insert(byte, kid);
            let before = shared_kids(s, Trie { val, kids }, shares, p, fork, 256);
            let (s2, c) = shared_build(before.0, kid, shares, p.push(byte), fork);
            shared_kids(s, Trie { val, kids: next }, shares, p, fork, 256) == (s2, before.1.push(c))
        }),
{
    lemma_members(mask);
    let byte = members(mask)[i];
    let next = kids.insert(byte, kid);
    let t = Trie { val, kids };
    let u = Trie { val, kids: next };
    lemma_shared_kids_gap(s, t, shares, p, fork, byte as nat, 256);
    lemma_shared_kids_agree(s, t, u, shares, p, fork, byte as nat);
    assert(u.kids.contains_key(byte));
    lemma_shared_kids_gap(s, u, shares, p, fork, (byte + 1) as nat, 256);
}

/// No node is kept for a place of `whole` at or below `p`.
spec fn fresh_below(
    s: Shelf,
    whole: Trie<u64>,
    shares: spec_fn(Seq<u8>) -> Option<u64>,
    p: Seq<u8>,
) -> bool {
    forall|q: Seq<u8>| #[trigger]
        begins_with(q, p) && whole.has(q) ==> s.kept(shares(q)) is None
}

/// The place of a number lies at or below `p`.
spec fn numbered_below(
    whole: Trie<u64>,
    shares: spec_fn(Seq<u8>) -> Option<u64>,
    p: Seq<u8>,
    id: u64,
) -> bool {
    exists|q: Seq<u8>| #[trigger] begins_with(q, p) && whole.has(q) && shares(q) == Some(id)
}

/// Nodes have come to be kept only for places at or below `p`.
spec fn keeps_below(
    s: Shelf,
    s2: Shelf,
    whole: Trie<u64>,
    shares: spec_fn(Seq<u8>) -> Option<u64>,
    p: Seq<u8>,
) -> bool {
    forall|id: u64| #[trigger]
        s2.nodes.contains_key(id) ==> s.nodes.contains_key(id) || numbered_below(
            whole,
            shares,
            p,
            id,
        )
}

proof fn lemma_begins_shorter(q: Seq<u8>, p: Seq<u8>, b: u8)
    requires
        begins_with(q, p.push(b)),
    ensures
        begins_with(q, p),
        q[p.len() as int] == b,
{
    let n = p.len() as int;
    assert(q.subrange(0, n + 1)[n] == b);
    assert(q.subrange(0, n) =~= p) by {
        assert forall|i: int| 0 <= i < n implies q[i] == p[i] by {
            assert(q.subrange(0, n + 1)[i] == p.push(b)[i]);
        }
    }
}

/// What is kept for places below a byte more is kept for places below.
proof fn lemma_keeps_shorter(
    s: Shelf,
    s2: Shelf,
    whole: Trie<u64>,
    shares: spec_fn(Seq<u8>) -> Option<u64>,
    p: Seq<u8>,
    b: u8,
)
    requires
        keeps_below(s, s2, whole, shares, p.push(b)),
    ensures
        keeps_below(s, s2, whole, shares, p),
{
    assert forall|id: u64| #[trigger] s2.nodes.contains_key(id) implies s.nodes.contains_key(id)
        || numbered_below(whole, shares, p, id) by {
        if !s.nodes.contains_key(id) {
            assert(numbered_below(whole, shares, p.push(b), id));
            let q = choose|q: Seq<u8>| #[trigger]
                begins_with(q, p.push(b)) && whole.has(q) && shares(q) == Some(id);
            lemma_begins_shorter(q, p, b);
        }
    }
}

/// Where no two places have the same number a trie is written as it is without regard to sharing.
pub proof fn lemma_unshared_layout(t: Trie<u64>, shares: spec_fn(Seq<u8>) -> Option<u64>)
    requires
        unshared(t, shares),
    ensures
        shared_layout(t, shares) == layout(t),
{
    assert(t.at(Seq::empty()) == Some(t));
    lemma_unshared_build(Shelf::start(), t, t, shares, Seq::empty(), false);
}

proof fn lemma_unshared_build(
    s: Shelf,
    whole: Trie<u64>,
    t: Trie<u64>,
    shares: spec_fn(Seq<u8>) -> Option<u64>,
    p: Seq<u8>,
    below_fork: bool,
)
    requires
        unshared(whole, shares),
        whole.at(p) == Some(t),
        fresh_below(s, whole, shares, p),
    ensures
        ({
            let (s2, n) = shared_build(s, t, shares, p, below_fork);
            &&& (s2.arena, n) == build(s.arena, t, Seq::empty())
            &&& keeps_below(s, s2, whole, shares, p)
        }),
    decreases t, 302nat,
{
    assert(p.subrange(0, p.len() as int) =~= p);
    assert(begins_with(p, p));
    let (s1, n) = shared_line(s, t, shares, p, Seq::empty());
    lemma_unshared_line(s, whole, t, shares, p, Seq::empty());
    let s2 = shared_build(s, t, shares, p, below_fork).0;
    assert forall|id: u64| #[trigger] s2.nodes.contains_key(id) implies s.nodes.contains_key(id)
        || numbered_below(whole, shares, p, id) by {
        if !s1.nodes.contains_key(id) {
            assert(shares(p) == Some(id));
        }
    }
}

proof fn lemma_unshared_line(
    s: Shelf,
    whole: Trie<u64>,
    t: Trie<u64>,
    shares: spec_fn(Seq<u8>) -> Option<u64>,
    p: Seq<u8>,
    prefix: Seq<u8>,
)
    requires
        unshared(whole, shares),
        whole.at(p) == Some(t),
        fresh_below(s, whole, shares, p),
    ensures
        ({
            let (s2, n) = shared_line(s, t, shares, p, prefix);
            &&& (s2.arena, n) == build(s.arena, t, prefix)
            &&& keeps_below(s, s2, whole, shares, p)
        }),
    decreases t, 301nat,
{
    if t.is_link() && t.kids.contains_key(t.link_byte()) {
        let b = t.link_byte();
        lemma_at_push(whole, p, b);
        assert forall|q: Seq<u8>| #[trigger]
            begins_with(q, p.push(b)) && whole.has(q) implies s.kept(shares(q)) is None by {
            lemma_begins_shorter(q, p, b);
        }
        lemma_unshared_line(s, whole, t.kids[b], shares, p.push(b), prefix.push(b));
        lemma_keeps_shorter(
            s,
            shared_line(s, t, shares, p, prefix).0,
            whole,
            shares,
            p,
            b,
        );
    } else {
        let mask = t.kids.dom();
        let fork = rank(mask, 256) >= 2;
        assert(p.subrange(0, p.len() as int) =~= p);
        assert(begins_with(p, p));
        lemma_unshared_kids(s, whole, t, shares, p, fork, 256);
        let (s1, ns) = shared_kids(s, t, shares, p, fork, 256);
        lemma_rank_is_len(mask);
        let s2 = shared_line(s, t, shares, p, prefix).0;
        assert forall|id: u64| #[trigger] s2.nodes.contains_key(id) implies s.nodes.contains_key(id)
            || numbered_below(whole, shares, p, id) by {
            if !s1.nodes.contains_key(id) {
                assert(shares(p) == Some(id));
            }
        }
    }
}

proof fn lemma_unshared_kids(
    s: Shelf,
    whole: Trie<u64>,
    t: Trie<u64>,
    shares: spec_fn(Seq<u8>) -> Option<u64>,
    p: Seq<u8>,
    fork: bool,
    n: nat,
)
    requires
        unshared(whole, shares),
        whole.at(p) == Some(t),
        fresh_below(s, whole, shares, p),
        n <= 256,
    ensures
        ({
            let (s2, ns) = shared_kids(s, t, shares, p, fork, n);
            &&& (s2.arena, ns) == build_kids(s.arena, t, n)
            &&& keeps_below(s, s2, whole, shares, p)
            &&& forall|q: Seq<u8>| #[trigger]
                begins_with(q, p) && whole.has(q) && q.len() > p.len() && q[p.len() as int] >= n
                    ==> s2.kept(shares(q)) is None
        }),
    decreases t, n,
{
    if n > 0 {
        let b = (n - 1) as u8;
        lemma_unshared_kids(s, whole, t, shares, p, fork, (n - 1) as nat);
        if t.kids.contains_key(b) {
            let s1 = shared_kids(s, t, shares, p, fork, (n - 1) as nat).0;
            lemma_at_push(whole, p, b);
            assert forall|q: Seq<u8>| #[trigger]
                begins_with(q, p.push(b)) && whole.has(q) implies s1.kept(shares(q)) is None by {
                lemma_begins_shorter(q, p, b);
            }
            lemma_unshared_build(s1, whole, t.kids[b], shares, p.push(b), fork);
            let s2 = shared_build(s1, t.kids[b], shares, p.push(b), fork).0;
            lemma_keeps_shorter(s1, s2, whole, shares, p, b);
            assert forall|q: Seq<u8>| #[trigger]
                begins_with(q, p) && whole.has(q) && q.len() > p.len() && q[p.len() as int]
                    >= n implies s2.kept(shares(q)) is None by {
                if let Some(id) = shares(q) {
                    if s2.nodes.contains_key(id) && !s1.nodes.contains_key(id) {
                        assert(numbered_below(whole, shares, p.push(b), id));
                        let r = choose|r: Seq<u8>| #[trigger]
                            begins_with(r, p.push(b)) && whole.has(r) && shares(r) == Some(id);
                        lemma_begins_shorter(r, p, b);
                        assert(shares(r) == shares(q));
                    }
                }
            }
        }
    }
}

} // verus!

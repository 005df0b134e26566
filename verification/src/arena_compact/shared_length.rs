//! How long the file is in which the shared places are written once.

use vstd::prelude::*;

use crate::arena_compact::layout::{
    build, build_kids, layout, lemma_add_line, lemma_arena_grows, lemma_build_grows,
    lemma_make_node_grows, lemma_with_root_len, push_node, Arena,
};
use crate::arena_compact::line_hash::line_hash;
use crate::arena_compact::meaning::lemma_extends_append;
use crate::arena_compact::node::{
    lemma_line_agree, line_at, line_bytes, node_bytes, NodeView,
};
use crate::arena_compact::shared_layout::{
    shared_build, shared_kids, shared_layout, shared_line, wrapped, Shelf,
};
use crate::arena_compact::varint::{lemma_varint_len, lemma_varint_longer, varint_bytes};
use crate::trie::{lemma_at_push, Trie};
use crate::utils::bits::{lemma_rank_is_len, rank};

verus! {

/// How many places a node refers to: a line to its bytes and perhaps a child, a branch to the first of
/// its children.
pub open spec fn refs_of(n: NodeView) -> nat {
    match n {
        NodeView::Line { child, .. } => if child is Some {
            2
        } else {
            1
        },
        NodeView::Branch { first, .. } => if first is Some {
            1
        } else {
            0
        },
    }
}

/// How many places the nodes refer to.
pub open spec fn refs_of_all(ns: Seq<NodeView>) -> nat
    decreases ns.len(),
{
    if ns.len() == 0 {
        0
    } else {
        refs_of_all(ns.drop_last()) + refs_of(ns.last())
    }
}

/// How many places the nodes refer to that [shared_build] writes.
pub open spec fn refs_build(
    s: Shelf,
    t: Trie<u64>,
    shares: spec_fn(Seq<u8>) -> Option<u64>,
    p: Seq<u8>,
    below_fork: bool,
) -> nat
    decreases t, 302nat,
{
    let addr = if below_fork {
        shares(p)
    } else {
        None
    };
    match s.kept(addr) {
        Some(n) => 0,
        None => refs_line(s, t, shares, p, Seq::empty()),
    }
}

/// How many places the nodes refer to that [shared_line] writes.
pub open spec fn refs_line(
    s: Shelf,
    t: Trie<u64>,
    shares: spec_fn(Seq<u8>) -> Option<u64>,
    p: Seq<u8>,
    prefix: Seq<u8>,
) -> nat
    decreases t, 301nat,
{
    if t.is_link() && t.kids.contains_key(t.link_byte()) {
        let b = t.link_byte();
        refs_line(s, t.kids[b], shares, p.push(b), prefix.push(b))
    } else {
        let mask = t.kids.dom();
        let fork = rank(mask, 256) >= 2;
        let addr = if fork {
            shares(p)
        } else {
            None
        };
        match s.kept(addr) {
            Some(n) => if prefix.len() == 0 {
                0
            } else {
                refs_of(n)
            },
            None => {
                let ns = shared_kids(s, t, shares, p, fork, 256).1;
                refs_kids(s, t, shares, p, fork, 256) + refs_of_all(ns) + if prefix.len() == 0
                    || mask == Set::<u8>::empty() {
                    0nat
                } else {
                    1
                }
            },
        }
    }
}

/// How many places the nodes refer to that [shared_kids] writes.
pub open spec fn refs_kids(
    s: Shelf,
    t: Trie<u64>,
    shares: spec_fn(Seq<u8>) -> Option<u64>,
    p: Seq<u8>,
    fork: bool,
    n: nat,
) -> nat
    decreases t, n,
{
    if n == 0 {
        0
    } else {
        let before = refs_kids(s, t, shares, p, fork, (n - 1) as nat);
        let s1 = shared_kids(s, t, shares, p, fork, (n - 1) as nat).0;
        let b = (n - 1) as u8;
        before + if t.kids.contains_key(b) {
            refs_build(s1, t.kids[b], shares, p.push(b), fork)
        } else {
            0
        }
    }
}

/// How many places all the nodes refer to that the file of [shared_layout] holds.
pub open spec fn references(t: Trie<u64>, shares: spec_fn(Seq<u8>) -> Option<u64>) -> nat {
    refs_build(Shelf::start(), t, shares, Seq::empty(), false) + refs_of(
        shared_build(Shelf::start(), t, shares, Seq::empty(), false).1,
    )
}

/// The node without the places to which it refers.
pub open spec fn shape(n: NodeView) -> NodeView {
    match n {
        NodeView::Line { path, value, child } => NodeView::Line {
            path: 0,
            value,
            child: if child is Some {
                Some(0)
            } else {
                None
            },
        },
        NodeView::Branch { mask, first, value } => NodeView::Branch {
            mask,
            first: if first is Some {
                Some(0)
            } else {
                None
            },
            value,
        },
    }
}

/// The shape of the node for a place below a prefix.
pub open spec fn shape_for(t: Trie<u64>, prefix: Seq<u8>) -> NodeView
    decreases t,
{
    if t.is_link() && t.kids.contains_key(t.link_byte()) {
        shape_for(t.kids[t.link_byte()], prefix.push(t.link_byte()))
    } else {
        end_shape(t, prefix)
    }
}

/// The same for a place that is not gathered in the prefix.
pub open spec fn end_shape(t: Trie<u64>, prefix: Seq<u8>) -> NodeView {
    let mask = t.kids.dom();
    if prefix.len() == 0 {
        NodeView::Branch {
            mask,
            first: if mask == Set::<u8>::empty() {
                None
            } else {
                Some(0)
            },
            value: t.val,
        }
    } else if mask == Set::<u8>::empty() {
        NodeView::Line { path: 0, value: t.val, child: None }
    } else {
        NodeView::Line { path: 0, value: None, child: Some(0) }
    }
}

/// How many bytes a node of the shape takes at least.
pub open spec fn least(n: NodeView) -> nat {
    node_bytes(shape(n), 0).len()
}

/// How many bytes the nodes take at least that [build] writes for a place below a prefix.
pub open spec fn least_build(t: Trie<u64>, prefix: Seq<u8>) -> nat
    decreases t, 300nat,
{
    if t.is_link() && t.kids.contains_key(t.link_byte()) {
        least_build(t.kids[t.link_byte()], prefix.push(t.link_byte()))
    } else {
        least_kids(t, 256) + if prefix.len() == 0 || t.kids.dom() == Set::<u8>::empty() {
            0
        } else {
            least(end_shape(t, Seq::empty()))
        }
    }
}

/// How many bytes the nodes take at least for the children of `t` whose bytes are below `n`, and for
/// what is below them.
pub open spec fn least_kids(t: Trie<u64>, n: nat) -> nat
    decreases t, n,
{
    if n == 0 {
        0
    } else {
        let b = (n - 1) as u8;
        least_kids(t, (n - 1) as nat) + if t.kids.contains_key(b) {
            least_build(t.kids[b], Seq::empty()) + least(shape_for(t.kids[b], Seq::empty()))
        } else {
            0
        }
    }
}

/// How many bytes the nodes would take at least that [shared_build] does not write again.
pub open spec fn spared_build(
    s: Shelf,
    t: Trie<u64>,
    shares: spec_fn(Seq<u8>) -> Option<u64>,
    p: Seq<u8>,
    below_fork: bool,
) -> nat
    decreases t, 302nat,
{
    let addr = if below_fork {
        shares(p)
    } else {
        None
    };
    match s.kept(addr) {
        Some(n) => least_build(t, Seq::empty()),
        None => spared_line(s, t, shares, p, Seq::empty()),
    }
}

/// How many bytes the nodes would take at least that [shared_line] does not write again.
pub open spec fn spared_line(
    s: Shelf,
    t: Trie<u64>,
    shares: spec_fn(Seq<u8>) -> Option<u64>,
    p: Seq<u8>,
    prefix: Seq<u8>,
) -> nat
    decreases t, 301nat,
{
    if t.is_link() && t.kids.contains_key(t.link_byte()) {
        let b = t.link_byte();
        spared_line(s, t.kids[b], shares, p.push(b), prefix.push(b))
    } else {
        let fork = rank(t.kids.dom(), 256) >= 2;
        let addr = if fork {
            shares(p)
        } else {
            None
        };
        match s.kept(addr) {
            Some(n) => least_kids(t, 256),
            None => spared_kids(s, t, shares, p, fork, 256),
        }
    }
}

/// How many bytes the nodes would take at least that [shared_kids] does not write again.
pub open spec fn spared_kids(
    s: Shelf,
    t: Trie<u64>,
    shares: spec_fn(Seq<u8>) -> Option<u64>,
    p: Seq<u8>,
    fork: bool,
    n: nat,
) -> nat
    decreases t, n,
{
    if n == 0 {
        0
    } else {
        let before = spared_kids(s, t, shares, p, fork, (n - 1) as nat);
        let s1 = shared_kids(s, t, shares, p, fork, (n - 1) as nat).0;
        let b = (n - 1) as u8;
        before + if t.kids.contains_key(b) {
            spared_build(s1, t.kids[b], shares, p.push(b), fork)
        } else {
            0
        }
    }
}

/// How many bytes the nodes would take at least, with a byte for each reference, that are not written
/// again for the further occurrences of shared places.
pub open spec fn spared(t: Trie<u64>, shares: spec_fn(Seq<u8>) -> Option<u64>) -> nat {
    spared_build(Shelf::start(), t, shares, Seq::empty(), false)
}

/// Places of the trie that have the same number stand for the same.
pub open spec fn truthful<V>(t: Trie<V>, shares: spec_fn(Seq<u8>) -> Option<u64>) -> bool {
    forall|p: Seq<u8>, q: Seq<u8>|
        #![trigger shares(p), shares(q)]
        shares(p) is Some && shares(p) == shares(q) && t.has(p) && t.has(q) ==> t.at(p) == t.at(q)
}

/// The lines that an arena remembers, by their hashes.
spec fn known(a: Arena) -> Map<u64, Seq<u8>> {
    Map::new(|h: u64| a.lines.contains_key(h), |h: u64| line_at(a.bytes, a.lines[h])->Some_0)
}

/// What it may still cost to remember of the hash what is remembered in `l`.
spec fn owed(k: Map<u64, Seq<u8>>, l: Map<u64, Seq<u8>>, h: u64) -> nat {
    if l.contains_key(h) && !(k.contains_key(h) && k[h] == l[h]) {
        line_bytes(l[h]).len()
    } else {
        0
    }
}

/// The same for all the hashes below `n`.
spec fn debt(k: Map<u64, Seq<u8>>, l: Map<u64, Seq<u8>>, n: nat) -> nat
    decreases n,
{
    if n == 0 {
        0
    } else {
        debt(k, l, (n - 1) as nat) + owed(k, l, (n - 1) as u64)
    }
}

/// Above all hashes.
spec fn all_hashes() -> nat {
    (u64::MAX + 1) as nat
}

/// How far `s` is ahead of `a` in length, with what its lines may still cost.
spec fn lead(s: Arena, a: Arena) -> int {
    s.bytes.len() + debt(known(s), known(a), all_hashes()) - a.bytes.len()
}

/// A single hash is remembered otherwise.
proof fn lemma_debt_changes(
    k: Map<u64, Seq<u8>>,
    l: Map<u64, Seq<u8>>,
    k2: Map<u64, Seq<u8>>,
    l2: Map<u64, Seq<u8>>,
    h: u64,
    n: nat,
)
    requires
        n <= all_hashes(),
        forall|g: u64| g != h ==> #[trigger] owed(k2, l2, g) == owed(k, l, g),
    ensures
        debt(k2, l2, n) - debt(k, l, n) == if h < n {
            owed(k2, l2, h) - owed(k, l, h)
        } else {
            0
        },
    decreases n,
{
    if n > 0 {
        lemma_debt_changes(k, l, k2, l2, h, (n - 1) as nat);
    }
}

proof fn lemma_no_debt(k: Map<u64, Seq<u8>>, n: nat)
    ensures
        debt(k, Map::empty(), n) == 0,
    decreases n,
{
    if n > 0 {
        lemma_no_debt(k, (n - 1) as nat);
    }
}

/// A node that is written leaves the lines as they are.
proof fn lemma_known_push(a: Arena, n: NodeView)
    requires
        a.wf(),
    ensures
        a.push(n).wf(),
        known(a.push(n)) == known(a),
        a.push(n).bytes.len() == a.bytes.len() + node_bytes(n, a.bytes.len()).len(),
{
    let e = a.push(n).bytes;
    lemma_extends_append(a.bytes, node_bytes(n, a.bytes.len()));
    lemma_arena_grows(a, e);
    assert forall|h: u64| #[trigger] a.lines.contains_key(h) implies line_at(e, a.lines[h])
        == line_at(a.bytes, a.lines[h]) by {
        lemma_line_agree(a.bytes, e, a.lines[h]);
    }
    assert(known(a.push(n)) =~= known(a));
}

/// What a line costs.
spec fn line_cost(k: Map<u64, Seq<u8>>, line: Seq<u8>) -> nat {
    let h = line_hash(line);
    if k.contains_key(h) && k[h] == line {
        0
    } else {
        line_bytes(line).len()
    }
}

/// A line that is added is remembered, and costs something where it was not.
proof fn lemma_known_line(a: Arena, line: Seq<u8>)
    requires
        a.wf(),
        line.len() > 0,
        a.add_line(line).0.bytes.len() <= u64::MAX,
    ensures
        a.add_line(line).0.wf(),
        a.add_line(line).1 <= a.add_line(line).0.bytes.len(),
        known(a.add_line(line).0) == known(a).insert(line_hash(line), line),
        a.add_line(line).0.bytes.len() == a.bytes.len() + line_cost(known(a), line),
{
    lemma_add_line(a, line);
    let h = line_hash(line);
    let (b, id) = a.add_line(line);
    assert forall|g: u64| #[trigger] a.lines.contains_key(g) implies line_at(b.bytes, a.lines[g])
        == line_at(a.bytes, a.lines[g]) by {
        lemma_line_agree(a.bytes, b.bytes, a.lines[g]);
    }
    assert(known(b) =~= known(a).insert(h, line));
}

/// A line that both add.
proof fn lemma_line_both(s: Arena, a: Arena, line: Seq<u8>)
    requires
        s.wf(),
        a.wf(),
        line.len() > 0,
        s.add_line(line).0.bytes.len() <= u64::MAX,
        a.add_line(line).0.bytes.len() <= u64::MAX,
    ensures
        lead(s.add_line(line).0, a.add_line(line).0) <= lead(s, a),
{
    lemma_known_line(s, line);
    lemma_known_line(a, line);
    let h = line_hash(line);
    let (k, l) = (known(s), known(a));
    lemma_debt_changes(k, l, k.insert(h, line), l.insert(h, line), h, all_hashes());
}

/// A line that only the second adds.
proof fn lemma_line_behind(s: Arena, a: Arena, line: Seq<u8>)
    requires
        a.wf(),
        line.len() > 0,
        a.add_line(line).0.bytes.len() <= u64::MAX,
    ensures
        lead(s, a.add_line(line).0) <= lead(s, a),
{
    lemma_known_line(a, line);
    let h = line_hash(line);
    let (k, l) = (known(s), known(a));
    lemma_debt_changes(k, l, k, l.insert(h, line), h, all_hashes());
}

proof fn lemma_shape(a: Arena, t: Trie<u64>, prefix: Seq<u8>)
    ensures
        shape(build(a, t, prefix).1) == shape_for(t, prefix),
    decreases t,
{
    if t.is_link() && t.kids.contains_key(t.link_byte()) {
        lemma_shape(a, t.kids[t.link_byte()], prefix.push(t.link_byte()));
    }
}

proof fn lemma_shape_again(n: NodeView)
    ensures
        shape(shape(n)) == shape(n),
{
}

/// A node refers to places no farther back than `limit`.
spec fn refers_within(n: NodeView, limit: nat) -> bool {
    match n {
        NodeView::Line { path, child, .. } => path <= limit && (child matches Some(c) ==> c
            <= limit),
        NodeView::Branch { first, .. } => first matches Some(c) ==> c <= limit,
    }
}

/// How many bytes more than one a reference takes in a file of `limit` bytes.
pub open spec fn extra(limit: nat) -> int {
    varint_bytes(limit as u64).len() - 1
}

/// Nodes of one shape differ in length by what their references take.
proof fn lemma_node_both(n: NodeView, id: nat, m: NodeView, jd: nat, limit: nat)
    requires
        shape(n) == shape(m),
        refers_within(n, id),
        id <= limit <= u64::MAX,
    ensures
        node_bytes(n, id).len() <= node_bytes(m, jd).len() + extra(limit) * refs_of(n),
{
    let e = extra(limit);
    match (n, m) {
        (
            NodeView::Line { path, value, child },
            NodeView::Line { path: path2, child: child2, .. },
        ) => {
            lemma_varint_longer((id - path) as u64, limit as u64);
            lemma_varint_len((jd - path2) as u64);
            if let Some(c) = child {
                lemma_varint_longer((id - c) as u64, limit as u64);
                lemma_varint_len((jd - child2->Some_0) as u64);
            }
        },
        (NodeView::Branch { first, .. }, NodeView::Branch { first: first2, .. }) => {
            if let Some(c) = first {
                lemma_varint_longer((id - c) as u64, limit as u64);
                lemma_varint_len((jd - first2->Some_0) as u64);
            }
        },
        _ => {},
    }
}

/// Nodes that both write.
proof fn lemma_nodes_both(s: Arena, a: Arena, ns: Seq<NodeView>, ms: Seq<NodeView>, limit: nat)
    requires
        s.wf(),
        a.wf(),
        ns.len() == ms.len(),
        forall|i: int|
            0 <= i < ns.len() ==> shape(#[trigger] ns[i]) == shape(ms[i]) && refers_within(
                ns[i],
                s.bytes.len(),
            ),
        s.push_all(ns).bytes.len() <= limit <= u64::MAX,
    ensures
        s.push_all(ns).wf(),
        a.push_all(ms).wf(),
        s.bytes.len() <= s.push_all(ns).bytes.len(),
        lead(s.push_all(ns), a.push_all(ms)) <= lead(s, a) + extra(limit) * refs_of_all(ns),
    decreases ns.len(),
{
    if ns.len() > 0 {
        let (s1, a1) = (s.push_all(ns.drop_last()), a.push_all(ms.drop_last()));
        let (n, m) = (ns.last(), ms.last());
        assert(s.push_all(ns) == s1.push(n));
        assert(a.push_all(ms) == a1.push(m));
        assert forall|i: int| 0 <= i < ns.drop_last().len() implies shape(
            #[trigger] ns.drop_last()[i],
        ) == shape(ms.drop_last()[i]) && refers_within(ns.drop_last()[i], s.bytes.len()) by {
            assert(shape(ns[i]) == shape(ms[i]));
        }
        lemma_nodes_both(s, a, ns.drop_last(), ms.drop_last(), limit);
        assert(shape(ns[ns.len() - 1]) == shape(ms[ns.len() - 1]));
        lemma_node_pushed(s1, a1, n, m, limit);
        let e = extra(limit);
        let (x, y) = (refs_of_all(ns.drop_last()) as int, refs_of(n) as int);
        assert(e * (x + y) == e * x + e * y) by (nonlinear_arith);
    } else {
        assert(extra(limit) * refs_of_all(ns) == 0) by (nonlinear_arith)
            requires
                refs_of_all(ns) == 0,
        ;
    }
}

/// A node that both write.
proof fn lemma_node_pushed(s: Arena, a: Arena, n: NodeView, m: NodeView, limit: nat)
    requires
        s.wf(),
        a.wf(),
        shape(n) == shape(m),
        refers_within(n, s.bytes.len()),
        s.push(n).bytes.len() <= limit <= u64::MAX,
    ensures
        s.push(n).wf(),
        a.push(m).wf(),
        s.bytes.len() <= s.push(n).bytes.len(),
        lead(s.push(n), a.push(m)) <= lead(s, a) + extra(limit) * refs_of(n),
{
    lemma_known_push(s, n);
    lemma_known_push(a, m);
    lemma_node_both(n, s.bytes.len(), m, a.bytes.len(), limit);
}

/// No node takes fewer bytes.
proof fn lemma_least(n: NodeView, id: nat)
    ensures
        least(n) <= node_bytes(n, id).len(),
{
    lemma_varint_len(0);
    match n {
        NodeView::Line { path, child, .. } => {
            lemma_varint_len((id - path) as u64);
            if let Some(c) = child {
                lemma_varint_len((id - c) as u64);
            }
        },
        NodeView::Branch { first, .. } => {
            if let Some(c) = first {
                lemma_varint_len((id - c) as u64);
            }
        },
    }
}

/// How many bytes the nodes take at least.
spec fn least_of_all(ns: Seq<NodeView>) -> nat
    decreases ns.len(),
{
    if ns.len() == 0 {
        0
    } else {
        least_of_all(ns.drop_last()) + least(ns.last())
    }
}

/// Nodes that only the second writes.
proof fn lemma_nodes_behind(s: Arena, a: Arena, ms: Seq<NodeView>)
    requires
        a.wf(),
    ensures
        a.push_all(ms).wf(),
        lead(s, a.push_all(ms)) + least_of_all(ms) <= lead(s, a),
    decreases ms.len(),
{
    if ms.len() > 0 {
        let a1 = a.push_all(ms.drop_last());
        lemma_nodes_behind(s, a, ms.drop_last());
        assert(a.push_all(ms) == a1.push(ms.last()));
        lemma_known_push(a1, ms.last());
        lemma_least(ms.last(), a1.bytes.len());
    }
}

/// What only the second builds.
proof fn lemma_build_behind(s: Arena, a: Arena, t: Trie<u64>, prefix: Seq<u8>)
    requires
        a.wf(),
        build(a, t, prefix).0.bytes.len() <= u64::MAX,
    ensures
        build(a, t, prefix).0.wf(),
        lead(s, build(a, t, prefix).0) + least_build(t, prefix) <= lead(s, a),
    decreases t, 300nat,
{
    if t.is_link() && t.kids.contains_key(t.link_byte()) {
        lemma_build_behind(s, a, t.kids[t.link_byte()], prefix.push(t.link_byte()));
    } else {
        let (a1, ms) = build_kids(a, t, 256);
        let mask = t.kids.dom();
        lemma_make_node_grows(a1, mask, ms, prefix, t.val);
        lemma_kids_behind(s, a, t, 256);
        let a2 = a1.push_all(ms);
        lemma_nodes_behind(s, a1, ms);
        if prefix.len() > 0 {
            lemma_line_behind(s, a2, prefix);
            lemma_known_line(a2, prefix);
            let a3 = a2.add_line(prefix).0;
            if mask != Set::<u8>::empty() {
                let branch = NodeView::Branch {
                    mask,
                    first: Some(a1.bytes.len()),
                    value: t.val,
                };
                lemma_known_push(a3, branch);
                lemma_least(branch, a3.bytes.len());
                assert(shape(end_shape(t, Seq::empty())) == shape(branch));
            }
        }
    }
}

proof fn lemma_kids_behind(s: Arena, a: Arena, t: Trie<u64>, n: nat)
    requires
        a.wf(),
        build_kids(a, t, n).0.bytes.len() <= u64::MAX,
    ensures
        build_kids(a, t, n).0.wf(),
        lead(s, build_kids(a, t, n).0) + least_kids(t, n) <= lead(s, a) + least_of_all(
            build_kids(a, t, n).1,
        ),
    decreases t, n,
{
    if n > 0 {
        let a1 = build_kids(a, t, (n - 1) as nat).0;
        let b = (n - 1) as u8;
        if t.kids.contains_key(b) {
            lemma_build_grows(a1, t.kids[b], Seq::empty());
            lemma_kids_behind(s, a, t, (n - 1) as nat);
            lemma_build_behind(s, a1, t.kids[b], Seq::empty());
            let (ms, c) = (
                build_kids(a, t, (n - 1) as nat).1,
                build(a1, t.kids[b], Seq::empty()).1,
            );
            assert(ms.push(c).drop_last() =~= ms);
            lemma_shape(a1, t.kids[b], Seq::empty());
            lemma_shape_again(c);
        } else {
            lemma_kids_behind(s, a, t, (n - 1) as nat);
        }
    }
}

/// Building only adds to the arena.
proof fn lemma_shared_build_grows(
    s: Shelf,
    t: Trie<u64>,
    shares: spec_fn(Seq<u8>) -> Option<u64>,
    p: Seq<u8>,
    below_fork: bool,
)
    ensures
        s.arena.bytes.len() <= shared_build(s, t, shares, p, below_fork).0.arena.bytes.len(),
    decreases t, 302nat,
{
    lemma_shared_line_grows(s, t, shares, p, Seq::empty());
}

proof fn lemma_shared_line_grows(
    s: Shelf,
    t: Trie<u64>,
    shares: spec_fn(Seq<u8>) -> Option<u64>,
    p: Seq<u8>,
    prefix: Seq<u8>,
)
    ensures
        s.arena.bytes.len() <= shared_line(s, t, shares, p, prefix).0.arena.bytes.len(),
    decreases t, 301nat,
{
    if t.is_link() && t.kids.contains_key(t.link_byte()) {
        let b = t.link_byte();
        lemma_shared_line_grows(s, t.kids[b], shares, p.push(b), prefix.push(b));
    } else {
        let mask = t.kids.dom();
        let fork = rank(mask, 256) >= 2;
        lemma_shared_kids_grows(s, t, shares, p, fork, 256);
        let (s1, ns) = shared_kids(s, t, shares, p, fork, 256);
        lemma_make_node_grows(s1.arena, mask, ns, prefix, t.val);
        lemma_make_node_grows(s1.arena, mask, ns, Seq::empty(), t.val);
    }
}

proof fn lemma_shared_kids_grows(
    s: Shelf,
    t: Trie<u64>,
    shares: spec_fn(Seq<u8>) -> Option<u64>,
    p: Seq<u8>,
    fork: bool,
    n: nat,
)
    ensures
        s.arena.bytes.len() <= shared_kids(s, t, shares, p, fork, n).0.arena.bytes.len(),
    decreases t, n,
{
    if n > 0 {
        let s1 = shared_kids(s, t, shares, p, fork, (n - 1) as nat).0;
        let b = (n - 1) as u8;
        lemma_shared_kids_grows(s, t, shares, p, fork, (n - 1) as nat);
        if t.kids.contains_key(b) {
            lemma_shared_build_grows(s1, t.kids[b], shares, p.push(b), fork);
        }
    }
}

/// The nodes that are kept refer to what is there, and have the shape of the places whose number they
/// are kept for.
spec fn shelf_ok(s: Shelf, whole: Trie<u64>, shares: spec_fn(Seq<u8>) -> Option<u64>) -> bool {
    &&& s.arena.wf()
    &&& forall|id: u64| #[trigger]
        s.nodes.contains_key(id) ==> refers_within(s.nodes[id], s.arena.bytes.len())
    &&& forall|q: Seq<u8>|
        #![trigger shares(q)]
        whole.has(q) ==> (s.kept(shares(q)) matches Some(n) ==> shape(n) == shape_for(
            whole.at(q)->Some_0,
            Seq::empty(),
        ))
}

/// From `s` and `a` the two have come to `s2` and `a2`. Nodes with `refs` references were written in
/// the first, and `spare` bytes only in the second.
spec fn stepped(
    s: Shelf,
    a: Arena,
    s2: Shelf,
    a2: Arena,
    whole: Trie<u64>,
    shares: spec_fn(Seq<u8>) -> Option<u64>,
    refs: nat,
    spare: nat,
    limit: nat,
) -> bool {
    &&& shelf_ok(s2, whole, shares)
    &&& a2.wf()
    &&& s.arena.bytes.len() <= s2.arena.bytes.len()
    &&& lead(s2.arena, a2) + spare <= lead(s.arena, a) + extra(limit) * refs
}

proof fn lemma_stepped_trans(
    s: Shelf,
    a: Arena,
    s1: Shelf,
    a1: Arena,
    s2: Shelf,
    a2: Arena,
    whole: Trie<u64>,
    shares: spec_fn(Seq<u8>) -> Option<u64>,
    r1: nat,
    r2: nat,
    x1: nat,
    x2: nat,
    limit: nat,
)
    requires
        stepped(s, a, s1, a1, whole, shares, r1, x1, limit),
        stepped(s1, a1, s2, a2, whole, shares, r2, x2, limit),
    ensures
        stepped(s, a, s2, a2, whole, shares, r1 + r2, x1 + x2, limit),
{
    let e = extra(limit);
    assert(e * (r1 + r2) == e * r1 + e * r2) by (nonlinear_arith);
}

proof fn lemma_stepped_none(
    s: Shelf,
    a: Arena,
    a2: Arena,
    whole: Trie<u64>,
    shares: spec_fn(Seq<u8>) -> Option<u64>,
    spare: nat,
    limit: nat,
)
    requires
        shelf_ok(s, whole, shares),
        a2.wf(),
        lead(s.arena, a2) + spare <= lead(s.arena, a),
    ensures
        stepped(s, a, s, a2, whole, shares, 0, spare, limit),
{
    assert(extra(limit) * 0 == 0) by (nonlinear_arith);
}

/// What refers to what is there goes on to do so.
proof fn lemma_shelf_grows(
    s: Shelf,
    arena: Arena,
    whole: Trie<u64>,
    shares: spec_fn(Seq<u8>) -> Option<u64>,
)
    requires
        shelf_ok(s, whole, shares),
        arena.wf(),
        s.arena.bytes.len() <= arena.bytes.len(),
    ensures
        shelf_ok(s.with_arena(arena), whole, shares),
{
    let s2 = s.with_arena(arena);
    assert forall|q: Seq<u8>|
        #![trigger shares(q)]
        whole.has(q) implies (s2.kept(shares(q)) matches Some(n) ==> shape(n) == shape_for(
        whole.at(q)->Some_0,
        Seq::empty(),
    )) by {
        assert(s2.kept(shares(q)) == s.kept(shares(q)));
    }
}

/// A node is kept for the number of a place.
proof fn lemma_shelf_keeps(
    s: Shelf,
    n: NodeView,
    whole: Trie<u64>,
    shares: spec_fn(Seq<u8>) -> Option<u64>,
    p: Seq<u8>,
    addr: Option<u64>,
)
    requires
        shelf_ok(s, whole, shares),
        truthful(whole, shares),
        whole.has(p),
        addr is Some ==> addr == shares(p),
        refers_within(n, s.arena.bytes.len()),
        shape(n) == shape_for(whole.at(p)->Some_0, Seq::empty()),
    ensures
        shelf_ok(s.keep(addr, n), whole, shares),
{
    let s2 = s.keep(addr, n);
    assert forall|q: Seq<u8>|
        #![trigger shares(q)]
        whole.has(q) implies (s2.kept(shares(q)) matches Some(m) ==> shape(m) == shape_for(
        whole.at(q)->Some_0,
        Seq::empty(),
    )) by {
        if addr is Some && shares(q) == addr {
            assert(shares(p) == shares(q));
        } else {
            assert(s2.kept(shares(q)) == s.kept(shares(q)));
        }
    }
}

proof fn lemma_build_both(
    s: Shelf,
    a: Arena,
    whole: Trie<u64>,
    t: Trie<u64>,
    shares: spec_fn(Seq<u8>) -> Option<u64>,
    p: Seq<u8>,
    below_fork: bool,
    limit: nat,
)
    requires
        truthful(whole, shares),
        whole.at(p) == Some(t),
        shelf_ok(s, whole, shares),
        a.wf(),
        shared_build(s, t, shares, p, below_fork).0.arena.bytes.len() <= limit <= u64::MAX,
        build(a, t, Seq::empty()).0.bytes.len() <= u64::MAX,
    ensures
        ({
            let (s2, n) = shared_build(s, t, shares, p, below_fork);
            let (a2, m) = build(a, t, Seq::empty());
            &&& stepped(
                s,
                a,
                s2,
                a2,
                whole,
                shares,
                refs_build(s, t, shares, p, below_fork),
                spared_build(s, t, shares, p, below_fork),
                limit,
            )
            &&& shape(n) == shape_for(t, Seq::empty())
            &&& shape(m) == shape(n)
            &&& refers_within(n, s2.arena.bytes.len())
        }),
    decreases t, 302nat,
{
    let addr = if below_fork {
        shares(p)
    } else {
        None
    };
    lemma_shape(a, t, Seq::empty());
    match s.kept(addr) {
        Some(n) => {
            assert(whole.has(p));
            assert(s.kept(shares(p)) == Some(n));
            lemma_build_behind(s.arena, a, t, Seq::empty());
            let spare = least_build(t, Seq::empty());
            lemma_stepped_none(s, a, build(a, t, Seq::empty()).0, whole, shares, spare, limit);
        },
        None => {
            let (s1, n) = shared_line(s, t, shares, p, Seq::empty());
            lemma_line_and_below(s, a, whole, t, shares, p, Seq::empty(), limit);
            lemma_shelf_keeps(s1, n, whole, shares, p, addr);
        },
    }
}

proof fn lemma_line_and_below(
    s: Shelf,
    a: Arena,
    whole: Trie<u64>,
    t: Trie<u64>,
    shares: spec_fn(Seq<u8>) -> Option<u64>,
    p: Seq<u8>,
    prefix: Seq<u8>,
    limit: nat,
)
    requires
        truthful(whole, shares),
        whole.at(p) == Some(t),
        shelf_ok(s, whole, shares),
        a.wf(),
        shared_line(s, t, shares, p, prefix).0.arena.bytes.len() <= limit <= u64::MAX,
        build(a, t, prefix).0.bytes.len() <= u64::MAX,
    ensures
        ({
            let (s2, n) = shared_line(s, t, shares, p, prefix);
            let (a2, m) = build(a, t, prefix);
            &&& stepped(
                s,
                a,
                s2,
                a2,
                whole,
                shares,
                refs_line(s, t, shares, p, prefix),
                spared_line(s, t, shares, p, prefix),
                limit,
            )
            &&& shape(n) == shape_for(t, prefix)
            &&& refers_within(n, s2.arena.bytes.len())
        }),
    decreases t, 301nat,
{
    if t.is_link() && t.kids.contains_key(t.link_byte()) {
        let b = t.link_byte();
        lemma_at_push(whole, p, b);
        lemma_line_and_below(s, a, whole, t.kids[b], shares, p.push(b), prefix.push(b), limit);
    } else {
        let mask = t.kids.dom();
        let fork = rank(mask, 256) >= 2;
        let addr = if fork {
            shares(p)
        } else {
            None
        };
        let (a1, ms) = build_kids(a, t, 256);
        lemma_make_node_grows(a1, mask, ms, prefix, t.val);
        assert(shape_for(t, Seq::empty()) == end_shape(t, Seq::empty()));
        match s.kept(addr) {
            Some(n) => {
                assert(s.kept(shares(p)) == Some(n));
                lemma_kids_behind(s.arena, a, t, 256);
                lemma_nodes_behind(s.arena, a1, ms);
                let spare = least_kids(t, 256);
                lemma_stepped_none(s, a, a1.push_all(ms), whole, shares, spare, limit);
                lemma_rank_is_len(mask);
                assert(mask != Set::<u8>::empty());
                lemma_wrapped_both(
                    s,
                    a1.push_all(ms),
                    n,
                    whole,
                    t,
                    shares,
                    a1.bytes.len(),
                    prefix,
                    limit,
                );
                let after = build(a, t, prefix).0;
                let refs = refs_line(s, t, shares, p, prefix);
                lemma_stepped_trans(
                    s,
                    a,
                    s,
                    a1.push_all(ms),
                    wrapped(s, n, prefix).0,
                    after,
                    whole,
                    shares,
                    0,
                    refs,
                    spare,
                    0,
                    limit,
                );
            },
            None => {
                lemma_end_both(s, a, whole, t, shares, p, prefix, limit);
            },
        }
    }
}

/// The node of a place that is written, with all that is below it.
proof fn lemma_end_both(
    s: Shelf,
    a: Arena,
    whole: Trie<u64>,
    t: Trie<u64>,
    shares: spec_fn(Seq<u8>) -> Option<u64>,
    p: Seq<u8>,
    prefix: Seq<u8>,
    limit: nat,
)
    requires
        truthful(whole, shares),
        whole.at(p) == Some(t),
        shelf_ok(s, whole, shares),
        a.wf(),
        shared_line(s, t, shares, p, prefix).0.arena.bytes.len() <= limit <= u64::MAX,
        build(a, t, prefix).0.bytes.len() <= u64::MAX,
        !(t.is_link() && t.kids.contains_key(t.link_byte())),
        rank(t.kids.dom(), 256) >= 2 ==> s.kept(shares(p)) is None,
    ensures
        ({
            let (s2, n) = shared_line(s, t, shares, p, prefix);
            &&& stepped(
                s,
                a,
                s2,
                build(a, t, prefix).0,
                whole,
                shares,
                refs_line(s, t, shares, p, prefix),
                spared_line(s, t, shares, p, prefix),
                limit,
            )
            &&& shape(n) == end_shape(t, prefix)
            &&& refers_within(n, s2.arena.bytes.len())
        }),
    decreases t, 300nat,
{
    let mask = t.kids.dom();
    let fork = rank(mask, 256) >= 2;
    let addr = if fork {
        shares(p)
    } else {
        None
    };
    lemma_rank_is_len(mask);
    assert(s.kept(addr) is None);
    assert(shape_for(t, Seq::empty()) == end_shape(t, Seq::empty()));
    let (a1, ms) = build_kids(a, t, 256);
    let (s1, ns) = shared_kids(s, t, shares, p, fork, 256);
    lemma_make_node_grows(a1, mask, ms, prefix, t.val);
    lemma_make_node_grows(s1.arena, mask, ns, prefix, t.val);
    lemma_make_node_grows(s1.arena, mask, ns, Seq::empty(), t.val);
    let e2 = s1.arena.push_all(ns);
    let a2 = a1.push_all(ms);
    lemma_kids_both(s, a, whole, t, shares, p, fork, 256, limit);
    lemma_nodes_both(s1.arena, a1, ns, ms, limit);
    lemma_shelf_grows(s1, e2, whole, shares);
    let s2 = s1.with_arena(e2);
    let below = refs_kids(s, t, shares, p, fork, 256);
    let spare = spared_kids(s, t, shares, p, fork, 256);
    let at = refs_of_all(ns);
    lemma_stepped_trans(s, a, s1, a1, s2, a2, whole, shares, below, at, spare, 0, limit);
    let first = if mask == Set::<u8>::empty() {
        None
    } else {
        Some(s1.arena.bytes.len())
    };
    let branch = NodeView::Branch { mask, first, value: t.val };
    lemma_shelf_keeps(s2, branch, whole, shares, p, addr);
    let s3 = s2.keep(addr, branch);
    let refs = below + refs_of_all(ns);
    assert(stepped(s, a, s3, a2, whole, shares, refs, spare, limit));
    if prefix.len() > 0 {
        if mask == Set::<u8>::empty() {
            lemma_line_both(s3.arena, a2, prefix);
            lemma_known_line(s3.arena, prefix);
            lemma_known_line(a2, prefix);
            lemma_shelf_grows(s3, s3.arena.add_line(prefix).0, whole, shares);
        } else {
            let after = a2.add_line(prefix).0.push(
                NodeView::Branch { mask, first: Some(a1.bytes.len()), value: t.val },
            );
            assert(after == build(a, t, prefix).0);
            let s4 = wrapped(s3, branch, prefix).0;
            assert(s4 == shared_line(s, t, shares, p, prefix).0);
            lemma_wrapped_both(s3, a2, branch, whole, t, shares, a1.bytes.len(), prefix, limit);
            lemma_stepped_trans(s, a, s3, a2, s4, after, whole, shares, refs, 1, spare, 0, limit);
        }
    }
}

/// A line to a node of which both write a copy.
proof fn lemma_wrapped_both(
    s: Shelf,
    a: Arena,
    n: NodeView,
    whole: Trie<u64>,
    t: Trie<u64>,
    shares: spec_fn(Seq<u8>) -> Option<u64>,
    first: nat,
    prefix: Seq<u8>,
    limit: nat,
)
    requires
        shelf_ok(s, whole, shares),
        a.wf(),
        t.kids.dom() != Set::<u8>::empty(),
        shape(n) == end_shape(t, Seq::empty()),
        refers_within(n, s.arena.bytes.len()),
        wrapped(s, n, prefix).0.arena.bytes.len() <= limit <= u64::MAX,
        prefix.len() > 0 ==> a.add_line(prefix).0.bytes.len() <= u64::MAX,
    ensures
        ({
            let m = NodeView::Branch { mask: t.kids.dom(), first: Some(first), value: t.val };
            let (s2, r) = wrapped(s, n, prefix);
            let a2 = if prefix.len() == 0 {
                a
            } else {
                a.add_line(prefix).0.push(m)
            };
            let refs = if prefix.len() == 0 {
                0
            } else {
                refs_of(n)
            };
            &&& stepped(s, a, s2, a2, whole, shares, refs, 0, limit)
            &&& shape(r) == end_shape(t, prefix)
            &&& refers_within(r, s2.arena.bytes.len())
        }),
{
    if prefix.len() == 0 {
        lemma_stepped_none(s, a, a, whole, shares, 0, limit);
    } else {
        let m = NodeView::Branch { mask: t.kids.dom(), first: Some(first), value: t.val };
        lemma_line_both(s.arena, a, prefix);
        lemma_known_line(s.arena, prefix);
        lemma_known_line(a, prefix);
        let s1 = s.arena.add_line(prefix).0;
        lemma_node_pushed(s1, a.add_line(prefix).0, n, m, limit);
        lemma_shelf_grows(s, s1.push(n), whole, shares);
    }
}

proof fn lemma_kids_both(
    s: Shelf,
    a: Arena,
    whole: Trie<u64>,
    t: Trie<u64>,
    shares: spec_fn(Seq<u8>) -> Option<u64>,
    p: Seq<u8>,
    fork: bool,
    n: nat,
    limit: nat,
)
    requires
        n <= 256,
        truthful(whole, shares),
        whole.at(p) == Some(t),
        shelf_ok(s, whole, shares),
        a.wf(),
        shared_kids(s, t, shares, p, fork, n).0.arena.bytes.len() <= limit <= u64::MAX,
        build_kids(a, t, n).0.bytes.len() <= u64::MAX,
    ensures
        ({
            let (s2, ns) = shared_kids(s, t, shares, p, fork, n);
            let (a2, ms) = build_kids(a, t, n);
            &&& stepped(
                s,
                a,
                s2,
                a2,
                whole,
                shares,
                refs_kids(s, t, shares, p, fork, n),
                spared_kids(s, t, shares, p, fork, n),
                limit,
            )
            &&& ns.len() == ms.len()
            &&& forall|i: int|
                0 <= i < ns.len() ==> shape(#[trigger] ns[i]) == shape(ms[i]) && refers_within(
                    ns[i],
                    s2.arena.bytes.len(),
                )
        }),
    decreases t, n,
{
    if n > 0 {
        let b = (n - 1) as u8;
        let (s1, ns) = shared_kids(s, t, shares, p, fork, (n - 1) as nat);
        let (a1, ms) = build_kids(a, t, (n - 1) as nat);
        if t.kids.contains_key(b) {
            lemma_shared_build_grows(s1, t.kids[b], shares, p.push(b), fork);
            lemma_build_grows(a1, t.kids[b], Seq::empty());
            lemma_kids_both(s, a, whole, t, shares, p, fork, (n - 1) as nat, limit);
            lemma_at_push(whole, p, b);
            lemma_build_both(s1, a1, whole, t.kids[b], shares, p.push(b), fork, limit);
            let (s2, c) = shared_build(s1, t.kids[b], shares, p.push(b), fork);
            let (a2, d) = build(a1, t.kids[b], Seq::empty());
            lemma_stepped_trans(
                s,
                a,
                s1,
                a1,
                s2,
                a2,
                whole,
                shares,
                refs_kids(s, t, shares, p, fork, (n - 1) as nat),
                refs_build(s1, t.kids[b], shares, p.push(b), fork),
                spared_kids(s, t, shares, p, fork, (n - 1) as nat),
                spared_build(s1, t.kids[b], shares, p.push(b), fork),
                limit,
            );
            assert forall|i: int| 0 <= i < ns.push(c).len() implies shape(
                #[trigger] ns.push(c)[i],
            ) == shape(ms.push(d)[i]) && refers_within(ns.push(c)[i], s2.arena.bytes.len()) by {
                if i < ns.len() {
                    assert(shape(ns[i]) == shape(ms[i]));
                }
            }
        } else {
            lemma_kids_both(s, a, whole, t, shares, p, fork, (n - 1) as nat, limit);
        }
    } else {
        lemma_stepped_none(s, a, a, whole, shares, 0, limit);
    }
}

/// The file in which the shared places are written once is shorter by what it does not write again, up
/// to what its references take besides a byte for each.
pub proof fn lemma_shared_length(t: Trie<u64>, shares: spec_fn(Seq<u8>) -> Option<u64>)
    requires
        truthful(t, shares),
        layout(t).len() <= u64::MAX,
        shared_layout(t, shares).len() <= u64::MAX,
    ensures
        shared_layout(t, shares).len() + spared(t, shares) <= layout(t).len() + extra(
            shared_layout(t, shares).len(),
        ) * references(t, shares),
{
    let s = Shelf::start();
    let a = Arena::start();
    let (s2, n) = shared_build(s, t, shares, Seq::empty(), false);
    let (a2, m) = build(a, t, Seq::empty());
    let limit = shared_layout(t, shares).len();
    assert(t.at(Seq::empty()) == Some(t));
    lemma_shared_build_grows(s, t, shares, Seq::empty(), false);
    lemma_build_grows(a, t, Seq::empty());
    lemma_with_root_len(push_node(s2.arena.bytes, n), s2.arena.bytes.len());
    lemma_with_root_len(push_node(a2.bytes, m), a2.bytes.len());
    lemma_build_both(s, a, t, t, shares, Seq::empty(), false, limit);
    lemma_node_pushed(s2.arena, a2, n, m, limit);
    assert(known(a) =~= Map::empty());
    lemma_no_debt(known(s.arena), all_hashes());
    let e = extra(limit);
    let (x, y) = (refs_build(s, t, shares, Seq::empty(), false), refs_of(n));
    assert(e * (x + y) == e * x + e * y) by (nonlinear_arith);
}

} // verus!

//! Where each part of a trie goes in the arena.

use vstd::prelude::*;

use crate::arena_compact::line_hash::line_hash;
use crate::arena_compact::meaning::{
    child_place, extends, id_trie, id_wf, lemma_extends_append, lemma_extends_trans,
    lemma_id_stable, lemma_node_later, lemma_node_stable, node_trie, node_wf, sibling, ARENA_START,
};
use crate::arena_compact::node::{
    lemma_line_round_trip, lemma_node_round_trip, line_at, line_bytes, node_at, node_bytes,
    NodeView,
};
use crate::arena_compact::varint::{le_bytes, stands_at};
use crate::trie::{chain, lemma_chain_concat, lemma_link, Trie};
use crate::utils::bits::{lemma_members, lemma_rank_is_len, members, rank};

verus! {

/// The first bytes of every file.
pub open spec fn magic() -> Seq<u8> {
    seq![0x41u8, 0x43, 0x54, 0x72, 0x65, 0x65, 0x30, 0x33]
}

pub open spec fn zeros(n: nat) -> Seq<u8> {
    Seq::new(n, |i: int| 0u8)
}

/// An arena that is being written: its bytes, and for hashes of lines where such a line is.
pub struct Arena {
    pub bytes: Seq<u8>,
    pub lines: Map<u64, nat>,
}

impl Arena {
    /// All the lines that are remembered are there.
    pub open spec fn wf(self) -> bool {
        &&& ARENA_START <= self.bytes.len()
        &&& forall|h: u64| #[trigger]
            self.lines.contains_key(h) ==> ARENA_START <= self.lines[h] < self.bytes.len()
                && line_at(self.bytes, self.lines[h]) is Some
    }

    /// An arena with nothing in it yet.
    pub open spec fn start() -> Arena {
        Arena { bytes: magic() + zeros(8), lines: Map::empty() }
    }

    /// The place of `line`: where one with its hash is remembered and has its bytes, there;
    /// otherwise at the end, to which the line is added.
    pub open spec fn add_line(self, line: Seq<u8>) -> (Arena, nat) {
        let h = line_hash(line);
        if self.lines.contains_key(h) && line_at(self.bytes, self.lines[h]) == Some(line) {
            (self, self.lines[h])
        } else {
            (
                Arena {
                    bytes: self.bytes + line_bytes(line),
                    lines: self.lines.insert(h, self.bytes.len()),
                },
                self.bytes.len(),
            )
        }
    }

    pub open spec fn push(self, n: NodeView) -> Arena {
        Arena { bytes: push_node(self.bytes, n), lines: self.lines }
    }

    pub open spec fn push_all(self, ns: Seq<NodeView>) -> Arena {
        Arena { bytes: push_nodes(self.bytes, ns), lines: self.lines }
    }
}

/// `e` begins with `d`.
pub open spec fn is_prefix(d: Seq<u8>, e: Seq<u8>) -> bool {
    d.len() <= e.len() && forall|i: int| 0 <= i < d.len() ==> #[trigger] d[i] == e[i]
}

pub proof fn lemma_prefix_trans(d: Seq<u8>, e: Seq<u8>, f: Seq<u8>)
    requires
        is_prefix(d, e),
        is_prefix(e, f),
    ensures
        is_prefix(d, f),
{
    assert forall|i: int| 0 <= i < d.len() implies #[trigger] d[i] == f[i] by {
        assert(d[i] == e[i]);
        assert(e[i] == f[i]);
    }
}

/// The bytes with one more node at the end.
pub open spec fn push_node(d: Seq<u8>, n: NodeView) -> Seq<u8> {
    d + node_bytes(n, d.len())
}

/// The bytes with more nodes at the end, one behind the other.
pub open spec fn push_nodes(d: Seq<u8>, ns: Seq<NodeView>) -> Seq<u8>
    decreases ns.len(),
{
    if ns.len() == 0 {
        d
    } else {
        push_node(push_nodes(d, ns.drop_last()), ns.last())
    }
}

/// The node for a place below the bytes of `prefix`: its children go to the end of the arena one
/// behind the other, then the line, then the branch where the line goes on to one.
pub open spec fn make_node(
    a: Arena,
    mask: Set<u8>,
    children: Seq<NodeView>,
    prefix: Seq<u8>,
    value: Option<u64>,
) -> (Arena, NodeView) {
    let first = if mask == Set::<u8>::empty() {
        None
    } else {
        Some(a.bytes.len())
    };
    let a1 = a.push_all(children);
    let branch = NodeView::Branch { mask, first, value };
    if prefix.len() == 0 {
        (a1, branch)
    } else {
        let (a2, path) = a1.add_line(prefix);
        if mask == Set::<u8>::empty() {
            (a2, NodeView::Line { path, value, child: None })
        } else {
            (
                a2.push(branch),
                NodeView::Line { path, value: None, child: Some(a2.bytes.len()) },
            )
        }
    }
}

/// The node that leads through the bytes of `prefix` to `n`. A branch without children becomes the
/// end of the line; every other node is written behind it.
pub open spec fn behind_line(a: Arena, n: NodeView, prefix: Seq<u8>) -> (Arena, NodeView) {
    let (a1, path) = a.add_line(prefix);
    match n {
        NodeView::Branch { mask, value, .. } if mask == Set::<u8>::empty() => (
            a1,
            NodeView::Line { path, value, child: None },
        ),
        _ => (a1.push(n), NodeView::Line { path, value: None, child: Some(a1.bytes.len()) }),
    }
}

/// The node for `t` below the bytes of `prefix`, and the arena with all that it refers to.
///
/// Bytes without a choice and without a value are gathered in the prefix. The children of a
/// place are written, with all that is below them, in ascending order of their bytes.
pub open spec fn build(a: Arena, t: Trie<u64>, prefix: Seq<u8>) -> (Arena, NodeView)
    decreases t, 300nat,
{
    if t.is_link() && t.kids.contains_key(t.link_byte()) {
        build(a, t.kids[t.link_byte()], prefix.push(t.link_byte()))
    } else {
        let (a1, children) = build_kids(a, t, 256);
        make_node(a1, t.kids.dom(), children, prefix, t.val)
    }
}

/// The nodes for the children of `t` whose bytes are below `n`.
pub open spec fn build_kids(a: Arena, t: Trie<u64>, n: nat) -> (Arena, Seq<NodeView>)
    decreases t, n,
{
    if n == 0 {
        (a, Seq::empty())
    } else {
        let (a1, ns) = build_kids(a, t, (n - 1) as nat);
        let b = (n - 1) as u8;
        if t.kids.contains_key(b) {
            let (a2, c) = build(a1, t.kids[b], Seq::empty());
            (a2, ns.push(c))
        } else {
            (a1, ns)
        }
    }
}

/// A file whose arena is that of `d`: the magic, the place of the root, and the arena.
pub open spec fn with_root(d: Seq<u8>, root: nat) -> Seq<u8> {
    magic() + le_bytes(root, 8) + d.subrange(ARENA_START as int, d.len() as int)
}

/// The file of a trie. It ends in zeros.
pub open spec fn layout(t: Trie<u64>) -> Seq<u8> {
    let (a, n) = build(Arena::start(), t, Seq::empty());
    with_root(push_node(a.bytes, n), a.bytes.len()) + zeros(8)
}

/// In `d` the node is sound and stands for `t`.
pub open spec fn denotes(d: Seq<u8>, n: NodeView, t: Trie<u64>) -> bool {
    &&& node_wf(d, n, d.len())
    &&& node_trie(d, n, d.len()) == t
}

pub proof fn lemma_denotes_stable(d: Seq<u8>, e: Seq<u8>, n: NodeView, t: Trie<u64>)
    requires
        extends(d, e),
        denotes(d, n, t),
    ensures
        denotes(e, n, t),
{
    lemma_node_stable(d, e, n, d.len());
    lemma_node_later(e, n, d.len(), e.len());
}

/// A node that was written reads back, and stands for what it stood for.
pub proof fn lemma_push_node(d: Seq<u8>, n: NodeView, t: Trie<u64>)
    requires
        ARENA_START <= d.len() <= u64::MAX,
        denotes(d, n, t),
    ensures
        extends(d, push_node(d, n)),
        node_at(push_node(d, n), d.len()) == Some((n, node_bytes(n, d.len()).len())),
        d.len() < push_node(d, n).len(),
        id_wf(push_node(d, n), d.len()),
        id_trie(push_node(d, n), d.len()) == t,
{
    reveal(node_trie);
    reveal(node_wf);
    let e = push_node(d, n);
    let id = d.len();
    lemma_extends_append(d, node_bytes(n, id));
    assert(e.subrange(id as int, e.len() as int) =~= node_bytes(n, id));
    assert(stands_at(e, id as int, node_bytes(n, id)));
    lemma_node_round_trip(e, n, id);
    lemma_node_stable(d, e, n, id);
}

/// The sound node `n` stands at `c`, not before `from`, and stands for `t`.
spec fn sibling_is(d: Seq<u8>, from: nat, c: nat, n: NodeView, t: Trie<u64>) -> bool {
    &&& from <= c < d.len()
    &&& node_at(d, c) matches Some((m, _)) && m == n
    &&& id_wf(d, c)
    &&& id_trie(d, c) == t
}

/// Nodes that were written one behind the other are siblings.
proof fn lemma_push_nodes(d: Seq<u8>, ns: Seq<NodeView>, ts: Seq<Trie<u64>>)
    requires
        ARENA_START <= d.len(),
        push_nodes(d, ns).len() <= u64::MAX,
        ts.len() == ns.len(),
        forall|i: int| 0 <= i < ns.len() ==> denotes(d, #[trigger] ns[i], ts[i]),
    ensures
        extends(d, push_nodes(d, ns)),
        sibling(push_nodes(d, ns), d.len(), ns.len()) == push_nodes(d, ns).len(),
        forall|k: nat|
            k < ns.len() ==> sibling_is(
                push_nodes(d, ns),
                d.len(),
                #[trigger] sibling(push_nodes(d, ns), d.len(), k),
                ns[k as int],
                ts[k as int],
            ),
    decreases ns.len(),
{
    let e = push_nodes(d, ns);
    if ns.len() > 0 {
        let d1 = push_nodes(d, ns.drop_last());
        assert forall|i: int| 0 <= i < ns.drop_last().len() implies denotes(
            d,
            #[trigger] ns.drop_last()[i],
            ts.drop_last()[i],
        ) by {
            assert(ns.drop_last()[i] == ns[i]);
        }
        lemma_push_nodes(d, ns.drop_last(), ts.drop_last());
        lemma_denotes_stable(d, d1, ns.last(), ts.last());
        lemma_push_node(d1, ns.last(), ts.last());
        lemma_extends_trans(d, d1, e);
        let m = (ns.len() - 1) as nat;
        lemma_sibling_extends(d1, e, d.len(), m);
        assert forall|k: nat| k < ns.len() implies sibling_is(
            e,
            d.len(),
            #[trigger] sibling(e, d.len(), k),
            ns[k as int],
            ts[k as int],
        ) by {
            lemma_sibling_extends(d1, e, d.len(), k);
            if k < m {
                let c = sibling(d1, d.len(), k);
                assert(ts.drop_last()[k as int] == ts[k as int]);
                assert(ns.drop_last()[k as int] == ns[k as int]);
                lemma_id_stable(d1, e, c);
            }
        }
    }
}

/// Siblings that can be read stand where they stood.
proof fn lemma_sibling_extends(d: Seq<u8>, e: Seq<u8>, first: nat, k: nat)
    requires
        extends(d, e),
        ARENA_START <= first,
        forall|j: nat| j < k ==> id_wf(d, #[trigger] sibling(d, first, j)),
    ensures
        sibling(e, first, k) == sibling(d, first, k),
    decreases k,
{
    if k > 0 {
        let j = (k - 1) as nat;
        lemma_sibling_extends(d, e, first, j);
        lemma_id_stable(d, e, sibling(d, first, j));
    }
}

/// A branch whose children were just written.
pub proof fn lemma_branch(
    d: Seq<u8>,
    mask: Set<u8>,
    ns: Seq<NodeView>,
    kids: Map<u8, Trie<u64>>,
    value: Option<u64>,
)
    requires
        ARENA_START <= d.len(),
        push_nodes(d, ns).len() <= u64::MAX,
        kids.dom() == mask,
        ns.len() == rank(mask, 256),
        forall|b: u8| #[trigger]
            mask.contains(b) ==> denotes(d, ns[rank(mask, b as nat) as int], kids[b]),
    ensures
        extends(d, push_nodes(d, ns)),
        denotes(
            push_nodes(d, ns),
            NodeView::Branch {
                mask,
                first: if mask == Set::<u8>::empty() {
                    None
                } else {
                    Some(d.len())
                },
                value,
            },
            Trie { val: value, kids },
        ),
        forall|b: u8| #[trigger]
            mask.contains(b) ==> (node_at(
                push_nodes(d, ns),
                child_place(push_nodes(d, ns), mask, Some(d.len()), b),
            ) matches Some((m, _)) && m == ns[rank(mask, b as nat) as int]),
{
    reveal(node_wf);
    reveal(node_trie);
    let e = push_nodes(d, ns);
    let first = if mask == Set::<u8>::empty() {
        None
    } else {
        Some(d.len())
    };
    let n = NodeView::Branch { mask, first, value };
    lemma_members(mask);
    lemma_rank_is_len(mask);
    let ts = Seq::new(ns.len(), |i: int| kids[members(mask)[i]]);
    assert forall|i: int| 0 <= i < ns.len() implies denotes(d, #[trigger] ns[i], ts[i]) by {
        let b = members(mask)[i];
        assert(mask.contains(b));
    }
    lemma_push_nodes(d, ns, ts);
    assert forall|b: u8| #[trigger] mask.contains(b) implies {
        let c = child_place(e, mask, first, b);
        &&& ARENA_START <= c < e.len()
        &&& id_wf(e, c)
        &&& id_trie(e, c) == kids[b]
        &&& node_at(e, c) matches Some((m, _)) && m == ns[rank(mask, b as nat) as int]
        &&& first == Some(d.len())
    } by {
        let k = rank(mask, b as nat);
        assert(first == Some(d.len()));
        assert(sibling(e, d.len(), k) == child_place(e, mask, first, b));
        assert(ts[k as int] == kids[b]);
    }
    if mask != Set::<u8>::empty() {
        assert(ns.len() > 0);
        assert(sibling(e, d.len(), 0) < e.len());
    }
    assert(node_trie(e, n, e.len()).kids =~= kids);
}

/// Adding a line leaves the arena sound, and the line can be read at its place.
pub proof fn lemma_add_line(a: Arena, line: Seq<u8>)
    requires
        a.wf(),
        line.len() > 0,
        a.add_line(line).0.bytes.len() <= u64::MAX,
    ensures
        a.add_line(line).0.wf(),
        extends(a.bytes, a.add_line(line).0.bytes),
        ARENA_START <= a.add_line(line).1 <= a.add_line(line).0.bytes.len(),
        line_at(a.add_line(line).0.bytes, a.add_line(line).1) == Some(line),
{
    let (a1, id) = a.add_line(line);
    let h = line_hash(line);
    if !(a.lines.contains_key(h) && line_at(a.bytes, a.lines[h]) == Some(line)) {
        let e = a1.bytes;
        lemma_extends_append(a.bytes, line_bytes(line));
        assert(e.subrange(id as int, e.len() as int) =~= line_bytes(line));
        lemma_line_round_trip(e, line, id);
        assert forall|g: u64| #[trigger] a1.lines.contains_key(g) implies ARENA_START <= a1.lines[g]
            < e.len() && line_at(e, a1.lines[g]) is Some by {
            if g != h {
                assert(a.lines.contains_key(g));
                crate::arena_compact::node::lemma_line_agree(a.bytes, e, a.lines[g]);
            }
        }
    }
}

/// A sound arena stays sound when it grows.
pub proof fn lemma_arena_grows(a: Arena, bytes: Seq<u8>)
    requires
        a.wf(),
        extends(a.bytes, bytes),
    ensures
        (Arena { bytes, lines: a.lines }).wf(),
{
    assert forall|g: u64| #[trigger] a.lines.contains_key(g) implies ARENA_START <= a.lines[g]
        < bytes.len() && line_at(bytes, a.lines[g]) is Some by {
        crate::arena_compact::node::lemma_line_agree(a.bytes, bytes, a.lines[g]);
    }
}

/// What `make_node` makes stands for the place below the prefix.
pub proof fn lemma_make_node(
    a: Arena,
    mask: Set<u8>,
    children: Seq<NodeView>,
    prefix: Seq<u8>,
    t: Trie<u64>,
)
    requires
        a.wf(),
        make_node(a, mask, children, prefix, t.val).0.bytes.len() <= u64::MAX,
        t.kids.dom() == mask,
        children.len() == rank(mask, 256),
        forall|b: u8| #[trigger]
            mask.contains(b) ==> denotes(a.bytes, children[rank(mask, b as nat) as int], t.kids[b]),
    ensures
        make_node(a, mask, children, prefix, t.val).0.wf(),
        extends(a.bytes, make_node(a, mask, children, prefix, t.val).0.bytes),
        denotes(
            make_node(a, mask, children, prefix, t.val).0.bytes,
            make_node(a, mask, children, prefix, t.val).1,
            chain(prefix, t),
        ),
{
    reveal(node_wf);
    reveal(node_trie);
    let first = if mask == Set::<u8>::empty() {
        None
    } else {
        Some(a.bytes.len())
    };
    let a1 = a.push_all(children);
    let branch = NodeView::Branch { mask, first, value: t.val };
    lemma_branch(a.bytes, mask, children, t.kids, t.val);
    lemma_arena_grows(a, a1.bytes);
    if prefix.len() > 0 {
        let (a2, path) = a1.add_line(prefix);
        lemma_add_line(a1, prefix);
        lemma_extends_trans(a.bytes, a1.bytes, a2.bytes);
        lemma_denotes_stable(a1.bytes, a2.bytes, branch, t);
        if mask == Set::<u8>::empty() {
            assert(t.kids =~= Map::empty());
            assert(t == Trie::leaf(t.val));
        } else {
            let a3 = a2.push(branch);
            lemma_push_node(a2.bytes, branch, t);
            lemma_extends_trans(a.bytes, a2.bytes, a3.bytes);
            lemma_arena_grows(a2, a3.bytes);
            crate::arena_compact::node::lemma_line_agree(a2.bytes, a3.bytes, path);
        }
    }
}

pub proof fn lemma_push_nodes_grows(d: Seq<u8>, ns: Seq<NodeView>)
    ensures
        is_prefix(d, push_nodes(d, ns)),
    decreases ns.len(),
{
    if ns.len() > 0 {
        lemma_push_nodes_grows(d, ns.drop_last());
    }
}

/// The first of the nodes take no more bytes than all.
pub proof fn lemma_push_nodes_part(d: Seq<u8>, ns: Seq<NodeView>, k: int)
    requires
        0 <= k <= ns.len(),
    ensures
        push_nodes(d, ns.subrange(0, k)).len() <= push_nodes(d, ns).len(),
    decreases ns.len(),
{
    if k < ns.len() {
        lemma_push_nodes_part(d, ns.drop_last(), k);
        assert(ns.drop_last().subrange(0, k) =~= ns.subrange(0, k));
    } else {
        assert(ns.subrange(0, k) =~= ns);
    }
}

pub proof fn lemma_make_node_grows(
    a: Arena,
    mask: Set<u8>,
    children: Seq<NodeView>,
    prefix: Seq<u8>,
    value: Option<u64>,
)
    ensures
        is_prefix(a.bytes, make_node(a, mask, children, prefix, value).0.bytes),
{
    lemma_push_nodes_grows(a.bytes, children);
}

/// Building only adds to the arena: what is there stays, the header included.
pub proof fn lemma_build_grows(a: Arena, t: Trie<u64>, prefix: Seq<u8>)
    ensures
        is_prefix(a.bytes, build(a, t, prefix).0.bytes),
    decreases t, 300nat,
{
    if t.is_link() && t.kids.contains_key(t.link_byte()) {
        lemma_build_grows(a, t.kids[t.link_byte()], prefix.push(t.link_byte()));
    } else {
        let (a1, children) = build_kids(a, t, 256);
        lemma_build_kids_grows(a, t, 256);
        lemma_make_node_grows(a1, t.kids.dom(), children, prefix, t.val);
    }
}

pub proof fn lemma_build_kids_grows(a: Arena, t: Trie<u64>, n: nat)
    ensures
        is_prefix(a.bytes, build_kids(a, t, n).0.bytes),
    decreases t, n,
{
    if n > 0 {
        let (a1, ns) = build_kids(a, t, (n - 1) as nat);
        let b = (n - 1) as u8;
        lemma_build_kids_grows(a, t, (n - 1) as nat);
        if t.kids.contains_key(b) {
            lemma_build_grows(a1, t.kids[b], Seq::empty());
        }
    }
}

/// What `build` builds stands for the trie below the prefix.
pub proof fn lemma_build(a: Arena, t: Trie<u64>, prefix: Seq<u8>)
    requires
        a.wf(),
        build(a, t, prefix).0.bytes.len() <= u64::MAX,
    ensures
        build(a, t, prefix).0.wf(),
        extends(a.bytes, build(a, t, prefix).0.bytes),
        denotes(build(a, t, prefix).0.bytes, build(a, t, prefix).1, chain(prefix, t)),
    decreases t, 300nat,
{
    if t.is_link() && t.kids.contains_key(t.link_byte()) {
        let b = t.link_byte();
        lemma_build(a, t.kids[b], prefix.push(b));
        lemma_link(t);
        lemma_chain_concat(prefix, seq![b], t.kids[b]);
        assert(prefix + seq![b] =~= prefix.push(b));
    } else {
        let (a1, children) = build_kids(a, t, 256);
        lemma_make_node_grows(a1, t.kids.dom(), children, prefix, t.val);
        lemma_build_kids(a, t, 256);
        lemma_make_node(a1, t.kids.dom(), children, prefix, t);
        lemma_extends_trans(a.bytes, a1.bytes, build(a, t, prefix).0.bytes);
    }
}

pub proof fn lemma_build_kids(a: Arena, t: Trie<u64>, n: nat)
    requires
        a.wf(),
        n <= 256,
        build_kids(a, t, n).0.bytes.len() <= u64::MAX,
    ensures
        build_kids(a, t, n).0.wf(),
        extends(a.bytes, build_kids(a, t, n).0.bytes),
        build_kids(a, t, n).1.len() == rank(t.kids.dom(), n),
        forall|b: u8|
            b < n && #[trigger] t.kids.dom().contains(b) ==> rank(t.kids.dom(), b as nat) < rank(
                t.kids.dom(),
                n,
            ) && denotes(
                build_kids(a, t, n).0.bytes,
                build_kids(a, t, n).1[rank(t.kids.dom(), b as nat) as int],
                t.kids[b],
            ),
    decreases t, n,
{
    if n > 0 {
        let mask = t.kids.dom();
        let m = (n - 1) as nat;
        let (a1, ns) = build_kids(a, t, m);
        let c = (n - 1) as u8;
        if t.kids.contains_key(c) {
            let (a2, node) = build(a1, t.kids[c], Seq::empty());
            lemma_build_grows(a1, t.kids[c], Seq::empty());
            lemma_build_kids(a, t, m);
            lemma_build(a1, t.kids[c], Seq::empty());
            lemma_extends_trans(a.bytes, a1.bytes, a2.bytes);
            assert forall|b: u8| b < n && #[trigger] mask.contains(b) implies rank(mask, b as nat)
                < rank(mask, n) && denotes(
                a2.bytes,
                ns.push(node)[rank(mask, b as nat) as int],
                t.kids[b],
            ) by {
                if b < m {
                    lemma_denotes_stable(
                        a1.bytes,
                        a2.bytes,
                        ns[rank(mask, b as nat) as int],
                        t.kids[b],
                    );
                }
            }
        } else {
            lemma_build_kids(a, t, m);
        }
    }
}

/// The bytes of a chain go to the prefix.
pub proof fn lemma_build_chain(a: Arena, line: Seq<u8>, t: Trie<u64>, prefix: Seq<u8>)
    ensures
        build(a, chain(line, t), prefix) == build(a, t, prefix + line),
    decreases line.len(),
{
    if line.len() == 0 {
        assert(prefix + line =~= prefix);
    } else {
        let c = chain(line, t);
        let inner = chain(line.drop_first(), t);
        assert(c.kids.dom() =~= Set::<u8>::empty().insert(line[0]));
        lemma_link(c);
        assert(Set::<u8>::empty().insert(c.link_byte()).contains(line[0]));
        assert(c.kids[line[0]] == inner);
        lemma_build_chain(a, line.drop_first(), t, prefix.push(line[0]));
        assert(prefix.push(line[0]) + line.drop_first() =~= prefix + line);
    }
}

/// Only the children below `n` matter to the nodes below `n`.
pub proof fn lemma_build_kids_agree(a: Arena, t: Trie<u64>, u: Trie<u64>, n: nat)
    requires
        n <= 256,
        forall|b: u8|
            b < n ==> #[trigger] t.kids.contains_key(b) == u.kids.contains_key(b) && (
            t.kids.contains_key(b) ==> t.kids[b] == u.kids[b]),
    ensures
        build_kids(a, t, n) == build_kids(a, u, n),
    decreases n,
{
    if n > 0 {
        lemma_build_kids_agree(a, t, u, (n - 1) as nat);
        let b = (n - 1) as u8;
        assert(t.kids.contains_key(b) == u.kids.contains_key(b));
    }
}

/// Where there is no child there is nothing to build.
pub proof fn lemma_build_kids_gap(a: Arena, t: Trie<u64>, m: nat, n: nat)
    requires
        m <= n <= 256,
        forall|b: u8| m <= b < n ==> !#[trigger] t.kids.contains_key(b),
    ensures
        build_kids(a, t, n) == build_kids(a, t, m),
    decreases n,
{
    if m < n {
        lemma_build_kids_gap(a, t, m, (n - 1) as nat);
        assert(!t.kids.contains_key((n - 1) as u8));
    }
}

/// With one more child, behind the others, there is one more node.
pub proof fn lemma_build_kids_append(
    a: Arena,
    t: Trie<u64>,
    u: Trie<u64>,
    b: u8,
    kid: Trie<u64>,
)
    requires
        forall|c: u8| #[trigger] t.kids.contains_key(c) ==> c < b,
        u.kids == t.kids.insert(b, kid),
    ensures
        ({
            let (a1, ns) = build_kids(a, t, 256);
            let (a2, n) = build(a1, kid, Seq::empty());
            build_kids(a, u, 256) == (a2, ns.push(n))
        }),
{
    lemma_build_kids_gap(a, t, b as nat, 256);
    lemma_build_kids_agree(a, t, u, b as nat);
    assert(u.kids.contains_key(b));
    lemma_build_kids_gap(a, u, (b + 1) as nat, 256);
}

/// The arena with all that branches off along `p`, and with what is below the place at its end. The
/// nodes along the path are not there yet.
pub open spec fn build_along(a: Arena, t: Trie<u64>, p: Seq<u8>) -> Arena
    decreases p.len(),
{
    if p.len() == 0 || !t.kids.contains_key(p[0]) {
        build_kids(a, t, 256).0
    } else {
        let beside = Trie { val: t.val, kids: t.kids.remove(p[0]) };
        build_along(build_kids(a, beside, 256).0, t.kids[p[0]], p.drop_first())
    }
}

/// The place of the root does not change the length.
pub proof fn lemma_with_root_len(d: Seq<u8>, root: nat)
    requires
        ARENA_START <= d.len(),
    ensures
        (with_root(d, root) + zeros(8)).len() == d.len() + 8,
{
    crate::arena_compact::varint::lemma_le_bytes_len(root, 8);
}

/// The file of a trie whose root is a branch in any case, also where a single byte leads on from it.
/// It ends in zeros.
pub open spec fn stream_layout(t: Trie<u64>) -> Seq<u8> {
    let (a, ns) = build_kids(Arena::start(), t, 256);
    let (a1, n) = make_node(a, t.kids.dom(), ns, Seq::empty(), t.val);
    with_root(push_node(a1.bytes, n), a1.bytes.len()) + zeros(8)
}

} // verus!

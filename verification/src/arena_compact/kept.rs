//! The nodes that paths lead to, and those that a grown arena keeps.

use vstd::prelude::*;

use crate::arena_compact::meaning::{
    child_place, extends, id_wf, lemma_id_node, lemma_id_stable, lemma_sibling_agree, node_wf,
};
use crate::arena_compact::node::{lemma_line_agree, line_at, node_at, NodeView};
use crate::slices::begins_with;
use crate::trie::{chain, lemma_at_concat, lemma_chain_at, Trie};
use crate::utils::bits::{lemma_members, rank};

verus! {

/// The node that stands where `path` leads to from `n`. There is none where the path leads nowhere,
/// nor where it ends inside a line or at the end of the last one.
pub open spec fn node_on(d: Seq<u8>, n: NodeView, path: Seq<u8>) -> Option<NodeView>
    decreases path.len(),
{
    if path.len() == 0 {
        Some(n)
    } else {
        match n {
            NodeView::Branch { mask, first, .. } => if mask.contains(path[0]) {
                match node_at(d, child_place(d, mask, first, path[0])) {
                    Some((m, _)) => node_on(d, m, path.drop_first()),
                    None => None,
                }
            } else {
                None
            },
            NodeView::Line { path: id, child, .. } => match (line_at(d, id), child) {
                (Some(line), Some(c)) => if line.len() > 0 && begins_with(path, line) {
                    match node_at(d, c) {
                        Some((m, _)) => node_on(
                            d,
                            m,
                            path.subrange(line.len() as int, path.len() as int),
                        ),
                        None => None,
                    }
                } else {
                    None
                },
                _ => None,
            },
        }
    }
}

/// The node that stands where `path` leads to from the node at `id`.
pub open spec fn id_on(d: Seq<u8>, id: nat, path: Seq<u8>) -> Option<NodeView> {
    match node_at(d, id) {
        Some((n, _)) => node_on(d, n, path),
        None => None,
    }
}

/// Wherever the tries `t` below `n` and `u` below `m` are the same, the node that leads on is that
/// of `n`: what is below it is not there a second time.
pub open spec fn keeps(
    d: Seq<u8>,
    n: NodeView,
    t: Trie<u64>,
    e: Seq<u8>,
    m: NodeView,
    u: Trie<u64>,
) -> bool {
    forall|p: Seq<u8>|
        (#[trigger] node_on(d, n, p)) is Some && t.at(p) == u.at(p) ==> node_on(e, m, p)
            == node_on(d, n, p)
}

/// A sound branch has its children where it had them.
proof fn lemma_child_stays(d: Seq<u8>, e: Seq<u8>, n: NodeView, lim: nat, b: u8)
    requires
        extends(d, e),
        node_wf(d, n, lim),
        n is Branch,
        n->mask.contains(b),
    ensures
        id_wf(d, child_place(d, n->mask, n->first, b)),
        child_place(e, n->mask, n->first, b) == child_place(d, n->mask, n->first, b),
{
    reveal(node_wf);
    lemma_members(n->mask);
    lemma_sibling_agree(d, e, n->mask, n->first, lim, rank(n->mask, b as nat));
}

/// A sound line has its bytes and its child.
proof fn lemma_line_stays(d: Seq<u8>, e: Seq<u8>, n: NodeView, lim: nat)
    requires
        extends(d, e),
        node_wf(d, n, lim),
        n is Line,
    ensures
        line_at(d, n->path) is Some,
        line_at(e, n->path) == line_at(d, n->path),
        n->Line_child matches Some(c) ==> id_wf(d, c),
{
    reveal(node_wf);
    lemma_line_agree(d, e, n->path);
}

/// What follows an arena does not change where its nodes lead.
pub proof fn lemma_on_stable(d: Seq<u8>, e: Seq<u8>, n: NodeView, lim: nat, p: Seq<u8>)
    requires
        extends(d, e),
        node_wf(d, n, lim),
    ensures
        node_on(e, n, p) == node_on(d, n, p),
    decreases p.len(), 0nat,
{
    if p.len() > 0 {
        match n {
            NodeView::Branch { mask, first, .. } => {
                if mask.contains(p[0]) {
                    lemma_child_stays(d, e, n, lim, p[0]);
                    lemma_id_on_stable(
                        d,
                        e,
                        child_place(d, mask, first, p[0]),
                        p.drop_first(),
                    );
                }
            },
            NodeView::Line { path, child, .. } => {
                lemma_line_stays(d, e, n, lim);
                let line = line_at(d, path)->Some_0;
                if let Some(c) = child {
                    if line.len() > 0 && begins_with(p, line) {
                        lemma_id_on_stable(d, e, c, p.subrange(line.len() as int, p.len() as int));
                    }
                }
            },
        }
    }
}

pub proof fn lemma_id_on_stable(d: Seq<u8>, e: Seq<u8>, id: nat, p: Seq<u8>)
    requires
        extends(d, e),
        id_wf(d, id),
    ensures
        id_on(e, id, p) == id_on(d, id, p),
    decreases p.len(), 1nat,
{
    lemma_id_node(d, id);
    lemma_id_stable(d, e, id);
    lemma_on_stable(d, e, node_at(d, id)->Some_0.0, id, p);
}

/// The node that stands where `p` leads to along the rest of a line from the offset `k` on.
pub open spec fn rest_on(
    d: Seq<u8>,
    line: Seq<u8>,
    child: Option<nat>,
    k: int,
    p: Seq<u8>,
) -> Option<NodeView> {
    let n = line.len() - k;
    match child {
        Some(c) => if begins_with(p, line.subrange(k, line.len() as int)) {
            id_on(d, c, p.subrange(n, p.len() as int))
        } else {
            None
        },
        None => None,
    }
}

/// As [`keeps`], for the rest of a line from the offset `k` on.
pub open spec fn keeps_rest(
    d: Seq<u8>,
    line: Seq<u8>,
    child: Option<nat>,
    k: int,
    t: Trie<u64>,
    e: Seq<u8>,
    m: NodeView,
    u: Trie<u64>,
) -> bool {
    forall|p: Seq<u8>|
        (#[trigger] rest_on(d, line, child, k, p)) is Some && t.at(p) == u.at(p) ==> node_on(e, m, p)
            == rest_on(d, line, child, k, p)
}

/// A line leads on along all of its bytes.
pub proof fn lemma_rest_whole(d: Seq<u8>, n: NodeView, line: Seq<u8>, p: Seq<u8>)
    requires
        n is Line,
        line_at(d, n->path) == Some(line),
        p.len() > 0,
    ensures
        node_on(d, n, p) == rest_on(d, line, n->Line_child, 0, p),
{
    assert(line.subrange(0, line.len() as int) =~= line);
}

/// The rest of a line leads on along its first byte and the rest behind that.
pub proof fn lemma_rest_step(
    d: Seq<u8>,
    line: Seq<u8>,
    child: Option<nat>,
    k: int,
    p: Seq<u8>,
)
    requires
        0 <= k < line.len(),
    ensures
        rest_on(d, line, child, k, p) == if p.len() > 0 && p[0] == line[k] {
            rest_on(d, line, child, k + 1, p.drop_first())
        } else {
            None
        },
{
    let l = line.subrange(k, line.len() as int);
    let m = line.subrange(k + 1, line.len() as int);
    if begins_with(p, l) {
        assert(p[0] == p.subrange(0, l.len() as int)[0]);
        assert(p.drop_first().subrange(0, m.len() as int) =~= m) by {
            assert forall|i: int| 0 <= i < m.len() implies p.drop_first()[i] == #[trigger] m[i] by {
                assert(p.subrange(0, l.len() as int)[i + 1] == l[i + 1]);
            }
        }
    }
    if p.len() > 0 && p[0] == line[k] {
        let q = p.drop_first();
        if begins_with(q, m) {
            assert(p.subrange(0, l.len() as int) =~= l) by {
                assert forall|i: int| 0 <= i < l.len() implies p[i] == #[trigger] l[i] by {
                    if i > 0 {
                        assert(q.subrange(0, m.len() as int)[i - 1] == m[i - 1]);
                    }
                }
            }
            assert(q.subrange(m.len() as int, q.len() as int) =~= p.subrange(
                l.len() as int,
                p.len() as int,
            ));
        }
    }
}

/// The rest of a line leads on along its bytes up to the offset `j` and the rest from there on.
pub proof fn lemma_rest_skip(
    d: Seq<u8>,
    line: Seq<u8>,
    child: Option<nat>,
    k: int,
    j: int,
    p: Seq<u8>,
)
    requires
        0 <= k <= j <= line.len(),
        rest_on(d, line, child, k, p) is Some,
    ensures
        j - k <= p.len(),
        p == line.subrange(k, j) + p.subrange(j - k, p.len() as int),
        rest_on(d, line, child, k, p) == rest_on(
            d,
            line,
            child,
            j,
            p.subrange(j - k, p.len() as int),
        ),
    decreases j - k,
{
    let q = p.subrange(j - k, p.len() as int);
    if k == j {
        assert(q =~= p);
        assert(p =~= line.subrange(k, j) + q);
    } else {
        lemma_rest_step(d, line, child, k, p);
        let r = p.drop_first();
        lemma_rest_skip(d, line, child, k + 1, j, r);
        assert(r.subrange(j - k - 1, r.len() as int) =~= q);
        assert(p =~= line.subrange(k, j) + q) by {
            assert forall|i: int| 0 <= i < j - k implies p[i] == line.subrange(k, j)[i] by {
                if i > 0 {
                    assert(p[i] == r[i - 1]);
                    assert(r[i - 1] == line.subrange(k + 1, j)[i - 1]);
                }
            }
        }
    }
}

/// What follows an arena does not change where the rest of a line leads.
pub proof fn lemma_rest_stable(
    d: Seq<u8>,
    e: Seq<u8>,
    line: Seq<u8>,
    child: Option<nat>,
    k: int,
    p: Seq<u8>,
)
    requires
        extends(d, e),
        child matches Some(c) ==> id_wf(d, c),
    ensures
        rest_on(e, line, child, k, p) == rest_on(d, line, child, k, p),
{
    if let Some(c) = child {
        lemma_id_on_stable(d, e, c, p.subrange(line.len() - k, p.len() as int));
    }
}

/// What is kept of an arena is kept of what it has grown from.
pub proof fn lemma_keeps_earlier(
    c: Seq<u8>,
    d: Seq<u8>,
    n: NodeView,
    lim: nat,
    t: Trie<u64>,
    e: Seq<u8>,
    m: NodeView,
    u: Trie<u64>,
)
    requires
        extends(c, d),
        node_wf(c, n, lim),
        keeps(d, n, t, e, m, u),
    ensures
        keeps(c, n, t, e, m, u),
{
    assert forall|p: Seq<u8>|
        (#[trigger] node_on(c, n, p)) is Some && t.at(p) == u.at(p) implies node_on(e, m, p)
        == node_on(c, n, p) by {
        lemma_on_stable(c, d, n, lim, p);
    }
}

/// What is kept is kept when the arena grows further.
pub proof fn lemma_keeps_later(
    d: Seq<u8>,
    n: NodeView,
    t: Trie<u64>,
    e: Seq<u8>,
    m: NodeView,
    lim: nat,
    u: Trie<u64>,
    f: Seq<u8>,
)
    requires
        extends(e, f),
        node_wf(e, m, lim),
        keeps(d, n, t, e, m, u),
    ensures
        keeps(d, n, t, f, m, u),
{
    assert forall|p: Seq<u8>|
        (#[trigger] node_on(d, n, p)) is Some && t.at(p) == u.at(p) implies node_on(f, m, p)
        == node_on(d, n, p) by {
        lemma_on_stable(e, f, m, lim, p);
    }
}

/// A node keeps itself.
pub proof fn lemma_keeps_self(d: Seq<u8>, e: Seq<u8>, n: NodeView, lim: nat, t: Trie<u64>)
    requires
        extends(d, e),
        node_wf(d, n, lim),
    ensures
        keeps(d, n, t, e, n, t),
{
    assert forall|p: Seq<u8>|
        (#[trigger] node_on(d, n, p)) is Some && t.at(p) == t.at(p) implies node_on(e, n, p)
        == node_on(d, n, p) by {
        lemma_on_stable(d, e, n, lim, p);
    }
}

/// Behind the bytes of `line` stands what `node` leads to.
pub open spec fn leads_through(e: Seq<u8>, r: NodeView, line: Seq<u8>, node: NodeView) -> bool {
    forall|q: Seq<u8>|
        q.len() > 0 ==> #[trigger] node_on(e, r, line + q) == node_on(e, node, q)
}

/// The bytes of `mask` lead to the nodes of `children`, in their order.
pub open spec fn leads_to_all(
    e: Seq<u8>,
    r: NodeView,
    mask: Set<u8>,
    children: Seq<NodeView>,
) -> bool {
    forall|p: Seq<u8>|
        p.len() > 0 && mask.contains(p[0]) ==> #[trigger] node_on(e, r, p) == node_on(
            e,
            children[rank(mask, p[0] as nat) as int],
            p.drop_first(),
        )
}

/// A line node leads through its line to its child.
pub proof fn lemma_line_leads(e: Seq<u8>, r: NodeView, line: Seq<u8>, node: NodeView)
    requires
        r is Line,
        line_at(e, r->path) == Some(line),
        match r->Line_child {
            Some(c) => node_at(e, c) matches Some((m, _)) && m == node,
            None => node is Branch && node->mask == Set::<u8>::empty(),
        },
    ensures
        leads_through(e, r, line, node),
{
    assert forall|q: Seq<u8>| q.len() > 0 implies #[trigger] node_on(e, r, line + q) == node_on(
        e,
        node,
        q,
    ) by {
        let p = line + q;
        assert(p.subrange(0, line.len() as int) =~= line);
        assert(p.subrange(line.len() as int, p.len() as int) =~= q);
    }
}

/// What is kept behind a part of a line is kept where the part leads to it.
pub proof fn lemma_keeps_behind(
    d: Seq<u8>,
    line: Seq<u8>,
    child: Option<nat>,
    k: int,
    j: int,
    t: Trie<u64>,
    e: Seq<u8>,
    m: NodeView,
    lim: nat,
    u: Trie<u64>,
    f: Seq<u8>,
    r: NodeView,
)
    requires
        0 <= k <= j <= line.len(),
        keeps_rest(d, line, child, j, t, e, m, u),
        t != u,
        extends(e, f),
        node_wf(e, m, lim),
        leads_through(f, r, line.subrange(k, j), m),
    ensures
        keeps_rest(
            d,
            line,
            child,
            k,
            chain(line.subrange(k, j), t),
            f,
            r,
            chain(line.subrange(k, j), u),
        ),
{
    let seg = line.subrange(k, j);
    let a = chain(seg, t);
    let b = chain(seg, u);
    assert forall|p: Seq<u8>|
        (#[trigger] rest_on(d, line, child, k, p)) is Some && a.at(p) == b.at(p) implies node_on(
        f,
        r,
        p,
    ) == rest_on(d, line, child, k, p) by {
        lemma_rest_skip(d, line, child, k, j, p);
        let q = p.subrange(j - k, p.len() as int);
        lemma_chain_at(seg, t, seg.len() as int);
        lemma_chain_at(seg, u, seg.len() as int);
        assert(seg.subrange(0, seg.len() as int) =~= seg);
        assert(seg.subrange(seg.len() as int, seg.len() as int) =~= Seq::<u8>::empty());
        lemma_at_concat(a, seg, q);
        lemma_at_concat(b, seg, q);
        assert(t.at(q) == u.at(q));
        assert(q.len() > 0);
        assert(node_on(f, r, seg + q) == node_on(f, m, q));
        lemma_on_stable(e, f, m, lim, q);
    }
}

/// What is kept behind a byte of a line is kept by a branch that leads to it.
pub proof fn lemma_keeps_fork(
    d: Seq<u8>,
    line: Seq<u8>,
    child: Option<nat>,
    k: int,
    t: Trie<u64>,
    e: Seq<u8>,
    m: NodeView,
    lim: nat,
    u: Trie<u64>,
    f: Seq<u8>,
    r: NodeView,
    mask: Set<u8>,
    children: Seq<NodeView>,
    whole: Trie<u64>,
    merged: Trie<u64>,
)
    requires
        0 <= k < line.len(),
        keeps_rest(d, line, child, k + 1, t, e, m, u),
        extends(e, f),
        node_wf(e, m, lim),
        leads_to_all(f, r, mask, children),
        mask.contains(line[k]),
        children[rank(mask, line[k] as nat) as int] == m,
        whole.kids.contains_key(line[k]) && whole.kids[line[k]] == t,
        merged.kids.contains_key(line[k]) && merged.kids[line[k]] == u,
    ensures
        keeps_rest(d, line, child, k, whole, f, r, merged),
{
    assert forall|p: Seq<u8>|
        (#[trigger] rest_on(d, line, child, k, p)) is Some && whole.at(p) == merged.at(
            p,
        ) implies node_on(f, r, p) == rest_on(d, line, child, k, p) by {
        lemma_rest_step(d, line, child, k, p);
        let q = p.drop_first();
        assert(rest_on(d, line, child, k + 1, q) is Some);
        assert(t.at(q) == u.at(q));
        lemma_on_stable(e, f, m, lim, q);
    }
}

} // verus!

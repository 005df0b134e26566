//! How the numbers of shared places change when a path is edited.

use vstd::prelude::*;

use crate::path_map::map::{
    item_index, item_share, items_wf, lemma_item_found, lemma_item_index, node_share, nodes_grown,
    nodes_wf, same_item, Item, PNode,
};
use crate::slices::{begins_with, lemma_overlap, overlap};

verus! {

/// The number of the place to which `p` leads along an edge.
pub(crate) open spec fn walk<V>(nodes: Seq<PNode<V>>, it: Item<V>, p: Seq<u8>) -> Option<u64> {
    let o = overlap(it.path@, p) as int;
    if o == p.len() {
        item_share(it, o)
    } else if 0 < o < p.len() && o == it.path@.len() {
        match it.child {
            Some(c) => node_share(nodes, c as nat, p.subrange(o, p.len() as int)),
            None => None,
        }
    } else {
        None
    }
}

/// What an edit at the end of `path` makes of the number of `p`. Places that the path does not lead
/// through keep theirs, but those below its end have the numbers that they have below the node
/// `graft`, where one is put there. That node is the number of the end of the path, where it is
/// `bare`: has no value.
pub(crate) open spec fn follows<V>(
    nodes: Seq<PNode<V>>,
    old_share: Option<u64>,
    new_share: Option<u64>,
    path: Seq<u8>,
    graft: Option<usize>,
    p: Seq<u8>,
    bare: bool,
) -> bool {
    &&& !begins_with(path, p) ==> new_share == match graft {
        Some(c) => if begins_with(p, path) {
            node_share(nodes, c as nat, p.subrange(path.len() as int, p.len() as int))
        } else {
            old_share
        },
        None => old_share,
    }
    &&& p == path && bare ==> (graft matches Some(c) ==> new_share == Some(c as u64))
}

/// More nodes behind the others do not change the numbers.
pub(crate) proof fn lemma_share_stable<V>(
    nodes: Seq<PNode<V>>,
    more: Seq<PNode<V>>,
    i: nat,
    p: Seq<u8>,
)
    requires
        nodes_wf(nodes),
        nodes_grown(nodes, more),
        i < nodes.len(),
    ensures
        node_share(more, i, p) == node_share(nodes, i, p),
    decreases p.len(),
{
    let items = nodes[i as int].items@;
    assert(more[i as int] == nodes[i as int]);
    if p.len() > 0 {
        lemma_item_index(items, p[0], 0);
        if let Some(j) = item_index(items, p[0], 0) {
            let it = items[j as int];
            let o = overlap(it.path@, p) as int;
            lemma_overlap(it.path@, p);
            assert(items_wf(items, i));
            if 0 < o < p.len() && o == it.path@.len() {
                if let Some(c) = it.child {
                    lemma_share_stable(nodes, more, c as nat, p.subrange(o, p.len() as int));
                }
            }
        }
    }
}

/// The number of a place below a node whose edges are those of another, but for one.
pub(crate) proof fn lemma_share_replaced<V>(
    nodes: Seq<PNode<V>>,
    i: nat,
    n: nat,
    j: int,
    p: Seq<u8>,
)
    requires
        nodes_wf(nodes),
        i < nodes.len(),
        n < nodes.len(),
        p.len() > 0,
        0 <= j < nodes[n as int].items@.len(),
        ({
            let old_items = nodes[i as int].items@;
            let items = nodes[n as int].items@;
            let b = items[j].path@[0];
            &&& items.len() == if j < old_items.len() {
                old_items.len()
            } else {
                old_items.len() + 1
            }
            &&& j < old_items.len() ==> old_items[j].path@[0] == b
            &&& j >= old_items.len() ==> item_index(old_items, b, 0) is None
            &&& forall|k: int|
                0 <= k < old_items.len() && k != j ==> same_item(#[trigger] items[k], old_items[k])
        }),
    ensures
        ({
            let old_items = nodes[i as int].items@;
            let it = nodes[n as int].items@[j];
            if p[0] == it.path@[0] {
                &&& node_share(nodes, n, p) == walk(nodes, it, p)
                &&& node_share(nodes, i, p) == if j < old_items.len() {
                    walk(nodes, old_items[j], p)
                } else {
                    None
                }
            } else {
                node_share(nodes, n, p) == node_share(nodes, i, p)
            }
        }),
{
    let old_items = nodes[i as int].items@;
    let items = nodes[n as int].items@;
    let c = p[0];
    assert(items_wf(items, n));
    assert(items_wf(old_items, i));
    lemma_item_index(items, c, 0);
    lemma_item_index(old_items, c, 0);
    if c == items[j].path@[0] {
        lemma_item_found(items, n, j);
        if j < old_items.len() {
            lemma_item_found(old_items, i, j);
        }
    } else if let Some(k) = item_index(old_items, c, 0) {
        assert(same_item(items[k as int], old_items[k as int]));
        lemma_item_found(items, n, k as int);
    } else if let Some(k) = item_index(items, c, 0) {
        assert(same_item(items[k as int], old_items[k as int]));
    }
}

/// Where the bytes are equal so far and then differ, the overlap ends.
proof fn lemma_overlap_is(a: Seq<u8>, b: Seq<u8>, o: int)
    requires
        0 <= o <= a.len(),
        o <= b.len(),
        forall|i: int| 0 <= i < o ==> a[i] == b[i],
        o < a.len() && o < b.len() ==> a[o] != b[o],
    ensures
        overlap(a, b) == o,
{
    lemma_overlap(a, b);
    let m = overlap(a, b) as int;
    if m < o {
        assert(a[m] == b[m]);
    } else if m > o {
        assert(a[o] == b[o]);
    }
}

/// How far two paths agree.
proof fn lemma_begins(p: Seq<u8>, q: Seq<u8>)
    ensures
        begins_with(p, q) <==> overlap(q, p) == q.len(),
        begins_with(q, p) <==> overlap(q, p) == p.len(),
{
    lemma_overlap(q, p);
    let o = overlap(q, p) as int;
    if o == q.len() {
        assert(p.subrange(0, o) =~= q);
    }
    if o == p.len() {
        assert(q.subrange(0, o) =~= p);
    }
    if begins_with(p, q) {
        assert forall|i: int| 0 <= i < q.len() implies q[i] == p[i] by {
            assert(p.subrange(0, q.len() as int)[i] == q[i]);
        }
        lemma_overlap_is(q, p, q.len() as int);
    }
    if begins_with(q, p) {
        assert forall|i: int| 0 <= i < p.len() implies q[i] == p[i] by {
            assert(q.subrange(0, p.len() as int)[i] == p[i]);
        }
        lemma_overlap_is(q, p, p.len() as int);
    }
}

/// The overlap of what lies behind an equal start.
proof fn lemma_overlap_behind(a: Seq<u8>, b: Seq<u8>, o: int)
    requires
        0 <= o <= overlap(a, b),
    ensures
        o <= a.len(),
        o <= b.len(),
        overlap(a, b) == o + overlap(
            a.subrange(o, a.len() as int),
            b.subrange(o, b.len() as int),
        ),
{
    lemma_overlap(a, b);
    let m = overlap(a, b) as int;
    let x = a.subrange(o, a.len() as int);
    let y = b.subrange(o, b.len() as int);
    assert forall|i: int| 0 <= i < m - o implies x[i] == y[i] by {
        assert(a[o + i] == b[o + i]);
    }
    lemma_overlap_is(x, y, m - o);
}

/// What begins with what, seen from behind an equal start.
proof fn lemma_begins_behind(p: Seq<u8>, path: Seq<u8>, o: int)
    requires
        0 <= o <= overlap(path, p),
    ensures
        ({
            let rp = p.subrange(o, p.len() as int);
            let rest = path.subrange(o, path.len() as int);
            &&& begins_with(p, path) <==> begins_with(rp, rest)
            &&& begins_with(path, p) <==> begins_with(rest, rp)
            &&& p == path <==> rp == rest
            &&& begins_with(p, path) ==> rp.subrange(rest.len() as int, rp.len() as int)
                == p.subrange(path.len() as int, p.len() as int)
        }),
{
    lemma_overlap(path, p);
    lemma_overlap_behind(path, p, o);
    let rp = p.subrange(o, p.len() as int);
    let rest = path.subrange(o, path.len() as int);
    lemma_begins(p, path);
    lemma_begins(rp, rest);
    if rp == rest {
        assert(p =~= path) by {
            assert(p.len() == path.len());
            assert forall|i: int| 0 <= i < p.len() implies p[i] == path[i] by {
                if i >= o {
                    assert(p[i] == rp[i - o]);
                    assert(path[i] == rest[i - o]);
                }
            }
        }
    }
    if begins_with(p, path) {
        assert(rp.subrange(rest.len() as int, rp.len() as int) =~= p.subrange(
            path.len() as int,
            p.len() as int,
        ));
    }
}

/// An edge that is new.
pub(crate) proof fn lemma_walk_new<V>(
    nodes: Seq<PNode<V>>,
    it: Item<V>,
    path: Seq<u8>,
    graft: Option<usize>,
    p: Seq<u8>,
)
    requires
        it.path@ == path,
        it.child == graft,
        path.len() > 0,
        p.len() > 0,
    ensures
        follows(nodes, None, walk(nodes, it, p), path, graft, p, it.val is None),
{
    lemma_begins(p, path);
    lemma_overlap(path, p);
}

/// An edge at whose end the edit is.
pub(crate) proof fn lemma_walk_end<V>(
    nodes: Seq<PNode<V>>,
    old_item: Item<V>,
    it: Item<V>,
    graft: Option<usize>,
    p: Seq<u8>,
)
    requires
        it.path@ == old_item.path@,
        it.path@.len() > 0,
        it.child == if graft is Some {
            graft
        } else {
            old_item.child
        },
        p.len() > 0,
    ensures
        follows(
            nodes,
            walk(nodes, old_item, p),
            walk(nodes, it, p),
            it.path@,
            graft,
            p,
            it.val is None,
        ),
{
    lemma_begins(p, it.path@);
    lemma_overlap(it.path@, p);
}

/// What the rest of a path leads to at the end of an edge.
pub(crate) open spec fn behind<V>(nodes: Seq<PNode<V>>, it: Item<V>, rp: Seq<u8>) -> Option<u64> {
    match it.child {
        Some(c) => node_share(nodes, c as nat, rp),
        None => None,
    }
}

/// An edge behind whose end the edit is.
pub(crate) proof fn lemma_walk_down<V>(
    nodes: Seq<PNode<V>>,
    old_item: Item<V>,
    it: Item<V>,
    path: Seq<u8>,
    graft: Option<usize>,
    p: Seq<u8>,
    bare: bool,
)
    requires
        it.path@ == old_item.path@,
        it.path@.len() > 0,
        it.path@.len() < path.len(),
        begins_with(path, it.path@),
        it.child is Some,
        p.len() > 0,
        ({
            let o = it.path@.len() as int;
            let rp = p.subrange(o, p.len() as int);
            p.len() > o ==> follows(
                nodes,
                behind(nodes, old_item, rp),
                behind(nodes, it, rp),
                path.subrange(o, path.len() as int),
                graft,
                rp,
                bare,
            )
        }),
    ensures
        follows(nodes, walk(nodes, old_item, p), walk(nodes, it, p), path, graft, p, bare),
{
    let q = it.path@;
    let o = q.len() as int;
    lemma_begins(p, q);
    lemma_begins(path, q);
    lemma_begins(p, path);
    lemma_overlap(q, p);
    lemma_overlap(q, path);
    lemma_overlap(path, p);
    let m = overlap(q, p) as int;
    if m == o && p.len() > o {
        if overlap(path, p) < o {
            let k = overlap(path, p) as int;
            assert(q[k] == p[k]);
            assert(q[k] == path[k]);
        }
        lemma_begins_behind(p, path, o);
    } else if m < o && m < p.len() {
        // The paths part within the edge.
        assert forall|i: int| 0 <= i < m implies path[i] == p[i] by {
            assert(q[i] == p[i]);
            assert(q[i] == path[i]);
        }
        assert(q[m] == path[m]);
        lemma_overlap_is(path, p, m);
    } else {
        assert forall|i: int| 0 <= i < p.len() implies path[i] == p[i] by {
            assert(q[i] == p[i]);
            assert(q[i] == path[i]);
        }
        lemma_overlap_is(path, p, p.len() as int);
    }
}

/// An edge that is split, for the edit is off it or within it.
pub(crate) proof fn lemma_walk_split<V>(
    nodes: Seq<PNode<V>>,
    old_item: Item<V>,
    it: Item<V>,
    low: Item<V>,
    second: Option<Item<V>>,
    mid: nat,
    o: int,
    path: Seq<u8>,
    graft: Option<usize>,
    p: Seq<u8>,
    bare: bool,
)
    requires
        0 < o < old_item.path@.len(),
        o == overlap(old_item.path@, path),
        it.path@ == old_item.path@.subrange(0, o),
        low.path@ == old_item.path@.subrange(o, old_item.path@.len() as int),
        low.val == old_item.val,
        low.child == old_item.child,
        o <= path.len(),
        o == path.len() ==> second is None && it.child == (if graft is Some {
            graft
        } else {
            Some(mid as usize)
        }) && it.val is None == bare,
        o < path.len() ==> it.child == Some(mid as usize) && (second matches Some(x) && x.path@
            == path.subrange(o, path.len() as int) && x.child == graft && x.val is None == bare),
        mid <= usize::MAX,
        mid < nodes.len(),
        nodes_wf(nodes),
        nodes[mid as int].items@ == match second {
            None => seq![low],
            Some(x) => seq![low, x],
        },
        p.len() > 0,
    ensures
        follows(nodes, walk(nodes, old_item, p), walk(nodes, it, p), path, graft, p, bare),
{
    let q = old_item.path@;
    let head = it.path@;
    let items = nodes[mid as int].items@;
    assert(items_wf(items, mid));
    lemma_overlap(q, path);
    lemma_overlap(q, p);
    lemma_overlap(head, p);
    lemma_overlap(path, p);
    lemma_begins(p, head);
    lemma_begins(p, path);
    let m = overlap(q, p) as int;
    if m < o {
        // The paths part within the head, or `p` ends there.
        assert forall|i: int| 0 <= i < m implies path[i] == p[i] && head[i] == p[i] by {
            assert(q[i] == p[i]);
            assert(q[i] == path[i]);
        }
        assert(q[m] == path[m]);
        assert(head[m] == q[m]);
        lemma_overlap_is(path, p, m);
        lemma_overlap_is(head, p, m);
    } else {
        assert forall|i: int| 0 <= i < o implies path[i] == p[i] && head[i] == p[i] by {
            assert(q[i] == p[i]);
            assert(q[i] == path[i]);
        }
        lemma_overlap_is(head, p, o);
        if overlap(path, p) < o {
            let k = overlap(path, p) as int;
            assert(path[k] == p[k]);
        }
        lemma_begins_behind(p, path, o);
        let rp = p.subrange(o, p.len() as int);
        if rp.len() > 0 {
            let rq = low.path@;
            lemma_overlap_behind(q, p, o);
            lemma_item_found(items, mid, 0);
            lemma_item_index(items, rp[0], 0);
            lemma_overlap(rq, rp);
            assert(items[0] == low);
            if let Some(x) = second {
                assert(items[1] == x);
                lemma_item_found(items, mid, 1);
                assert(rq[0] != x.path@[0]);
            }
            if m > o {
                assert(rq[0] == rp[0]);
                assert(item_index(items, rp[0], 0) == Some(0nat));
                assert(node_share(nodes, mid, rp) == walk(nodes, low, rp));
                let k = overlap(rq, rp) as int;
                assert(k == m - o);
                assert(rp.subrange(k, rp.len() as int) =~= p.subrange(m, p.len() as int));
                assert(walk(nodes, low, rp) == walk(nodes, old_item, p));
                if o < path.len() {
                    let rest = path.subrange(o, path.len() as int);
                    assert(rest[0] != rp[0]);
                    lemma_overlap_is(rest, rp, 0);
                    lemma_begins(rp, rest);
                }
            } else {
                assert(rq[0] == q[o]);
                assert(rp[0] == p[o]);
                assert(rq[0] != rp[0]);
                assert(walk(nodes, old_item, p) is None);
                if o < path.len() {
                    let x = second->Some_0;
                    lemma_walk_new(nodes, x, x.path@, graft, rp);
                    if rp[0] == x.path@[0] {
                        assert(item_index(items, rp[0], 0) == Some(1nat));
                        assert(node_share(nodes, mid, rp) == walk(nodes, x, rp));
                    } else {
                        assert(item_index(items, rp[0], 0) is None);
                        lemma_overlap_is(x.path@, rp, 0);
                        lemma_begins(rp, x.path@);
                    }
                } else {
                    assert(item_index(items, rp[0], 0) is None);
                }
            }
        } else {
            lemma_begins(p, path);
        }
    }
}

/// The path itself, under a name by which it can be picked out.
pub(crate) open spec fn some_path(p: Seq<u8>) -> Seq<u8> {
    p
}

/// What an edit makes of the numbers along an edge.
pub(crate) open spec fn edge_follows<V>(
    nodes: Seq<PNode<V>>,
    old_item: Item<V>,
    it: Item<V>,
    path: Seq<u8>,
    graft: Option<usize>,
    p: Seq<u8>,
    bare: bool,
) -> bool {
    follows(nodes, walk(nodes, old_item, p), walk(nodes, it, p), path, graft, p, bare)
}

/// Paths that begin with another byte are none of the edit's business.
pub(crate) proof fn lemma_follows_off<V>(
    nodes: Seq<PNode<V>>,
    share: Option<u64>,
    path: Seq<u8>,
    graft: Option<usize>,
    p: Seq<u8>,
    bare: bool,
)
    requires
        path.len() > 0,
        p.len() > 0,
        p[0] != path[0],
    ensures
        follows(nodes, share, share, path, graft, p, bare),
{
    lemma_begins(p, path);
}

/// A node with a single edge.
pub(crate) proof fn lemma_share_only<V>(nodes: Seq<PNode<V>>, n: nat, it: Item<V>, p: Seq<u8>)
    requires
        nodes_wf(nodes),
        n < nodes.len(),
        nodes[n as int].items@ == seq![it],
        p.len() > 0,
    ensures
        node_share(nodes, n, p) == if p[0] == it.path@[0] {
            walk(nodes, it, p)
        } else {
            None
        },
{
    let items = nodes[n as int].items@;
    assert(items_wf(items, n));
    assert(items[0] == it);
    lemma_item_index(items, p[0], 0);
    lemma_item_found(items, n, 0);
}

proof fn lemma_walk_stable<V>(
    nodes: Seq<PNode<V>>,
    more: Seq<PNode<V>>,
    it: Item<V>,
    p: Seq<u8>,
)
    requires
        nodes_wf(nodes),
        nodes_grown(nodes, more),
        it.child matches Some(c) ==> c < nodes.len(),
    ensures
        walk(more, it, p) == walk(nodes, it, p),
{
    if let Some(c) = it.child {
        let o = overlap(it.path@, p) as int;
        lemma_share_stable(nodes, more, c as nat, p.subrange(o, p.len() as int));
    }
}

/// What an edit makes of an edge stays so when nodes are added.
pub(crate) proof fn lemma_edge_lifted<V>(
    nodes: Seq<PNode<V>>,
    more: Seq<PNode<V>>,
    old_item: Item<V>,
    same: Item<V>,
    it: Item<V>,
    path: Seq<u8>,
    graft: Option<usize>,
    p: Seq<u8>,
    bare: bool,
)
    requires
        nodes_wf(nodes),
        nodes_grown(nodes, more),
        old_item.child matches Some(c) ==> c < nodes.len(),
        it.child matches Some(c) ==> c < nodes.len(),
        graft matches Some(c) ==> c < nodes.len(),
        same_item(old_item, same),
        edge_follows(nodes, old_item, it, path, graft, p, bare),
    ensures
        follows(more, walk(more, same, p), walk(more, it, p), path, graft, p, bare),
{
    lemma_walk_stable(nodes, more, old_item, p);
    lemma_walk_stable(nodes, more, it, p);
    if let Some(c) = graft {
        lemma_share_stable(
            nodes,
            more,
            c as nat,
            p.subrange(path.len() as int, p.len() as int),
        );
    }
}

} // verus!

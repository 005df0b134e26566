//! The nodes of a trie in memory, and how paths are added to it.

use vstd::prelude::*;

use crate::path_map::shares::{
    behind, edge_follows, follows, lemma_edge_lifted, lemma_follows_off, lemma_share_only,
    lemma_share_replaced, lemma_share_stable, lemma_walk_down, lemma_walk_end, lemma_walk_new,
    lemma_walk_split, some_path,
};
use crate::slices::{begins_with, find_prefix_overlap, lemma_overlap, overlap, part, push_slice};
use crate::trie::{chain, Trie};
use crate::utils::byte_mask::{BitMask, ByteMask};

verus! {

/// The bytes of an edge, the value at its end, and the node that goes on from there.
pub struct Item<V> {
    pub path: Vec<u8>,
    pub val: Option<V>,
    pub child: Option<usize>,
}

/// A node: the edges that lead on from it. No two of them begin with the same byte.
pub struct PNode<V> {
    pub items: Vec<Item<V>>,
}

/// A map from paths to values, held as a trie.
///
/// Nodes are never changed once they are made: a new path makes new nodes for the way to it, and
/// the others stay shared. Each node refers only to nodes that were made before it.
pub struct PathMap<V> {
    pub(crate) nodes: Vec<PNode<V>>,
    pub(crate) root: usize,
    pub(crate) root_val: Option<V>,
}

/// The place of the edge that begins with `b`, from `from` on.
pub open spec fn item_index<V>(items: Seq<Item<V>>, b: u8, from: nat) -> Option<nat>
    decreases items.len() - from,
{
    if from >= items.len() {
        None
    } else if items[from as int].path@.len() > 0 && items[from as int].path@[0] == b {
        Some(from)
    } else {
        item_index(items, b, from + 1)
    }
}

/// What is at the end of an edge.
pub open spec fn item_end<V>(nodes: Seq<PNode<V>>, item: Item<V>, lim: nat) -> Trie<V>
    decreases lim, 1nat,
{
    Trie {
        val: item.val,
        kids: match item.child {
            Some(c) => if c < lim {
                node_kids(nodes, c as nat)
            } else {
                Map::empty()
            },
            None => Map::empty(),
        },
    }
}

/// What leads on from the node at `i`.
pub open spec fn node_kids<V>(nodes: Seq<PNode<V>>, i: nat) -> Map<u8, Trie<V>>
    decreases i, 2nat,
{
    let items = nodes[i as int].items@;
    Map::new(
        |b: u8| item_index(items, b, 0) is Some,
        |b: u8|
            {
                let item = items[item_index(items, b, 0)->Some_0 as int];
                chain(item.path@.drop_first(), item_end(nodes, item, i))
            },
    )
}

/// Edges have bytes, begin with different ones, and lead to nodes before `lim`.
pub open spec fn items_wf<V>(items: Seq<Item<V>>, lim: nat) -> bool {
    &&& forall|j: int|
        0 <= j < items.len() ==> (#[trigger] items[j]).path@.len() > 0 && (items[j].child matches Some(
            c,
        ) ==> c < lim)
    &&& forall|j: int, k: int|
        0 <= j < k < items.len() ==> (#[trigger] items[j]).path@[0] != (#[trigger] items[k]).path@[0]
}

pub open spec fn nodes_wf<V>(nodes: Seq<PNode<V>>) -> bool {
    forall|i: int| 0 <= i < nodes.len() ==> items_wf((#[trigger] nodes[i]).items@, i as nat)
}

impl<V> PathMap<V> {
    pub closed spec fn wf(&self) -> bool {
        nodes_wf(self.nodes@) && self.root < self.nodes@.len()
    }

    /// The trie that the map stands for.
    pub closed spec fn trie(&self) -> Trie<V> {
        Trie { val: self.root_val, kids: node_kids(self.nodes@, self.root as nat) }
    }

    pub(crate) closed spec fn node_seq(&self) -> Seq<PNode<V>> {
        self.nodes@
    }

    /// A map without any paths.
    pub fn new() -> (r: Self)
        ensures
            r.wf(),
            r.trie() == Trie::<V>::empty(),
            forall|p: Seq<u8>| #[trigger] r.share(p) is None,
    {
        let mut nodes: Vec<PNode<V>> = Vec::new();
        nodes.push(PNode { items: Vec::new() });
        let r = PathMap { nodes, root: 0, root_val: None };
        assert(node_kids(r.nodes@, 0) =~= Map::empty());
        r
    }
}

/// The edge that begins with a byte is found by that byte, and no other is.
pub proof fn lemma_item_index<V>(items: Seq<Item<V>>, b: u8, from: nat)
    ensures
        match item_index(items, b, from) {
            Some(j) => {
                &&& from <= j < items.len()
                &&& items[j as int].path@.len() > 0
                &&& items[j as int].path@[0] == b
            },
            None => forall|j: int|
                from <= j < items.len() ==> !((#[trigger] items[j]).path@.len() > 0
                    && items[j].path@[0] == b),
        },
    decreases items.len() - from,
{
    if from < items.len() && !(items[from as int].path@.len() > 0 && items[from as int].path@[0]
        == b) {
        lemma_item_index(items, b, from + 1);
    }
}

/// The edge at `j` is the one that its first byte finds.
pub proof fn lemma_item_found<V>(items: Seq<Item<V>>, lim: nat, j: int)
    requires
        items_wf(items, lim),
        0 <= j < items.len(),
    ensures
        item_index(items, items[j].path@[0], 0) == Some(j as nat),
{
    let b = items[j].path@[0];
    lemma_item_index(items, b, 0);
    let k = item_index(items, b, 0)->Some_0 as int;
    if k < j {
        assert(items[k].path@[0] != items[j].path@[0]);
    } else if j < k {
        assert(items[j].path@[0] != items[k].path@[0]);
    }
}

/// More nodes behind the others do not change what those stand for.
pub proof fn lemma_nodes_stable<V>(nodes: Seq<PNode<V>>, more: Seq<PNode<V>>, i: nat)
    requires
        nodes_wf(nodes),
        nodes.len() <= more.len(),
        forall|k: int| 0 <= k < nodes.len() ==> #[trigger] nodes[k] == more[k],
        i < nodes.len(),
    ensures
        node_kids(more, i) == node_kids(nodes, i),
    decreases i,
{
    let items = nodes[i as int].items@;
    assert(more[i as int] == nodes[i as int]);
    assert forall|b: u8| #[trigger] node_kids(nodes, i).contains_key(b) implies node_kids(nodes, i)[b]
        == node_kids(more, i)[b] by {
        lemma_item_index(items, b, 0);
        let item = items[item_index(items, b, 0)->Some_0 as int];
        if let Some(c) = item.child {
            lemma_nodes_stable(nodes, more, c as nat);
        }
    }
    assert(node_kids(more, i).dom() =~= node_kids(nodes, i).dom());
    assert(node_kids(more, i) =~= node_kids(nodes, i));
}

/// What is at the end of an edge does not depend on how far the nodes may be.
pub proof fn lemma_end_later<V>(nodes: Seq<PNode<V>>, item: Item<V>, lim: nat, later: nat)
    requires
        item.child matches Some(c) ==> c < lim,
        lim <= later,
    ensures
        item_end(nodes, item, later) == item_end(nodes, item, lim),
{
}

/// What is done to a place: a value that it gets, and what is to lead on from it.
pub struct Edit<V> {
    pub val: Option<V>,
    pub kids: Option<Map<u8, Trie<V>>>,
}

/// The trie after an edit at the end of `path`, to which places are added as needed.
pub open spec fn put<V>(t: Trie<V>, path: Seq<u8>, e: Edit<V>) -> Trie<V>
    decreases path.len(),
{
    if path.len() == 0 {
        Trie {
            val: if e.val is Some {
                e.val
            } else {
                t.val
            },
            kids: match e.kids {
                Some(kids) => kids,
                None => t.kids,
            },
        }
    } else {
        let sub = if t.kids.contains_key(path[0]) {
            t.kids[path[0]]
        } else {
            Trie::empty()
        };
        Trie { val: t.val, kids: t.kids.insert(path[0], put(sub, path.drop_first(), e)) }
    }
}

/// An edit changes the place at the end of the path, the places below it where it says so, and no
/// other value.
pub proof fn lemma_put_get<V>(t: Trie<V>, path: Seq<u8>, e: Edit<V>, q: Seq<u8>)
    ensures
        q == path ==> put(t, path, e).get(q) == if e.val is Some {
            e.val
        } else {
            t.get(q)
        },
        !begins_with(q, path) ==> put(t, path, e).get(q) == t.get(q),
        q != path && e.kids is None ==> put(t, path, e).get(q) == t.get(q),
        put(t, path, e).has(path),
    decreases path.len(),
{
    if path.len() == 0 {
        assert(q.subrange(0, 0) =~= path);
        if q.len() == 0 {
            assert(q =~= path);
        }
    } else {
        let p1 = path.drop_first();
        let sub = if t.kids.contains_key(path[0]) {
            t.kids[path[0]]
        } else {
            Trie::empty()
        };
        if q.len() > 0 {
            let q1 = q.drop_first();
            lemma_put_get(sub, p1, e, q1);
            if q[0] == path[0] {
                if begins_with(q1, p1) {
                    assert(q.subrange(0, path.len() as int) =~= seq![q[0]] + q1.subrange(
                        0,
                        p1.len() as int,
                    ));
                    assert(path =~= seq![path[0]] + p1);
                }
                if q1 == p1 {
                    assert(q =~= seq![q[0]] + q1);
                    assert(path =~= seq![path[0]] + p1);
                }
            }
        }
        lemma_put_get(sub, p1, e, p1);
    }
}

/// A path into nothing becomes a chain.
proof fn lemma_put_empty<V>(path: Seq<u8>, e: Edit<V>)
    ensures
        put(Trie::empty(), path, e) == chain(path, put(Trie::empty(), Seq::empty(), e)),
    decreases path.len(),
{
    if path.len() > 0 {
        lemma_put_empty(path.drop_first(), e);
        assert(put(Trie::empty(), path, e).kids =~= chain(
            path,
            put(Trie::empty(), Seq::empty(), e),
        ).kids);
    } else {
        assert(path =~= Seq::empty());
    }
}

/// Along a chain that begins as the path does, the edit is further down.
proof fn lemma_put_chain<V>(q: Seq<u8>, end: Trie<V>, path: Seq<u8>, e: Edit<V>, o: int)
    requires
        0 <= o <= overlap(q, path),
    ensures
        o <= q.len(),
        o <= path.len(),
        put(chain(q, end), path, e) == chain(
            q.subrange(0, o),
            put(
                chain(q.subrange(o, q.len() as int), end),
                path.subrange(o, path.len() as int),
                e,
            ),
        ),
    decreases o,
{
    lemma_overlap(q, path);
    if o == 0 {
        assert(q.subrange(0, q.len() as int) =~= q);
        assert(path.subrange(0, path.len() as int) =~= path);
    } else {
        let q1 = q.drop_first();
        let p1 = path.drop_first();
        lemma_put_chain(q1, end, p1, e, o - 1);
        assert(q1.subrange(o - 1, q1.len() as int) =~= q.subrange(o, q.len() as int));
        assert(p1.subrange(o - 1, p1.len() as int) =~= path.subrange(o, path.len() as int));
        assert(q.subrange(0, o).drop_first() =~= q1.subrange(0, o - 1));
        assert(put(chain(q, end), path, e).kids =~= chain(
            q.subrange(0, o),
            put(
                chain(q.subrange(o, q.len() as int), end),
                path.subrange(o, path.len() as int),
                e,
            ),
        ).kids);
    }
}

/// The edit that a value and a node to lead on to make.
pub open spec fn edit_of<V>(nodes: Seq<PNode<V>>, val: Option<V>, graft: Option<usize>) -> Edit<V> {
    Edit {
        val,
        kids: match graft {
            Some(c) => Some(node_kids(nodes, c as nat)),
            None => None,
        },
    }
}

/// More nodes have been added behind the others.
pub open spec fn nodes_grown<V>(a: Seq<PNode<V>>, b: Seq<PNode<V>>) -> bool {
    &&& a.len() <= b.len()
    &&& forall|k: int| 0 <= k < a.len() ==> #[trigger] a[k] == b[k]
}

pub(crate) proof fn lemma_nodes_grown_trans<V>(a: Seq<PNode<V>>, b: Seq<PNode<V>>, c: Seq<PNode<V>>)
    requires
        nodes_grown(a, b),
        nodes_grown(b, c),
    ensures
        nodes_grown(a, c),
{
    assert forall|k: int| 0 <= k < a.len() implies #[trigger] a[k] == c[k] by {
        assert(a[k] == b[k]);
        assert(b[k] == c[k]);
    }
}

/// Two edges say the same.
pub open spec fn same_item<V>(a: Item<V>, b: Item<V>) -> bool {
    a.path@ == b.path@ && a.val == b.val && a.child == b.child
}

pub(crate) fn copy_item<V: Copy>(item: &Item<V>) -> (r: Item<V>)
    ensures
        same_item(r, *item),
{
    let mut path: Vec<u8> = Vec::new();
    push_slice(&mut path, item.path.as_slice());
    assert(path@ =~= item.path@);
    Item { path, val: item.val, child: item.child }
}

/// A node whose edges are those of another, but for one.
proof fn lemma_kids_replaced<V>(
    nodes: Seq<PNode<V>>,
    i: nat,
    items: Seq<Item<V>>,
    n: nat,
    j: int,
    b: u8,
)
    requires
        nodes_wf(nodes),
        i < n < nodes.len(),
        items == nodes[n as int].items@,
        0 <= j < items.len(),
        items[j].path@[0] == b,
        ({
            let old = nodes[i as int].items@;
            &&& items.len() == if j < old.len() {
                old.len()
            } else {
                old.len() + 1
            }
            &&& j < old.len() ==> old[j].path@[0] == b
            &&& j >= old.len() ==> item_index(old, b, 0) is None
            &&& forall|k: int|
                0 <= k < old.len() && k != j ==> same_item(#[trigger] items[k], old[k])
        }),
    ensures
        node_kids(nodes, n) == node_kids(nodes, i).insert(
            b,
            chain(items[j].path@.drop_first(), item_end(nodes, items[j], n)),
        ),
{
    let old = nodes[i as int].items@;
    let x = node_kids(nodes, n);
    let y = node_kids(nodes, i).insert(
        b,
        chain(items[j].path@.drop_first(), item_end(nodes, items[j], n)),
    );
    assert(items_wf(items, n));
    assert(items_wf(old, i));
    lemma_kid(nodes, n, j);
    assert forall|c: u8| c != b implies #[trigger] x.contains_key(c) == y.contains_key(c) && (
    x.contains_key(c) ==> x[c] == y[c]) by {
        lemma_item_index(items, c, 0);
        lemma_item_index(old, c, 0);
        if let Some(k) = item_index(old, c, 0) {
            assert(same_item(items[k as int], old[k as int]));
            lemma_kid(nodes, n, k as int);
            lemma_kid(nodes, i, k as int);
            lemma_end_later(nodes, old[k as int], i, n);
        } else if let Some(k) = item_index(items, c, 0) {
            assert(same_item(items[k as int], old[k as int]));
        }
    }
    assert(x.dom() =~= y.dom());
    assert(x =~= y);
}

/// The edge at `j` of a node, seen as what it leads to.
pub proof fn lemma_kid<V>(nodes: Seq<PNode<V>>, i: nat, j: int)
    requires
        items_wf(nodes[i as int].items@, i),
        0 <= j < nodes[i as int].items@.len(),
    ensures
        ({
            let item = nodes[i as int].items@[j];
            let b = item.path@[0];
            &&& node_kids(nodes, i).contains_key(b)
            &&& node_kids(nodes, i)[b] == chain(item.path@.drop_first(), item_end(nodes, item, i))
        }),
{
    lemma_item_found(nodes[i as int].items@, i, j);
}

/// The edge that begins with `b`, or the number of edges where none does.
pub(crate) fn find_item<V>(items: &Vec<Item<V>>, b: u8, Ghost(lim): Ghost<nat>) -> (j: usize)
    requires
        items_wf(items@, lim),
    ensures
        j <= items@.len(),
        j < items@.len() ==> items@[j as int].path@[0] == b && item_index(items@, b, 0) == Some(
            j as nat,
        ),
        j == items@.len() ==> item_index(items@, b, 0) is None,
{
    let mut j: usize = 0;
    proof {
        lemma_item_index(items@, b, 0);
    }
    while j < items.len()
        invariant
            j <= items@.len(),
            items_wf(items@, lim),
            forall|k: int| 0 <= k < j ==> (#[trigger] items@[k]).path@[0] != b,
        decreases items@.len() - j,
    {
        assert(items@[j as int].path@.len() > 0);
        if items[j].path[0] == b {
            proof {
                lemma_item_found(items@, lim, j as int);
            }
            return j;
        }
        j = j + 1;
    }
    j
}

/// A new node with the edges of the node at `i`, in which the edge at `j` is `item`.
fn push_with_item<V: Copy>(nodes: &mut Vec<PNode<V>>, i: usize, j: usize, item: Item<V>) -> (n:
    usize)
    requires
        nodes_wf(old(nodes)@),
        i < old(nodes)@.len(),
        j <= old(nodes)@[i as int].items@.len(),
        item.path@.len() > 0,
        item.child matches Some(c) ==> c < old(nodes)@.len(),
        ({
            let old_items = old(nodes)@[i as int].items@;
            &&& j < old_items.len() ==> old_items[j as int].path@[0] == item.path@[0]
            &&& j == old_items.len() ==> item_index(old_items, item.path@[0], 0) is None
        }),
    ensures
        n == old(nodes)@.len(),
        nodes_wf(final(nodes)@),
        final(nodes)@.len() == n + 1,
        nodes_grown(old(nodes)@, final(nodes)@),
        node_kids(final(nodes)@, n as nat) == node_kids(final(nodes)@, i as nat).insert(
            item.path@[0],
            chain(item.path@.drop_first(), item_end(final(nodes)@, item, n as nat)),
        ),
        ({
            let old_items = old(nodes)@[i as int].items@;
            let items = final(nodes)@[n as int].items@;
            &&& items.len() == if j < old_items.len() {
                old_items.len()
            } else {
                old_items.len() + 1
            }
            &&& items[j as int] == item
            &&& forall|k: int|
                0 <= k < old_items.len() && k != j ==> same_item(#[trigger] items[k], old_items[k])
        }),
{
    let ghost before = nodes@;
    let ghost old_items = nodes@[i as int].items@;
    let ghost b = item.path@[0];
    let n = nodes.len();
    let mut items: Vec<Item<V>> = Vec::new();
    let mut k: usize = 0;
    let ghost the_item = item;
    while k < j
        invariant
            k <= j,
            nodes@ == before,
            i < before.len(),
            old_items == before[i as int].items@,
            j <= old_items.len(),
            items@.len() == k,
            forall|x: int| 0 <= x < k ==> same_item(#[trigger] items@[x], old_items[x]),
        decreases j - k,
    {
        items.push(copy_item(&nodes[i].items[k]));
        k = k + 1;
    }
    items.push(item);
    assert(items.len() == j + 1);
    k = j + 1;
    while k < nodes[i].items.len()
        invariant
            j < k,
            nodes@ == before,
            i < before.len(),
            old_items == before[i as int].items@,
            j <= old_items.len(),
            items@.len() == k,
            k <= old_items.len() || k == j + 1,
            items@[j as int] == the_item,
            forall|x: int|
                0 <= x < k && x != j ==> same_item(#[trigger] items@[x], old_items[x]),
        decreases old_items.len() - k,
    {
        items.push(copy_item(&nodes[i].items[k]));
        k = k + 1;
    }
    let ghost new_items = items@;
    proof {
        assert(items_wf(old_items, i as nat));
        lemma_item_index(old_items, b, 0);
        assert forall|x: int| 0 <= x < new_items.len() implies (#[trigger] new_items[x]).path@.len()
            > 0 && (new_items[x].child matches Some(c) ==> c < n) by {
            if x != j {
                assert(same_item(new_items[x], old_items[x]));
            }
        }
        assert forall|x: int, y: int| 0 <= x < y < new_items.len() implies (
        #[trigger] new_items[x]).path@[0] != (#[trigger] new_items[y]).path@[0] by {
            if x != j {
                assert(same_item(new_items[x], old_items[x]));
            }
            if y != j {
                assert(same_item(new_items[y], old_items[y]));
            }
            if x != j && y != j {
                assert(old_items[x].path@[0] != old_items[y].path@[0]);
            } else if j < old_items.len() {
                assert(old_items[x].path@[0] != old_items[y].path@[0]);
            }
        }
        assert(items_wf(new_items, n as nat));
    }
    nodes.push(PNode { items });
    proof {
        assert forall|x: int| 0 <= x < nodes@.len() implies items_wf(
            (#[trigger] nodes@[x]).items@,
            x as nat,
        ) by {
            if x < before.len() {
                assert(nodes@[x] == before[x]);
            }
        }
        lemma_kids_replaced(nodes@, i as nat, new_items, n as nat, j as int, b);
    }
    n
}

/// A new node with a single edge, or two that begin with different bytes.
fn push_node<V>(nodes: &mut Vec<PNode<V>>, first: Item<V>, second: Option<Item<V>>) -> (n: usize)
    requires
        nodes_wf(old(nodes)@),
        first.path@.len() > 0,
        first.child matches Some(c) ==> c < old(nodes)@.len(),
        second matches Some(item) ==> {
            &&& item.path@.len() > 0
            &&& item.path@[0] != first.path@[0]
            &&& item.child matches Some(c) ==> c < old(nodes)@.len()
        },
    ensures
        n == old(nodes)@.len(),
        nodes_wf(final(nodes)@),
        final(nodes)@.len() == n + 1,
        nodes_grown(old(nodes)@, final(nodes)@),
        ({
            let one = Map::<u8, Trie<V>>::empty().insert(
                first.path@[0],
                chain(first.path@.drop_first(), item_end(final(nodes)@, first, n as nat)),
            );
            node_kids(final(nodes)@, n as nat) == match second {
                None => one,
                Some(item) => one.insert(
                    item.path@[0],
                    chain(item.path@.drop_first(), item_end(final(nodes)@, item, n as nat)),
                ),
            }
        }),
        final(nodes)@[n as int].items@ == match second {
            None => seq![first],
            Some(item) => seq![first, item],
        },
{
    let ghost before = nodes@;
    let ghost other = second;
    let n = nodes.len();
    let mut items: Vec<Item<V>> = Vec::new();
    items.push(first);
    if let Some(item) = second {
        items.push(item);
    }
    let ghost its = items@;
    nodes.push(PNode { items });
    proof {
        assert(its =~= match other {
            None => seq![first],
            Some(item) => seq![first, item],
        });
        assert(items_wf(its, n as nat));
        assert forall|x: int| 0 <= x < nodes@.len() implies items_wf(
            (#[trigger] nodes@[x]).items@,
            x as nat,
        ) by {
            if x < before.len() {
                assert(nodes@[x] == before[x]);
            }
        }
        let got = node_kids(nodes@, n as nat);
        let one = Map::<u8, Trie<V>>::empty().insert(
            first.path@[0],
            chain(first.path@.drop_first(), item_end(nodes@, first, n as nat)),
        );
        let want = match other {
            None => one,
            Some(item) => one.insert(
                item.path@[0],
                chain(item.path@.drop_first(), item_end(nodes@, item, n as nat)),
            ),
        };
        assert(nodes@[n as int].items@ == its);
        lemma_kid(nodes@, n as nat, 0);
        if other is Some {
            lemma_kid(nodes@, n as nat, 1);
        }
        assert forall|c: u8| #[trigger] got.contains_key(c) == want.contains_key(c) by {
            lemma_item_index(its, c, 0);
        }
        assert(got.dom() =~= want.dom());
        assert(got =~= want);
    }
    n
}

/// The bytes of `path` from `from` on.
fn tail_of(path: &[u8], from: usize, to: usize) -> (r: Vec<u8>)
    requires
        from <= to <= path@.len(),
    ensures
        r@ == path@.subrange(from as int, to as int),
{
    let mut r: Vec<u8> = Vec::new();
    push_slice(&mut r, part(path, from, to));
    assert(r@ =~= path@.subrange(from as int, to as int));
    r
}

/// What the edit makes of an edge `q` that parts from the path before its end.
proof fn lemma_split<V>(q: Seq<u8>, end: Trie<V>, rest: Seq<u8>, e: Edit<V>)
    requires
        q.len() > 0,
        rest.len() > 0 ==> rest[0] != q[0],
    ensures
        ({
            let t = put(chain(q, end), rest, e);
            let old = Map::<u8, Trie<V>>::empty().insert(q[0], chain(q.drop_first(), end));
            if rest.len() == 0 {
                t == Trie {
                    val: e.val,
                    kids: match e.kids {
                        Some(kids) => kids,
                        None => old,
                    },
                }
            } else {
                t == Trie {
                    val: None,
                    kids: old.insert(
                        rest[0],
                        chain(rest.drop_first(), put(Trie::empty(), Seq::empty(), e)),
                    ),
                }
            }
        }),
{
    let c = chain(q, end);
    let old = Map::<u8, Trie<V>>::empty().insert(q[0], chain(q.drop_first(), end));
    assert(c.kids =~= old);
    if rest.len() > 0 {
        lemma_put_empty::<V>(rest.drop_first(), e);
    }
}

/// A new node that stands for the node at `i` after an edit at the end of `path`.
fn edit_node<V: Copy>(
    nodes: &mut Vec<PNode<V>>,
    i: usize,
    path: &[u8],
    val: Option<V>,
    graft: Option<usize>,
) -> (n: usize)
    requires
        nodes_wf(old(nodes)@),
        i < old(nodes)@.len(),
        path@.len() > 0,
        graft matches Some(c) ==> c < old(nodes)@.len(),
    ensures
        n < final(nodes)@.len(),
        nodes_wf(final(nodes)@),
        nodes_grown(old(nodes)@, final(nodes)@),
        node_kids(final(nodes)@, n as nat) == put(
            Trie { val: None, kids: node_kids(old(nodes)@, i as nat) },
            path@,
            edit_of(old(nodes)@, val, graft),
        ).kids,
        forall|p: Seq<u8>|
            p.len() > 0 ==> follows(
                final(nodes)@,
                node_share(final(nodes)@, i as nat, p),
                #[trigger] node_share(final(nodes)@, n as nat, p),
                path@,
                graft,
                p,
                val is None && (Trie { val: None, kids: node_kids(old(nodes)@, i as nat) }).get(
                    path@,
                ) is None,
            ),
    decreases path@.len(),
{
    let ghost before = nodes@;
    let ghost e = edit_of(before, val, graft);
    let ghost kids = node_kids(before, i as nat);
    let ghost lim = i as nat;
    assert(items_wf(before[i as int].items@, lim));
    let b = path[0];
    let j = find_item(&nodes[i].items, b, Ghost(lim));
    let ghost leaf = put(Trie::<V>::empty(), Seq::empty(), e);
    let ghost here = Trie::<V> { val: None, kids };
    let ghost bare = val is None && here.get(path@) is None;
    proof {
        lemma_node_walk(before, lim, None, path@);
    }
    if j == nodes[i].items.len() {
        // A new edge.
        let item = Item { path: tail_of(path, 0, path.len()), val, child: graft };
        let n = push_with_item(nodes, i, j, item);
        proof {
            assert(item.path@ =~= path@);
            lemma_nodes_stable(before, nodes@, i as nat);
            lemma_put_empty::<V>(path@.drop_first(), e);
            if let Some(c) = graft {
                lemma_nodes_stable(before, nodes@, c as nat);
            }
            assert(!kids.contains_key(b));
            assert(item_end(nodes@, item, n as nat) == leaf);
            assert(nodes@[i as int] == before[i as int]);
            assert forall|p: Seq<u8>| p.len() > 0 implies follows(
                nodes@,
                node_share(nodes@, i as nat, p),
                #[trigger] node_share(nodes@, n as nat, p),
                path@,
                graft,
                p,
                bare,
            ) by {
                lemma_share_replaced(nodes@, i as nat, n as nat, j as int, p);
                if p[0] == b {
                    lemma_walk_new(nodes@, item, path@, graft, p);
                } else {
                    lemma_follows_off(nodes@, node_share(nodes@, i as nat, p), path@, graft, p, bare);
                }
            }
        }
        return n;
    }
    let old_item = copy_item(&nodes[i].items[j]);
    let ghost q = old_item.path@;
    let ghost end = item_end(before, old_item, lim);
    proof {
        lemma_kid(before, lim, j as int);
        assert(kids[b] == chain(q.drop_first(), end));
        lemma_overlap(q, path@);
    }
    let o = find_prefix_overlap(old_item.path.as_slice(), path);
    let ghost rest = path@.subrange(o as int, path@.len() as int);
    let ghost q_rest = q.subrange(o as int, q.len() as int);
    proof {
        assert(o >= 1) by {
            assert(q[0] == path@[0]);
        }
        // The edit of the edge, seen from behind its first byte.
        assert(overlap(q, path@) == 1 + overlap(q.drop_first(), path@.drop_first()));
        lemma_put_chain(q.drop_first(), end, path@.drop_first(), e, o - 1);
        assert(q.drop_first().subrange(o - 1, q.drop_first().len() as int) =~= q_rest);
        assert(path@.drop_first().subrange(o - 1, path@.drop_first().len() as int) =~= rest);
        assert(q.drop_first().subrange(0, o - 1) =~= q.subrange(0, o as int).drop_first());
    }
    let ghost target = put(chain(q_rest, end), rest, e);
    let item: Item<V>;
    if o == old_item.path.len() {
        // The edge is how the path begins.
        assert(q_rest =~= Seq::<u8>::empty());
        if o == path.len() {
            assert(rest =~= Seq::<u8>::empty());
            item =
            Item {
                path: old_item.path,
                val: if val.is_some() {
                    val
                } else {
                    old_item.val
                },
                child: if graft.is_some() {
                    graft
                } else {
                    old_item.child
                },
            };
            proof {
                assert(item.path@ =~= q.subrange(0, o as int));
                assert(item_end(before, item, before.len()) == target);
                assert(item.path@ =~= path@);
                assert forall|p: Seq<u8>| p.len() > 0 implies edge_follows(
                    nodes@,
                    old_item,
                    item,
                    path@,
                    graft,
                    #[trigger] some_path(p),
                    bare,
                ) by {
                    lemma_walk_end(nodes@, old_item, item, graft, p);
                }
            }
        } else {
            let child = match old_item.child {
                Some(c) => edit_node(nodes, c, part(path, o, path.len()), val, graft),
                None => {
                    let only = Item { path: tail_of(path, o, path.len()), val, child: graft };
                    let n = push_node(nodes, only, None);
                    proof {
                        if let Some(c) = graft {
                            lemma_nodes_stable(before, nodes@, c as nat);
                        }
                        lemma_put_empty::<V>(rest.drop_first(), e);
                        assert(item_end(nodes@, only, n as nat) == leaf);
                        let none = Trie::<V> { val: old_item.val, kids: Map::empty() };
                        assert(end == none);
                        assert(put(end, rest, e).kids =~= node_kids(nodes@, n as nat));
                        assert(only.path@ =~= rest);
                        assert forall|rp: Seq<u8>| rp.len() > 0 implies follows(
                            nodes@,
                            None,
                            #[trigger] node_share(nodes@, n as nat, rp),
                            rest,
                            graft,
                            rp,
                            bare,
                        ) by {
                            lemma_share_only(nodes@, n as nat, only, rp);
                            if rp[0] == rest[0] {
                                lemma_walk_new(nodes@, only, rest, graft, rp);
                            } else {
                                lemma_follows_off(nodes@, None, rest, graft, rp, bare);
                            }
                        }
                    }
                    n
                },
            };
            item = Item { path: old_item.path, val: old_item.val, child: Some(child) };
            proof {
                assert(item.path@ =~= q.subrange(0, o as int));
                assert(put(end, rest, e).kids =~= node_kids(nodes@, child as nat));
                assert(item_end(nodes@, item, nodes@.len()) == target);
                assert(begins_with(path@, item.path@)) by {
                    assert(path@.subrange(0, o as int) =~= q);
                }
                assert forall|p: Seq<u8>| p.len() > 0 implies edge_follows(
                    nodes@,
                    old_item,
                    item,
                    path@,
                    graft,
                    #[trigger] some_path(p),
                    bare,
                ) by {
                    let rp = p.subrange(o as int, p.len() as int);
                    if p.len() > o {
                        assert(node_share(nodes@, child as nat, rp) == behind(nodes@, item, rp));
                    }
                    lemma_walk_down(nodes@, old_item, item, path@, graft, p, bare);
                }
            }
        }
    } else {
        // The edge and the path part: a node in between leads on to both.
        let low = Item {
            path: tail_of(old_item.path.as_slice(), o, old_item.path.len()),
            val: old_item.val,
            child: old_item.child,
        };
        proof {
            lemma_split(q_rest, end, rest, e);
        }
        let second = if o == path.len() {
            None
        } else {
            Some(Item { path: tail_of(path, o, path.len()), val, child: graft })
        };
        let ghost other = second;
        let mid = push_node(nodes, low, second);
        proof {
            lemma_end_later(before, old_item, lim, before.len());
            if let Some(c) = graft {
                lemma_nodes_stable(before, nodes@, c as nat);
            }
            if let Some(c) = old_item.child {
                lemma_nodes_stable(before, nodes@, c as nat);
            }
            assert(item_end(nodes@, low, mid as nat) == end);
            if let Some(x) = other {
                assert(item_end(nodes@, x, mid as nat) == leaf);
            }
        }
        item =
        Item {
            path: tail_of(old_item.path.as_slice(), 0, o),
            val: if o == path.len() {
                val
            } else {
                None
            },
            child: if o == path.len() && graft.is_some() {
                graft
            } else {
                Some(mid)
            },
        };
        proof {
            assert(item_end(nodes@, item, nodes@.len()) == target);
            assert forall|p: Seq<u8>| p.len() > 0 implies edge_follows(
                nodes@,
                old_item,
                item,
                path@,
                graft,
                #[trigger] some_path(p),
                bare,
            ) by {
                lemma_walk_split(
                    nodes@,
                    old_item,
                    item,
                    low,
                    other,
                    mid as nat,
                    o as int,
                    path@,
                    graft,
                    p,
                    bare,
                );
            }
        }
    }
    let ghost now = nodes@;
    let ghost new_item = item;
    let n = push_with_item(nodes, i, j, item);
    proof {
        lemma_nodes_grown_trans(before, now, nodes@);
        lemma_nodes_stable(before, nodes@, i as nat);
        if let Some(c) = new_item.child {
            lemma_nodes_stable(now, nodes@, c as nat);
        }
        assert(item_end(nodes@, new_item, n as nat) == target);
        assert(new_item.path@ == q.subrange(0, o as int));
        assert(put(kids[b], path@.drop_first(), e) == chain(new_item.path@.drop_first(), target));
        assert(nodes@[i as int] == before[i as int]);
        assert forall|p: Seq<u8>| p.len() > 0 implies follows(
            nodes@,
            node_share(nodes@, i as nat, p),
            #[trigger] node_share(nodes@, n as nat, p),
            path@,
            graft,
            p,
            bare,
        ) by {
            lemma_share_replaced(nodes@, i as nat, n as nat, j as int, p);
            if p[0] == b {
                assert(edge_follows(now, old_item, new_item, path@, graft, some_path(p), bare));
                lemma_edge_lifted(
                    now,
                    nodes@,
                    old_item,
                    before[i as int].items@[j as int],
                    new_item,
                    path@,
                    graft,
                    p,
                    bare,
                );
            } else {
                lemma_follows_off(nodes@, node_share(nodes@, i as nat, p), path@, graft, p, bare);
            }
        }
    }
    n
}

impl<V: Copy> PathMap<V> {
    /// An edit at the end of `path`.
    fn edit(&mut self, path: &[u8], val: Option<V>, graft: Option<usize>)
        requires
            old(self).wf(),
            graft matches Some(c) ==> c < old(self).nodes@.len(),
        ensures
            final(self).wf(),
            final(self).trie() == put(
                old(self).trie(),
                path@,
                edit_of(old(self).nodes@, val, graft),
            ),
            nodes_grown(old(self).nodes@, final(self).nodes@),
            forall|p: Seq<u8>|
                !begins_with(path@, p) ==> #[trigger] final(self).share(p) == match graft {
                    Some(c) => if begins_with(p, path@) {
                        old(self).share_at(
                            c,
                            p.subrange(path@.len() as int, p.len() as int),
                        )
                    } else {
                        old(self).share(p)
                    },
                    None => old(self).share(p),
                },
            path@.len() > 0 && final(self).trie().get(path@) is None ==> (graft matches Some(c)
                ==> final(self).share(path@) == Some(c as u64)),
    {
        let ghost before = *self;
        if path.len() == 0 {
            if val.is_some() {
                self.root_val = val;
            }
            if let Some(c) = graft {
                self.root = c;
            }
            proof {
                assert(forall|p: Seq<u8>| #[trigger] p.subrange(0, p.len() as int) =~= p);
                assert(forall|p: Seq<u8>| #[trigger] begins_with(p, path@)) by {
                    assert forall|p: Seq<u8>| #[trigger] begins_with(p, path@) by {
                        assert(p.subrange(0, 0) =~= path@);
                    }
                }
            }
        } else {
            let ghost root = self.root as nat;
            self.root = edit_node(&mut self.nodes, self.root, path, val, graft);
            proof {
                lemma_put_get(before.trie(), path@, edit_of(before.nodes@, val, graft), path@);
                assert forall|p: Seq<u8>| !begins_with(path@, p) implies #[trigger] self.share(p)
                    == match graft {
                    Some(c) => if begins_with(p, path@) {
                        before.share_at(c, p.subrange(path@.len() as int, p.len() as int))
                    } else {
                        before.share(p)
                    },
                    None => before.share(p),
                } by {
                    if p.len() == 0 {
                        assert(path@.subrange(0, 0) =~= p);
                    }
                    lemma_share_stable(before.nodes@, self.nodes@, root, p);
                    if let Some(c) = graft {
                        lemma_share_stable(
                            before.nodes@,
                            self.nodes@,
                            c as nat,
                            p.subrange(path@.len() as int, p.len() as int),
                        );
                    }
                }
                assert(self.share(path@) == node_share(self.nodes@, self.root as nat, path@));
            }
        }
    }

    /// Sets the value at the end of `path`, to which places are added as needed.
    pub fn insert(&mut self, path: &[u8], val: V)
        requires
            old(self).wf(),
        ensures
            final(self).wf(),
            final(self).trie() == put(
                old(self).trie(),
                path@,
                (Edit { val: Some(val), kids: None }),
            ),
            forall|p: Seq<u8>|
                !begins_with(path@, p) ==> #[trigger] final(self).share(p) == old(self).share(p),
    {
        self.edit(path, Some(val), None);
    }

    /// Adds places as needed for `path` to lead to one, without giving it a value.
    pub fn create_path(&mut self, path: &[u8])
        requires
            old(self).wf(),
        ensures
            final(self).wf(),
            final(self).trie() == put(old(self).trie(), path@, (Edit { val: None, kids: None })),
            forall|p: Seq<u8>|
                !begins_with(path@, p) ==> #[trigger] final(self).share(p) == old(self).share(p),
    {
        self.edit(path, None, None);
    }
}

/// `more` holds, from `off` on, the nodes of `nodes`, which refer to each other as they did.
spec fn shifted<V>(nodes: Seq<PNode<V>>, more: Seq<PNode<V>>, off: nat, count: nat) -> bool {
    &&& count <= nodes.len()
    &&& off + count <= more.len()
    &&& forall|i: int|
        0 <= i < count ==> shifted_items(
            (#[trigger] nodes[i]).items@,
            more[off + i].items@,
            off,
        )
}

spec fn shifted_items<V>(items: Seq<Item<V>>, more: Seq<Item<V>>, off: nat) -> bool {
    &&& items.len() == more.len()
    &&& forall|j: int| 0 <= j < items.len() ==> shifted_item(#[trigger] items[j], more[j], off)
}

spec fn shifted_item<V>(a: Item<V>, b: Item<V>, off: nat) -> bool {
    &&& a.path@ == b.path@
    &&& a.val == b.val
    &&& match a.child {
        Some(c) => b.child matches Some(d) && d == c + off,
        None => b.child is None,
    }
}

proof fn lemma_shifted_index<V>(items: Seq<Item<V>>, more: Seq<Item<V>>, off: nat, b: u8, from: nat)
    requires
        shifted_items(items, more, off),
    ensures
        item_index(more, b, from) == item_index(items, b, from),
    decreases items.len() - from,
{
    if from < items.len() {
        assert(shifted_item(items[from as int], more[from as int], off));
        lemma_shifted_index(items, more, off, b, from + 1);
    }
}

/// Such nodes stand for the same.
proof fn lemma_shifted<V>(
    nodes: Seq<PNode<V>>,
    more: Seq<PNode<V>>,
    off: nat,
    count: nat,
    i: nat,
)
    requires
        nodes_wf(nodes),
        shifted(nodes, more, off, count),
        i < count,
    ensures
        node_kids(more, off + i) == node_kids(nodes, i),
    decreases i,
{
    let items = nodes[i as int].items@;
    let moved = more[(off + i) as int].items@;
    let x = node_kids(nodes, i);
    let y = node_kids(more, off + i);
    assert(shifted_items(items, moved, off));
    assert forall|b: u8| #[trigger] x.contains_key(b) == y.contains_key(b) && (x.contains_key(b)
        ==> x[b] == y[b]) by {
        lemma_shifted_index(items, moved, off, b, 0);
        lemma_item_index(items, b, 0);
        if let Some(j) = item_index(items, b, 0) {
            assert(shifted_item(items[j as int], moved[j as int], off));
            if let Some(c) = items[j as int].child {
                lemma_shifted(nodes, more, off, count, c as nat);
            }
        }
    }
    assert(x.dom() =~= y.dom());
    assert(x =~= y);
}

impl<V> PathMap<V> {
    /// What leads on from the node `n`.
    pub closed spec fn kids_at(&self, n: usize) -> Map<u8, Trie<V>> {
        node_kids(self.nodes@, n as nat)
    }

    /// The number under which the place at the end of `q` below the node `n` is shared.
    pub closed spec fn share_at(&self, n: usize, q: Seq<u8>) -> Option<u64> {
        node_share(self.nodes@, n as nat, q)
    }

    /// How many nodes the map has made.
    pub closed spec fn made(&self) -> nat {
        self.nodes@.len()
    }

    /// How many nodes the map has made. The nodes are numbered from zero on.
    pub fn node_count(&self) -> (n: usize)
        ensures
            n == self.made(),
    {
        self.nodes.len()
    }

    /// The number of the node at the root.
    pub fn root_node(&self) -> (n: usize)
        requires
            self.wf(),
        ensures
            n < self.made(),
            n == self.top(),
            self.kids_at(n) == self.trie().kids,
    {
        self.root
    }

    pub(crate) proof fn lemma_kids_at(&self, n: usize)
        ensures
            self.kids_at(n) == node_kids(self.node_seq(), n as nat),
            self.items_at(n)@ == self.node_seq()[n as int].items@,
            self.top() == self.root,
            self.made() == self.node_seq().len(),
    {
    }

    /// What leads on from a node is what its edges say: each leads through its bytes to a place with its
    /// value, from which leads on what does from the node that it refers to.
    pub proof fn law_edges_tell_children(&self, n: usize, k: int, b: u8)
        requires
            self.wf(),
            n < self.made(),
            0 <= k < self.items_at(n)@.len(),
        ensures
            self.trie().kids == self.kids_at(self.top()),
            self.top() < self.made(),
            ({
                let item = self.items_at(n)@[k];
                &&& item.path@.len() > 0
                &&& item.child matches Some(c) ==> c < n
                &&& self.kids_at(n).contains_key(item.path@[0])
                &&& self.kids_at(n)[item.path@[0]] == chain(
                    item.path@.drop_first(),
                    Trie {
                        val: item.val,
                        kids: match item.child {
                            Some(c) => self.kids_at(c),
                            None => Map::empty(),
                        },
                    },
                )
            }),
            self.kids_at(n).contains_key(b) ==> exists|j: int|
                0 <= j < self.items_at(n)@.len() && (#[trigger] self.items_at(n)@[j]).path@[0] == b,
    {
        let nodes = self.nodes@;
        assert(items_wf(nodes[n as int].items@, n as nat));
        lemma_kid(nodes, n as nat, k);
        lemma_item_index(nodes[n as int].items@, b, 0);
        if self.kids_at(n).contains_key(b) {
            let j = item_index(nodes[n as int].items@, b, 0)->Some_0 as int;
            assert(self.items_at(n)@[j].path@[0] == b);
        }
    }

    /// The edges of a node.
    pub fn items(&self, n: usize) -> (r: &Vec<Item<V>>)
        requires
            self.wf(),
            n < self.made(),
        ensures
            *r == self.items_at(n),
            items_wf(r@, n as nat),
    {
        &self.nodes[n].items
    }

    /// The number of the node at the root.
    pub closed spec fn top(&self) -> usize {
        self.root
    }

    pub closed spec fn items_at(&self, n: usize) -> Vec<Item<V>> {
        self.nodes@[n as int].items
    }
}

impl<V: Copy> PathMap<V> {
    /// Takes over the nodes of another map, and returns the number of its root.
    pub fn adopt(&mut self, other: &PathMap<V>) -> (n: usize)
        requires
            old(self).wf(),
            other.wf(),
        ensures
            final(self).wf(),
            final(self).trie() == old(self).trie(),
            n < final(self).made(),
            final(self).kids_at(n) == other.trie().kids,
            old(self).made() <= final(self).made(),
            forall|m: usize|
                m < old(self).made() ==> #[trigger] final(self).kids_at(m) == old(self).kids_at(m),
            n >= old(self).made(),
            forall|p: Seq<u8>| #[trigger] final(self).share(p) == old(self).share(p),
            forall|q: Seq<u8>| #[trigger]
                final(self).share_at(n, q) == moved(other.share(q), old(self).made()),
    {
        let ghost before = self.nodes@;
        let off = self.nodes.len();
        let mut i: usize = 0;
        while i < other.nodes.len()
            invariant
                i <= other.nodes@.len(),
                off == before.len(),
                nodes_wf(before),
                nodes_wf(other.nodes@),
                nodes_wf(self.nodes@),
                nodes_grown(before, self.nodes@),
                self.nodes@.len() == off + i,
                shifted(other.nodes@, self.nodes@, off as nat, i as nat),
                self.root == old(self).root,
                self.root_val == old(self).root_val,
            decreases other.nodes@.len() - i,
        {
            let mut items: Vec<Item<V>> = Vec::new();
            let mut j: usize = 0;
            assert(self.nodes.len() == off + i);
            assert(items_wf(other.nodes@[i as int].items@, i as nat));
            while j < other.nodes[i].items.len()
                invariant
                    i < other.nodes@.len(),
                    j <= other.nodes@[i as int].items@.len(),
                    items_wf(other.nodes@[i as int].items@, i as nat),
                    off + i <= usize::MAX,
                    items@.len() == j,
                    forall|k: int|
                        0 <= k < j ==> shifted_item(
                            other.nodes@[i as int].items@[k],
                            #[trigger] items@[k],
                            off as nat,
                        ),
                decreases other.nodes@[i as int].items@.len() - j,
            {
                let mut item = copy_item(&other.nodes[i].items[j]);
                assert(other.nodes@[i as int].items@[j as int].path@.len() > 0);
                if let Some(c) = item.child {
                    item.child = Some(off + c);
                }
                items.push(item);
                j = j + 1;
            }
            let ghost its = items@;
            let ghost prev = self.nodes@;
            self.nodes.push(PNode { items });
            proof {
                let theirs = other.nodes@[i as int].items@;
                assert forall|k: int| 0 <= k < theirs.len() implies shifted_item(
                    #[trigger] theirs[k],
                    its[k],
                    off as nat,
                ) by {
                    assert(shifted_item(theirs[k], its[k], off as nat));
                }
                assert forall|k: int| 0 <= k < its.len() implies (#[trigger] its[k]).path@.len() > 0
                    && (its[k].child matches Some(c) ==> c < off + i) by {
                    assert(theirs[k].path@.len() > 0);
                }
                assert forall|x: int, y: int| 0 <= x < y < its.len() implies (
                #[trigger] its[x]).path@[0] != (#[trigger] its[y]).path@[0] by {
                    assert(theirs[x].path@[0] != theirs[y].path@[0]);
                }
                assert(items_wf(its, (off + i) as nat));
                assert forall|x: int| 0 <= x < self.nodes@.len() implies items_wf(
                    (#[trigger] self.nodes@[x]).items@,
                    x as nat,
                ) by {
                    if x < prev.len() {
                        assert(self.nodes@[x] == prev[x]);
                    }
                }
                assert forall|x: int| 0 <= x < i + 1 implies shifted_items(
                    (#[trigger] other.nodes@[x]).items@,
                    self.nodes@[off + x].items@,
                    off as nat,
                ) by {
                    if x < i {
                        assert(self.nodes@[off + x] == prev[off + x]);
                    }
                }
            }
            i = i + 1;
        }
        proof {
            lemma_nodes_stable(before, self.nodes@, self.root as nat);
            lemma_shifted(
                other.nodes@,
                self.nodes@,
                off as nat,
                i as nat,
                other.root as nat,
            );
            assert forall|m: usize| m < old(self).made() implies #[trigger] self.kids_at(m)
                == old(self).kids_at(m) by {
                lemma_nodes_stable(before, self.nodes@, m as nat);
            }
            assert(self.nodes.len() == self.nodes@.len());
            assert forall|p: Seq<u8>| #[trigger] self.share(p) == old(self).share(p) by {
                lemma_share_stable(before, self.nodes@, self.root as nat, p);
            }
            assert forall|q: Seq<u8>| #[trigger]
                self.share_at((off + other.root) as usize, q) == moved(
                other.share(q),
                off as nat,
            ) by {
                lemma_shifted_share(
                    other.nodes@,
                    self.nodes@,
                    off as nat,
                    i as nat,
                    other.root as nat,
                    q,
                );
            }
        }
        off + other.root
    }

    /// Lets the node `n` lead on from the end of `path`, to which places are added as needed.
    pub fn graft(&mut self, path: &[u8], n: usize)
        requires
            old(self).wf(),
            n < old(self).made(),
        ensures
            final(self).wf(),
            final(self).trie() == put(
                old(self).trie(),
                path@,
                (Edit { val: None, kids: Some(old(self).kids_at(n)) }),
            ),
            old(self).made() <= final(self).made(),
            forall|m: usize|
                m < old(self).made() ==> #[trigger] final(self).kids_at(m) == old(self).kids_at(m),
            forall|m: usize, q: Seq<u8>|
                m < old(self).made() ==> #[trigger] final(self).share_at(m, q) == old(
                    self,
                ).share_at(m, q),
            final(self).share(path@) == if path@.len() > 0 && final(self).trie().get(path@) is None {
                Some(n as u64)
            } else {
                None
            },
            forall|p: Seq<u8>|
                !begins_with(path@, p) ==> #[trigger] final(self).share(p) == if begins_with(
                    p,
                    path@,
                ) {
                    old(self).share_at(n, p.subrange(path@.len() as int, p.len() as int))
                } else {
                    old(self).share(p)
                },
    {
        self.edit(path, None, Some(n));
        proof {
            self.lemma_share(path@);
            assert forall|m: usize, q: Seq<u8>| m < old(self).made() implies #[trigger] self.share_at(
                m,
                q,
            ) == old(self).share_at(m, q) by {
                lemma_share_stable(old(self).nodes@, self.nodes@, m as nat, q);
            }
            assert forall|m: usize| m < old(self).made() implies #[trigger] self.kids_at(m) == old(
                self,
            ).kids_at(m) by {
                lemma_nodes_stable(old(self).nodes@, self.nodes@, m as nat);
            }
        }
    }

    /// Lets the paths of another map lead on from the end of `path`.
    pub fn graft_map(&mut self, path: &[u8], other: &PathMap<V>)
        requires
            old(self).wf(),
            other.wf(),
        ensures
            final(self).wf(),
            final(self).trie() == put(
                old(self).trie(),
                path@,
                (Edit { val: None, kids: Some(other.trie().kids) }),
            ),
            final(self).share(path@) is Some <==> path@.len() > 0 && final(self).trie().get(
                path@,
            ) is None,
            final(self).share(path@) matches Some(c) ==> c >= old(self).made(),
            forall|p: Seq<u8>|
                !begins_with(path@, p) ==> #[trigger] final(self).share(p) == if begins_with(
                    p,
                    path@,
                ) {
                    moved(
                        other.share(p.subrange(path@.len() as int, p.len() as int)),
                        old(self).made(),
                    )
                } else {
                    old(self).share(p)
                },
    {
        let n = self.adopt(other);
        self.graft(path, n);
    }
}

/// The number that a node has in a map which has taken it over behind `off` nodes.
pub open spec fn moved(share: Option<u64>, off: nat) -> Option<u64> {
    match share {
        Some(c) => Some((off + c) as u64),
        None => None,
    }
}

/// Nodes that were taken over have the numbers they had, behind those of the others.
proof fn lemma_shifted_share<V>(
    nodes: Seq<PNode<V>>,
    more: Seq<PNode<V>>,
    off: nat,
    count: nat,
    i: nat,
    q: Seq<u8>,
)
    requires
        nodes_wf(nodes),
        shifted(nodes, more, off, count),
        i < count,
    ensures
        node_share(more, off + i, q) == moved(node_share(nodes, i, q), off),
    decreases q.len(),
{
    let items = nodes[i as int].items@;
    let more_items = more[(off + i) as int].items@;
    assert(shifted_items(items, more_items, off));
    if q.len() > 0 {
        lemma_shifted_index(items, more_items, off, q[0], 0);
        lemma_item_index(items, q[0], 0);
        if let Some(j) = item_index(items, q[0], 0) {
            let it = items[j as int];
            assert(shifted_item(it, more_items[j as int], off));
            assert(items_wf(items, i));
            let o = overlap(it.path@, q) as int;
            lemma_overlap(it.path@, q);
            if 0 < o < q.len() && o == it.path@.len() {
                if let Some(c) = it.child {
                    lemma_shifted_share(
                        nodes,
                        more,
                        off,
                        count,
                        c as nat,
                        q.subrange(o, q.len() as int),
                    );
                }
            }
        }
    }
}

/// Where a path leads in the map.
#[derive(Clone, Copy)]
pub(crate) enum Loc {
    /// To the root.
    Root,
    /// Along an edge of a node, `off` bytes from its start.
    On { node: usize, item: usize, off: usize },
}

/// The place along an edge.
pub(crate) open spec fn loc_place<V>(nodes: Seq<PNode<V>>, root: Trie<V>, loc: Loc) -> Trie<V> {
    match loc {
        Loc::Root => root,
        Loc::On { node, item, off } => {
            let it = nodes[node as int].items@[item as int];
            chain(
                it.path@.subrange(off as int, it.path@.len() as int),
                item_end(nodes, it, node as nat),
            )
        },
    }
}

pub(crate) open spec fn loc_ok<V>(nodes: Seq<PNode<V>>, loc: Loc) -> bool {
    match loc {
        Loc::Root => true,
        Loc::On { node, item, off } => {
            &&& node < nodes.len()
            &&& item < nodes[node as int].items@.len()
            &&& 0 < off <= nodes[node as int].items@[item as int].path@.len()
        },
    }
}

/// The number of the node that goes on from a place without a value, where one begins there.
pub(crate) open spec fn loc_share<V>(nodes: Seq<PNode<V>>, loc: Loc) -> Option<u64> {
    match loc {
        Loc::Root => None,
        Loc::On { node, item, off } => {
            item_share(nodes[node as int].items@[item as int], off as int)
        },
    }
}

/// The number of the node that goes on from the place `off` bytes along an edge, where one begins
/// there and the place has no value.
pub(crate) open spec fn item_share<V>(item: Item<V>, off: int) -> Option<u64> {
    if off == item.path@.len() && item.val is None {
        match item.child {
            Some(c) => Some(c as u64),
            None => None,
        }
    } else {
        None
    }
}

/// The number under which the place at the end of `p` below a node is shared.
pub(crate) open spec fn node_share<V>(nodes: Seq<PNode<V>>, i: nat, p: Seq<u8>) -> Option<u64>
    decreases p.len(),
{
    let items = nodes[i as int].items@;
    if p.len() == 0 {
        None
    } else {
        match item_index(items, p[0], 0) {
            None => None,
            Some(j) => {
                let it = items[j as int];
                let o = overlap(it.path@, p) as int;
                if o == p.len() {
                    item_share(it, o)
                } else if 0 < o < p.len() && o == it.path@.len() {
                    match it.child {
                        Some(c) => node_share(nodes, c as nat, p.subrange(o, p.len() as int)),
                        None => None,
                    }
                } else {
                    None
                }
            },
        }
    }
}

/// Where a path leads along a chain.
proof fn lemma_chain_walk<V>(q: Seq<u8>, end: Trie<V>, p: Seq<u8>)
    ensures
        ({
            let o = overlap(q, p) as int;
            &&& o <= q.len()
            &&& o <= p.len()
            &&& chain(q, end).at(p) == if o == p.len() {
                Some(chain(q.subrange(o, q.len() as int), end))
            } else if o < q.len() {
                None
            } else {
                end.at(p.subrange(o, p.len() as int))
            }
        }),
    decreases q.len(),
{
    lemma_overlap(q, p);
    assert(q.subrange(0, q.len() as int) =~= q);
    assert(p.subrange(0, p.len() as int) =~= p);
    if q.len() > 0 && p.len() > 0 && q[0] == p[0] {
        let q1 = q.drop_first();
        let p1 = p.drop_first();
        lemma_chain_walk(q1, end, p1);
        let o = overlap(q1, p1) as int;
        assert(q1.subrange(o, q1.len() as int) =~= q.subrange(o + 1, q.len() as int));
        assert(p1.subrange(o, p1.len() as int) =~= p.subrange(o + 1, p.len() as int));
        assert(chain(q, end).kids[q[0]] == chain(q1, end));
    }
}

/// Where a path leads below a node.
proof fn lemma_node_walk<V>(nodes: Seq<PNode<V>>, i: nat, val: Option<V>, p: Seq<u8>)
    requires
        nodes_wf(nodes),
        i < nodes.len(),
        p.len() > 0,
    ensures
        ({
            let items = nodes[i as int].items@;
            let t = Trie { val, kids: node_kids(nodes, i) };
            match item_index(items, p[0], 0) {
                None => t.at(p) is None,
                Some(j) => {
                    let it = items[j as int];
                    let o = overlap(it.path@, p) as int;
                    &&& j < items.len()
                    &&& 1 <= o <= it.path@.len()
                    &&& o <= p.len()
                    &&& it.child matches Some(c) ==> c < i
                    &&& t.at(p) == if o == p.len() {
                        Some(
                            chain(
                                it.path@.subrange(o, it.path@.len() as int),
                                item_end(nodes, it, i),
                            ),
                        )
                    } else if o < it.path@.len() {
                        None
                    } else {
                        item_end(nodes, it, i).at(p.subrange(o, p.len() as int))
                    }
                },
            }
        }),
{
    let items = nodes[i as int].items@;
    assert(items_wf(items, i));
    lemma_item_index(items, p[0], 0);
    if let Some(j) = item_index(items, p[0], 0) {
        let it = items[j as int];
        let end = item_end(nodes, it, i);
        lemma_kid(nodes, i, j as int);
        lemma_chain_walk(it.path@, end, p);
        assert(chain(it.path@, end).kids[p[0]] == chain(it.path@.drop_first(), end));
    }
}

/// Where the place at the end of `p` has a number, it is the node of that number without a value.
pub(crate) proof fn lemma_node_share<V>(nodes: Seq<PNode<V>>, i: nat, val: Option<V>, p: Seq<u8>)
    requires
        nodes_wf(nodes),
        i < nodes.len(),
        i <= usize::MAX,
        nodes.len() <= usize::MAX,
    ensures
        node_share(nodes, i, p) matches Some(c) ==> (Trie { val, kids: node_kids(nodes, i) }).at(p)
            == Some(Trie { val: None, kids: node_kids(nodes, c as nat) }),
    decreases p.len(),
{
    if p.len() > 0 {
        let items = nodes[i as int].items@;
        lemma_node_walk(nodes, i, val, p);
        if let Some(j) = item_index(items, p[0], 0) {
            let it = items[j as int];
            let o = overlap(it.path@, p) as int;
            let end = item_end(nodes, it, i);
            if o == p.len() {
                if node_share(nodes, i, p) is Some {
                    assert(items.len() == nodes[i as int].items.len());
                    assert(it.path@.len() == it.path.len());
                    assert(it.path@.subrange(o, it.path@.len() as int) =~= Seq::<u8>::empty());
                }
            } else if o == it.path@.len() {
                if let Some(c) = it.child {
                    lemma_node_share(nodes, c as nat, it.val, p.subrange(o, p.len() as int));
                }
            }
        }
    }
}

impl<V> PathMap<V> {
    /// The number under which the place at the end of `p` is shared.
    pub closed spec fn share(&self, p: Seq<u8>) -> Option<u64> {
        node_share(self.nodes@, self.root as nat, p)
    }

    pub(crate) proof fn lemma_share_is(&self, p: Seq<u8>)
        ensures
            self.share(p) == node_share(self.node_seq(), self.root as nat, p),
    {
    }

    /// A place with a number has no value.
    pub proof fn lemma_shared_is_bare(&self, p: Seq<u8>)
        requires
            self.wf(),
        ensures
            self.share(p) is Some ==> self.trie().has(p) && self.trie().get(p) is None,
    {
        self.lemma_share(p);
    }

    /// A place with a number is what the node of that number leads on to, without a value.
    pub(crate) proof fn lemma_share(&self, p: Seq<u8>)
        requires
            self.wf(),
        ensures
            self.share(p) matches Some(c) ==> self.trie().at(p) == Some(
                Trie { val: None, kids: node_kids(self.node_seq(), c as nat) },
            ),
    {
        assert(self.nodes.len() == self.nodes@.len());
        lemma_node_share(self.nodes@, self.root as nat, self.root_val, p);
    }

    /// Where `path` leads, if anywhere.
    pub(crate) fn locate(&self, path: &[u8]) -> (r: Option<Loc>)
        requires
            self.wf(),
        ensures
            match r {
                Some(loc) => {
                    &&& loc_ok(self.node_seq(), loc)
                    &&& self.trie().at(path@) == Some(
                        loc_place(self.node_seq(), self.trie(), loc),
                    )
                    &&& self.share(path@) == loc_share(self.node_seq(), loc)
                },
                None => self.trie().at(path@) is None && self.share(path@) is None,
            },
    {
        let ghost nodes = self.nodes@;
        if path.len() == 0 {
            return Some(Loc::Root);
        }
        let mut n = self.root;
        let mut pos: usize = 0;
        let ghost mut val = self.root_val;
        assert(path@.subrange(0, path@.len() as int) =~= path@);
        loop
            invariant
                self.wf(),
                nodes == self.nodes@,
                n < nodes.len(),
                pos < path@.len(),
                self.trie().at(path@) == (Trie { val, kids: node_kids(nodes, n as nat) }).at(
                    path@.subrange(pos as int, path@.len() as int),
                ),
                self.share(path@) == node_share(
                    nodes,
                    n as nat,
                    path@.subrange(pos as int, path@.len() as int),
                ),
            decreases path@.len() - pos,
        {
            let rest = part(path, pos, path.len());
            proof {
                assert(items_wf(nodes[n as int].items@, n as nat));
                lemma_node_walk(nodes, n as nat, val, rest@);
            }
            let j = find_item(&self.nodes[n].items, rest[0], Ghost(n as nat));
            if j == self.nodes[n].items.len() {
                return None;
            }
            let item = &self.nodes[n].items[j];
            let o = find_prefix_overlap(item.path.as_slice(), rest);
            if o == rest.len() {
                return Some(Loc::On { node: n, item: j, off: o });
            }
            if o < item.path.len() {
                return None;
            }
            assert(path@.subrange(pos + o, path@.len() as int) =~= rest@.subrange(
                o as int,
                rest@.len() as int,
            ));
            match item.child {
                None => {
                    proof {
                        let end = item_end(nodes, *item, n as nat);
                        assert(end.kids =~= Map::empty());
                    }
                    return None;
                },
                Some(c) => {
                    proof {
                        val = item.val;
                    }
                    n = c;
                    pos = pos + o;
                },
            }
        }
    }

    /// The value at the end of `path`, where there is one.
    pub fn get_val_at(&self, path: &[u8]) -> (r: Option<&V>)
        requires
            self.wf(),
        ensures
            match r {
                Some(v) => self.trie().get(path@) == Some(*v),
                None => self.trie().get(path@) is None,
            },
    {
        match self.locate(path) {
            None => None,
            Some(loc) => self.loc_val(loc),
        }
    }

    /// The value of a place.
    pub(crate) fn loc_val(&self, loc: Loc) -> (r: Option<&V>)
        requires
            self.wf(),
            loc_ok(self.node_seq(), loc),
        ensures
            match r {
                Some(v) => loc_place(self.node_seq(), self.trie(), loc).val == Some(*v),
                None => loc_place(self.node_seq(), self.trie(), loc).val is None,
            },
    {
        match loc {
            Loc::Root => self.root_val.as_ref(),
            Loc::On { node, item, off } => {
                let it = &self.nodes[node].items[item];
                if off == it.path.len() {
                    assert(it.path@.subrange(off as int, it.path@.len() as int) =~= Seq::<
                        u8,
                    >::empty());
                    it.val.as_ref()
                } else {
                    None
                }
            },
        }
    }

    /// The bytes that lead on from a place.
    pub(crate) fn loc_mask(&self, loc: Loc) -> (r: ByteMask)
        requires
            self.wf(),
            loc_ok(self.node_seq(), loc),
        ensures
            r@ == loc_place(self.node_seq(), self.trie(), loc).kids.dom(),
    {
        match loc {
            Loc::Root => self.node_mask(self.root),
            Loc::On { node, item, off } => {
                let it = &self.nodes[node].items[item];
                proof {
                    assert(items_wf(self.nodes@[node as int].items@, node as nat));
                }
                if off == it.path.len() {
                    assert(it.path@.subrange(off as int, it.path@.len() as int) =~= Seq::<
                        u8,
                    >::empty());
                    match it.child {
                        Some(c) => self.node_mask(c),
                        None => {
                            assert(Map::<u8, Trie<V>>::empty().dom() =~= Set::<u8>::empty());
                            ByteMask::new()
                        },
                    }
                } else {
                    let mut mask = ByteMask::new();
                    mask.set_bit(it.path[off]);
                    proof {
                        let q = it.path@.subrange(off as int, it.path@.len() as int);
                        let t = chain(q, item_end(self.nodes@, *it, node as nat));
                        assert(t.kids.dom() =~= Set::<u8>::empty().insert(q[0]));
                    }
                    mask
                }
            },
        }
    }

    /// The bytes with which the edges of a node begin.
    fn node_mask(&self, n: usize) -> (r: ByteMask)
        requires
            self.wf(),
            n < self.nodes@.len(),
        ensures
            r@ == node_kids(self.nodes@, n as nat).dom(),
    {
        let ghost items = self.nodes@[n as int].items@;
        let mut mask = ByteMask::new();
        let mut j: usize = 0;
        assert(items_wf(items, n as nat));
        while j < self.nodes[n].items.len()
            invariant
                n < self.nodes@.len(),
                items == self.nodes@[n as int].items@,
                items_wf(items, n as nat),
                j <= items.len(),
                forall|b: u8| #[trigger]
                    mask@.contains(b) <==> exists|k: int|
                        0 <= k < j && (#[trigger] items[k]).path@[0] == b,
            decreases items.len() - j,
        {
            let ghost before = mask@;
            assert(items[j as int].path@.len() > 0);
            mask.set_bit(self.nodes[n].items[j].path[0]);
            proof {
                assert forall|b: u8| #[trigger] mask@.contains(b) <==> exists|k: int|
                    0 <= k < j + 1 && (#[trigger] items[k]).path@[0] == b by {
                    if mask@.contains(b) {
                        if before.contains(b) {
                            let k = choose|k: int| 0 <= k < j && (#[trigger] items[k]).path@[0] == b;
                            assert(items[k].path@[0] == b);
                        } else {
                            assert(items[j as int].path@[0] == b);
                        }
                    }
                }
            }
            j = j + 1;
        }
        proof {
            let kids = node_kids(self.nodes@, n as nat);
            assert forall|b: u8| mask@.contains(b) == kids.dom().contains(b) by {
                lemma_item_index(items, b, 0);
                if mask@.contains(b) {
                    let k = choose|k: int|
                        0 <= k < items.len() && (#[trigger] items[k]).path@[0] == b;
                    lemma_kid(self.nodes@, n as nat, k);
                }
                if let Some(k) = item_index(items, b, 0) {
                    assert(items[k as int].path@[0] == b);
                }
            }
            assert(mask@ =~= kids.dom());
        }
        mask
    }

    pub(crate) proof fn lemma_root(&self)
        requires
            self.wf(),
        ensures
            self.root < self.node_seq().len(),
            self.trie() == (Trie {
                val: self.root_val,
                kids: node_kids(self.node_seq(), self.root as nat),
            }),
    {
    }

    /// The map with other nodes.
    pub(crate) proof fn lemma_rebuilt(&self, nodes: Seq<PNode<V>>)
        requires
            self.nodes@ == nodes,
        ensures
            self.node_seq() == nodes,
            nodes_wf(nodes) && self.root < nodes.len() ==> self.wf(),
            self.made() == nodes.len(),
            self.trie() == (Trie {
                val: self.root_val,
                kids: node_kids(nodes, self.root as nat),
            }),
    {
    }

    pub(crate) proof fn lemma_nodes(&self)
        requires
            self.wf(),
        ensures
            nodes_wf(self.node_seq()),
            self.node_seq().len() <= usize::MAX,
            self.node_seq().len() == self.made(),
            forall|n: usize| #[trigger] self.items_at(n)@ == self.node_seq()[n as int].items@,
    {
        assert(self.nodes.len() == self.nodes@.len());
    }

    /// The bytes with which the edges of a node begin.
    pub(crate) fn node_bytes(&self, n: usize) -> (r: ByteMask)
        requires
            self.wf(),
            n < self.node_seq().len(),
        ensures
            r@ == node_kids(self.node_seq(), n as nat).dom(),
    {
        self.node_mask(n)
    }

    /// The number of a place, where it is shared.
    pub(crate) fn loc_id(&self, loc: Loc) -> (r: Option<u64>)
        requires
            self.wf(),
            loc_ok(self.node_seq(), loc),
        ensures
            r == loc_share(self.node_seq(), loc),
    {
        match loc {
            Loc::Root => None,
            Loc::On { node, item, off } => {
                let it = &self.nodes[node].items[item];
                if off == it.path.len() && it.val.is_none() {
                    match it.child {
                        Some(c) => Some(c as u64),
                        None => None,
                    }
                } else {
                    None
                }
            },
        }
    }
}

} // verus!

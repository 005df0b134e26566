//! Merging the nodes of a trie that stand for the same.

use vstd::prelude::*;
use std::collections::HashMap;
use vstd::std_specs::hash::group_hash_axioms;

use crate::path_map::hash_scheme::{
    below_hash, kids_hash, lemma_below_kids, lemma_chain_hash, lemma_kids_hash_gap, place_hash,
    steps_of, HashScheme, HashValue, MixScheme,
};
use crate::path_map::map::{
    copy_item, find_item, item_end, item_index, items_wf, lemma_item_found, lemma_item_index,
    lemma_kid, lemma_nodes_grown_trans, lemma_nodes_stable, node_kids, node_share, nodes_grown,
    nodes_wf, same_item, Item, PNode, PathMap,
};
use crate::path_map::redirects::{
    capped, comes_later, edge_redirected, edges_upto, lemma_finished, lemma_totals_are_numbers,
    nodes_upto, edges_redirected, finished, finished_below, goes_on, in_order, is_redirected,
    leads_into, lemma_edges_stable, lemma_finish, lemma_goes_on_contains, lemma_goes_on_trans,
    lemma_redirected_stable, total_cloned, total_replaced,
};
use crate::slices::overlap;
use crate::trie::{lemma_at_concat, lemma_chain_at, Trie};
use crate::utils::bits::{lemma_members, lemma_rank_is_len, members, rank};
use crate::utils::byte_mask::{BitMask, ByteMask};

verus! {

/// Statistics created after merkleization.
#[derive(Clone, Copy, Debug)]
pub struct MerkleizeResult {
    /// The hash of the entire trie.
    pub hash: u128,
    /// The number of shared node references that replaced identical copies during the
    /// merkleization.
    pub reused: usize,
    /// The number of nodes that were copied because a node below them was replaced.
    pub cloned: usize,
    /// The number of references to nodes that were replaced.
    pub replaced: usize,
}

impl Default for MerkleizeResult {
    fn default() -> (r: Self)
        ensures
            r == (MerkleizeResult { hash: 0, reused: 0, cloned: 0, replaced: 0 }),
    {
        MerkleizeResult { hash: 0, reused: 0, cloned: 0, replaced: 0 }
    }
}

/// What is below a node, as a place without a value.
pub open spec fn node_place<V>(nodes: Seq<PNode<V>>, i: nat) -> Trie<V> {
    Trie { val: None, kids: node_kids(nodes, i) }
}

/// The hash of what is below a node.
pub open spec fn node_hash<V, S: HashScheme<V>>(s: &S, nodes: Seq<PNode<V>>, i: nat) -> u128 {
    below_hash(s, node_place(nodes, i))
}

/// The hashes of nodes, by their numbers.
struct NodeHashes {
    by_address: HashMap<u64, u128>,
}

impl NodeHashes {
    /// The hash that is recorded for a node is its hash, and those below it have theirs recorded.
    spec fn ok<V, S: HashScheme<V>>(&self, s: &S, nodes: Seq<PNode<V>>) -> bool {
        forall|a: u64| #[trigger]
            self.by_address@.contains_key(a) ==> {
                &&& a < nodes.len()
                &&& self.by_address@[a] == node_hash(s, nodes, a as nat)
                &&& forall|j: int|
                    0 <= j < nodes[a as int].items@.len() ==> ((
                    #[trigger] nodes[a as int].items@[j]).child matches Some(c)
                        ==> self.by_address@.contains_key(c as u64))
            }
    }
}

impl NodeHashes {
    /// All nodes whose hashes are recorded have theirs recorded in `other`.
    spec fn within(&self, other: &NodeHashes) -> bool {
        forall|a: u64|
            self.by_address@.contains_key(a) ==> #[trigger] other.by_address@.contains_key(a)
    }
}

/// The hash at the start of the bytes of an edge behind the first, where `w` is that at its end.
fn hash_steps<V, S: HashScheme<V>>(s: &S, path: &Vec<u8>, w: u128) -> (r: u128)
    requires
        path@.len() > 0,
    ensures
        r == steps_of::<V, S>(s, path@.drop_first(), w),
{
    let mut h = w;
    let mut k: usize = path.len();
    assert(path@.subrange(path@.len() as int, path@.len() as int) =~= Seq::<u8>::empty());
    while k > 1
        invariant
            1 <= k <= path@.len(),
            h == steps_of::<V, S>(s, path@.subrange(k as int, path@.len() as int), w),
        decreases k,
    {
        k = k - 1;
        let ghost t = path@.subrange(k as int, path@.len() as int);
        assert(t.drop_first() =~= path@.subrange(k + 1, path@.len() as int));
        let mut mask = ByteMask::new();
        mask.set_bit(path[k]);
        h = s.finish(s.child(s.begin(&mask), h));
    }
    assert(path@.subrange(1, path@.len() as int) =~= path@.drop_first());
    h
}

/// Records the hashes of a node and of all nodes below it, and returns its own.
fn hash_nodes<V, S: HashScheme<V>>(
    s: &S,
    map: &PathMap<V>,
    i: usize,
    hashes: &mut NodeHashes,
) -> (r: u128)
    requires
        map.wf(),
        i < map.node_seq().len(),
        old(hashes).ok(s, map.node_seq()),
    ensures
        final(hashes).ok(s, map.node_seq()),
        r == node_hash(s, map.node_seq(), i as nat),
        final(hashes).by_address@.contains_key(i as u64),
        old(hashes).within(final(hashes)),
    decreases i,
{
    broadcast use group_hash_axioms;

    let ghost nodes = map.node_seq();
    let ghost t = node_place(nodes, i as nat);
    if let Some(h) = hashes.by_address.get(&(i as u64)) {
        return *h;
    }
    proof {
        map.lemma_nodes();
        assert(items_wf(nodes[i as int].items@, i as nat));
    }
    let items = map.items(i);
    let ghost its = items@;
    let mask = map.node_bytes(i);
    let bytes = mask.to_vec();
    let mut acc = s.begin(&mask);
    let mut k: usize = 0;
    proof {
        lemma_members(mask@);
    }
    while k < bytes.len()
        invariant
            k <= bytes@.len(),
            bytes@ == members(mask@),
            map.wf(),
            nodes == map.node_seq(),
            i < nodes.len(),
            its == nodes[i as int].items@,
            its == items@,
            items_wf(its, i as nat),
            nodes_wf(nodes),
            t == node_place(nodes, i as nat),
            mask@ == t.kids.dom(),
            hashes.ok(s, nodes),
            acc == kids_hash(
                s,
                t,
                if k == 0 {
                    0
                } else {
                    (bytes@[k - 1] + 1) as nat
                },
            ),
            old(hashes).within(hashes),
            forall|j: int|
                0 <= j < its.len() ==> ((#[trigger] its[j]).child matches Some(c) ==> (rank(
                    mask@,
                    its[j].path@[0] as nat,
                ) < k ==> hashes.by_address@.contains_key(c as u64))),
        decreases bytes@.len() - k,
    {
        let b = bytes[k];
        proof {
            lemma_members(mask@);
            assert(mask@.contains(b));
            lemma_item_index(its, b, 0);
        }
        let j = find_item(items, b, Ghost(i as nat));
        let item = &items[j];
        assert(*item == its[j as int]);
        let ghost before = *hashes;
        let below = match item.child {
            Some(c) => hash_nodes(s, map, c, hashes),
            None => {
                let none = ByteMask::new();
                let leaf = s.finish(s.begin(&none));
                proof {
                    let e = item_end(nodes, *item, i as nat);
                    lemma_kids_hash_gap(s, e, 0, 256);
                    assert(e.kids.dom() =~= Set::<u8>::empty());
                }
                leaf
            },
        };
        let ghost end = item_end(nodes, *item, i as nat);
        proof {
            if let Some(c) = item.child {
                lemma_below_kids(s, end, node_place(nodes, c as nat));
            }
            assert(below == below_hash(s, end));
        }
        let w = match &item.val {
            Some(v) => s.with_value(s.value(v), below),
            None => below,
        };
        let up = hash_steps::<V, S>(s, &item.path, w);
        acc = s.child(acc, up);
        proof {
            lemma_kid(nodes, i as nat, j as int);
            lemma_chain_hash(s, item.path@.drop_first(), end);
            let from: nat = if k == 0 {
                0
            } else {
                (bytes@[k - 1] + 1) as nat
            };
            assert forall|c: u8| from <= c < b implies !#[trigger] t.kids.contains_key(c) by {
                if mask@.contains(c) {
                    let m = rank(mask@, c as nat) as int;
                    assert(members(mask@)[m] == c);
                    if m > k {
                        assert(members(mask@)[k as int] < members(mask@)[m]);
                    } else if m < k - 1 {
                        assert(members(mask@)[m] < members(mask@)[k - 1]);
                    }
                }
            }
            lemma_kids_hash_gap(s, t, from, b as nat);
            assert(t.kids.contains_key(b));
            assert forall|x: int| 0 <= x < its.len() implies ((#[trigger] its[x]).child matches Some(
                c,
            ) ==> (rank(mask@, its[x].path@[0] as nat) < k + 1
                ==> hashes.by_address@.contains_key(c as u64))) by {
                let bx = its[x].path@[0];
                if rank(mask@, bx as nat) == k {
                    lemma_item_found(its, i as nat, x);
                    lemma_kid(nodes, i as nat, x);
                    assert(mask@.contains(bx));
                    assert(members(mask@)[k as int] == bx);
                    assert(x == j);
                } else if let Some(c) = its[x].child {
                    if rank(mask@, bx as nat) < k {
                        assert(before.by_address@.contains_key(c as u64));
                    }
                }
            }
        }
        k = k + 1;
    }
    proof {
        let from: nat = if k == 0 {
            0
        } else {
            (bytes@[k - 1] + 1) as nat
        };
        lemma_members(mask@);
        lemma_rank_is_len(mask@);
        assert forall|c: u8| from <= c < 256 implies !#[trigger] t.kids.contains_key(c) by {
            if mask@.contains(c) {
                let m = rank(mask@, c as nat) as int;
                assert(members(mask@)[m] == c);
                if m < k - 1 {
                    assert(members(mask@)[m] < members(mask@)[k - 1]);
                }
            }
        }
        lemma_kids_hash_gap(s, t, from, 256);
    }
    let r = s.finish(acc);
    let ghost prev = *hashes;
    hashes.by_address.insert(i as u64, r);
    proof {
        assert(r == node_hash(s, nodes, i as nat));
        assert forall|a: u64| #[trigger] hashes.by_address@.contains_key(a) implies {
            &&& a < nodes.len()
            &&& hashes.by_address@[a] == node_hash(s, nodes, a as nat)
            &&& forall|j: int|
                0 <= j < nodes[a as int].items@.len() ==> ((
                #[trigger] nodes[a as int].items@[j]).child matches Some(c)
                    ==> hashes.by_address@.contains_key(c as u64))
        } by {
            if a == i {
                assert forall|x: int| 0 <= x < its.len() implies ((
                #[trigger] nodes[a as int].items@[x]).child matches Some(c)
                    ==> hashes.by_address@.contains_key(c as u64)) by {
                    assert(nodes[a as int].items@[x] == its[x]);
                    lemma_kid(nodes, i as nat, x);
                    let bx = its[x].path@[0];
                    assert(mask@.contains(bx));
                    if let Some(c) = its[x].child {
                        assert(prev.by_address@.contains_key(c as u64));
                    }
                }
            } else {
                assert(prev.by_address@.contains_key(a));
            }
        }
    }
    r
}

/// No two places of a trie have different tries below them and the same hash for them.
pub open spec fn no_collisions<V, S: HashScheme<V>>(s: &S, t: Trie<V>) -> bool {
    forall|p: Seq<u8>, q: Seq<u8>|
        #![trigger t.at(p), t.at(q)]
        t.has(p) && t.has(q) && below_hash(s, t.at(p)->Some_0) == below_hash(s, t.at(q)->Some_0)
            ==> t.at(p)->Some_0.kids == t.at(q)->Some_0.kids
}

/// `j` is the node `i` or lies below it.
pub open spec fn reaches<V>(nodes: Seq<PNode<V>>, i: nat, j: nat) -> bool
    decreases i,
{
    i == j || exists|k: int|
        0 <= k < nodes[i as int].items@.len() && ((
        #[trigger] nodes[i as int].items@[k]).child matches Some(c) && c < i && reaches(
            nodes,
            c as nat,
            j,
        ))
}

/// The node has edges.
pub open spec fn has_edges<V>(nodes: Seq<PNode<V>>, i: nat) -> bool {
    nodes[i as int].items@.len() > 0
}

/// The numbers of the nodes at and below `root` that have edges.
pub open spec fn nodes_with_edges<V>(nodes: Seq<PNode<V>>, root: nat) -> Set<u64> {
    Set::new(|a: u64| reaches(nodes, root, a as nat) && has_edges(nodes, a as nat))
}

/// Their hashes.
pub open spec fn hashes_of<V, S: HashScheme<V>>(
    s: &S,
    nodes: Seq<PNode<V>>,
    root: nat,
) -> Set<u128> {
    Set::new(
        |h: u128|
            exists|a: u64| #[trigger]
                nodes_with_edges(nodes, root).contains(a) && node_hash(s, nodes, a as nat) == h,
    )
}

/// There are no more numbers below `n` than that.
proof fn lemma_below_len(set: Set<u64>, n: nat)
    requires
        set.finite(),
        forall|a: u64| #[trigger] set.contains(a) ==> a < n,
    ensures
        set.len() <= n,
    decreases n,
{
    if n == 0 {
        assert(set =~= Set::<u64>::empty());
    } else {
        let top = (n - 1) as u64;
        let rest = set.remove(top);
        assert forall|a: u64| #[trigger] rest.contains(a) implies a < n - 1 by {
            assert(set.contains(a));
        }
        lemma_below_len(rest, (n - 1) as nat);
    }
}

/// What can be reached from a node does not come after it.
proof fn lemma_reaches_back<V>(nodes: Seq<PNode<V>>, i: nat, j: nat)
    requires
        reaches(nodes, i, j),
    ensures
        j <= i,
    decreases i,
{
    if i != j {
        let k = choose|k: int|
            0 <= k < nodes[i as int].items@.len() && ((
            #[trigger] nodes[i as int].items@[k]).child matches Some(c) && c < i && reaches(
                nodes,
                c as nat,
                j,
            ));
        let c = nodes[i as int].items@[k].child->Some_0;
        lemma_reaches_back(nodes, c as nat, j);
    }
}

/// No two nodes below `root` that have edges have the same hash.
pub open spec fn all_distinct<V, S: HashScheme<V>>(s: &S, nodes: Seq<PNode<V>>, root: nat) -> bool {
    forall|a: nat, b: nat|
        #![trigger reaches(nodes, root, a), reaches(nodes, root, b)]
        reaches(nodes, root, a) && reaches(nodes, root, b) && nodes[a as int].items@.len() > 0
            && nodes[b as int].items@.len() > 0 && node_hash(s, nodes, a) == node_hash(s, nodes, b)
            ==> a == b
}

/// The node and those below it are the ones that are known by their hashes.
spec fn canonical<V, S: HashScheme<V>>(
    s: &S,
    nodes: Seq<PNode<V>>,
    memo: Map<u128, usize>,
    i: nat,
) -> bool
    decreases i,
{
    nodes[i as int].items@.len() == 0 || {
        &&& memo.contains_key(node_hash(s, nodes, i))
        &&& memo[node_hash(s, nodes, i)] == i
        &&& forall|k: int|
            0 <= k < nodes[i as int].items@.len() ==> ((
            #[trigger] nodes[i as int].items@[k]).child matches Some(c) ==> c < i && canonical(
                s,
                nodes,
                memo,
                c as nat,
            ))
    }
}

/// What is known by its hash stays known by it.
spec fn memo_within(memo: Map<u128, usize>, wider: Map<u128, usize>) -> bool {
    forall|h: u128| #[trigger]
        memo.contains_key(h) ==> wider.contains_key(h) && wider[h] == memo[h]
}

/// Canonical nodes stay so when more nodes and more hashes come to be known.
proof fn lemma_canonical_grows<V, S: HashScheme<V>>(
    s: &S,
    nodes: Seq<PNode<V>>,
    memo: Map<u128, usize>,
    more: Seq<PNode<V>>,
    wider: Map<u128, usize>,
    i: nat,
)
    requires
        nodes_wf(nodes),
        nodes_grown(nodes, more),
        memo_within(memo, wider),
        i < nodes.len(),
        canonical(s, nodes, memo, i),
    ensures
        canonical(s, more, wider, i),
    decreases i,
{
    assert(more[i as int] == nodes[i as int]);
    lemma_nodes_stable(nodes, more, i);
    assert(node_place(more, i) == node_place(nodes, i));
    if nodes[i as int].items@.len() > 0 {
        let h = node_hash(s, nodes, i);
        assert(memo.contains_key(h));
        assert forall|k: int| 0 <= k < more[i as int].items@.len() implies ((
        #[trigger] more[i as int].items@[k]).child matches Some(c) ==> c < i && canonical(
            s,
            more,
            wider,
            c as nat,
        )) by {
            assert(nodes[i as int].items@[k] == more[i as int].items@[k]);
            if let Some(c) = nodes[i as int].items@[k].child {
                lemma_canonical_grows(s, nodes, memo, more, wider, c as nat);
            }
        }
    }
}

/// All that lies below a canonical node is canonical.
proof fn lemma_canonical_reach<V, S: HashScheme<V>>(
    s: &S,
    nodes: Seq<PNode<V>>,
    memo: Map<u128, usize>,
    i: nat,
    j: nat,
)
    requires
        canonical(s, nodes, memo, i),
        reaches(nodes, i, j),
    ensures
        canonical(s, nodes, memo, j),
    decreases i,
{
    if i != j {
        let k = choose|k: int|
            0 <= k < nodes[i as int].items@.len() && ((
            #[trigger] nodes[i as int].items@[k]).child matches Some(c) && c < i && reaches(
                nodes,
                c as nat,
                j,
            ));
        let c = nodes[i as int].items@[k].child->Some_0;
        lemma_canonical_reach(s, nodes, memo, c as nat, j);
    }
}

/// Where the node is canonical, so that each hash belongs to one node, no two nodes below it have
/// the same hash.
proof fn lemma_canonical_distinct<V, S: HashScheme<V>>(
    s: &S,
    nodes: Seq<PNode<V>>,
    memo: Map<u128, usize>,
    i: nat,
)
    requires
        canonical(s, nodes, memo, i),
    ensures
        all_distinct(s, nodes, i),
{
    assert forall|a: nat, b: nat|
        #![trigger reaches(nodes, i, a), reaches(nodes, i, b)]
        reaches(nodes, i, a) && reaches(nodes, i, b) && nodes[a as int].items@.len() > 0
            && nodes[b as int].items@.len() > 0 && node_hash(s, nodes, a) == node_hash(
            s,
            nodes,
            b,
        ) implies a == b by {
        lemma_canonical_reach(s, nodes, memo, i, a);
        lemma_canonical_reach(s, nodes, memo, i, b);
    }
}

/// The node that is the number of a place can be reached.
proof fn lemma_share_reaches<V>(nodes: Seq<PNode<V>>, i: nat, p: Seq<u8>)
    requires
        nodes_wf(nodes),
        i < nodes.len(),
        nodes.len() <= usize::MAX,
    ensures
        node_share(nodes, i, p) matches Some(c) ==> reaches(nodes, i, c as nat),
    decreases p.len(),
{
    if p.len() > 0 {
        let items = nodes[i as int].items@;
        assert(items_wf(items, i));
        lemma_item_index(items, p[0], 0);
        if let Some(j) = item_index(items, p[0], 0) {
            let it = items[j as int];
            assert(it.path@.len() > 0);
            let o = overlap(it.path@, p) as int;
            if let Some(c) = it.child {
                assert(nodes[i as int].items@[j as int].child == Some(c));
                assert(reaches(nodes, c as nat, c as nat));
                if 0 < o < p.len() {
                    lemma_share_reaches(nodes, c as nat, p.subrange(o, p.len() as int));
                }
            }
        }
    }
}

/// A node whose edges are those of another, but lead to nodes that stand for the same.
proof fn lemma_same_kids<V>(nodes: Seq<PNode<V>>, i: nat, n: nat)
    requires
        nodes_wf(nodes),
        i < nodes.len(),
        n < nodes.len(),
        nodes[i as int].items@.len() == nodes[n as int].items@.len(),
        forall|k: int|
            0 <= k < nodes[i as int].items@.len() ==> {
                let a = #[trigger] nodes[i as int].items@[k];
                let b = nodes[n as int].items@[k];
                &&& a.path@ == b.path@
                &&& item_end(nodes, a, i) == item_end(nodes, b, n)
            },
    ensures
        node_kids(nodes, n) == node_kids(nodes, i),
{
    let x = nodes[i as int].items@;
    let y = nodes[n as int].items@;
    assert forall|b: u8| item_index(x, b, 0) == item_index(y, b, 0) by {
        lemma_same_index(x, y, b, 0);
    }
    assert forall|b: u8| #[trigger] node_kids(nodes, i).contains_key(b) implies node_kids(nodes, i)[b]
        == node_kids(nodes, n)[b] by {
        lemma_item_index(x, b, 0);
        let k = item_index(x, b, 0)->Some_0 as int;
        let a = nodes[i as int].items@[k];
    }
    assert(node_kids(nodes, i).dom() =~= node_kids(nodes, n).dom());
    assert(node_kids(nodes, n) =~= node_kids(nodes, i));
}

/// The edges have the same bytes and the same value, and lead to nodes with the same hash.
spec fn same_edge<V, S: HashScheme<V>>(
    s: &S,
    nodes: Seq<PNode<V>>,
    a: Item<V>,
    b: Item<V>,
) -> bool {
    &&& a.path@ == b.path@
    &&& a.val == b.val
    &&& match (a.child, b.child) {
        (Some(c), Some(d)) => node_hash(s, nodes, c as nat) == node_hash(s, nodes, d as nat),
        (None, None) => true,
        _ => false,
    }
}

/// Nodes with such edges have the same hash.
proof fn lemma_same_hash<V, S: HashScheme<V>>(s: &S, nodes: Seq<PNode<V>>, i: nat, n: nat)
    requires
        nodes_wf(nodes),
        i < nodes.len(),
        n < nodes.len(),
        nodes[i as int].items@.len() == nodes[n as int].items@.len(),
        forall|k: int|
            0 <= k < nodes[i as int].items@.len() ==> same_edge(
                s,
                nodes,
                #[trigger] nodes[i as int].items@[k],
                nodes[n as int].items@[k],
            ),
    ensures
        node_hash(s, nodes, n) == node_hash(s, nodes, i),
{
    let x = nodes[i as int].items@;
    let y = nodes[n as int].items@;
    let a = node_place(nodes, i);
    let b = node_place(nodes, n);
    assert(items_wf(x, i));
    assert(items_wf(y, n));
    assert forall|c: u8| #[trigger] a.kids.contains_key(c) == b.kids.contains_key(c) && (
    a.kids.contains_key(c) ==> place_hash(s, a.kids[c]) == place_hash(s, b.kids[c])) by {
        lemma_same_index(x, y, c, 0);
        lemma_item_index(x, c, 0);
        if let Some(k) = item_index(x, c, 0) {
            let (p, q) = (x[k as int], y[k as int]);
            assert(same_edge(s, nodes, nodes[i as int].items@[k as int], q));
            let (e, f) = (item_end(nodes, p, i), item_end(nodes, q, n));
            lemma_kid(nodes, i, k as int);
            lemma_kid(nodes, n, k as int);
            lemma_chain_hash(s, p.path@.drop_first(), e);
            lemma_chain_hash(s, q.path@.drop_first(), f);
            match (p.child, q.child) {
                (Some(c), Some(d)) => {
                    lemma_below_kids(s, e, node_place(nodes, c as nat));
                    lemma_below_kids(s, f, node_place(nodes, d as nat));
                },
                _ => {
                    lemma_below_kids(s, e, f);
                },
            }
        }
    }
    assert(a.kids.dom() =~= b.kids.dom());
    lemma_kids_hash_same(s, a, b, 256);
}

/// Only the bytes that lead on and the hashes of the children matter.
proof fn lemma_kids_hash_same<V, S: HashScheme<V>>(s: &S, a: Trie<V>, b: Trie<V>, n: nat)
    requires
        n <= 256,
        a.kids.dom() == b.kids.dom(),
        forall|c: u8| #[trigger]
            a.kids.contains_key(c) ==> place_hash(s, a.kids[c]) == place_hash(s, b.kids[c]),
    ensures
        kids_hash(s, a, n) == kids_hash(s, b, n),
    decreases n,
{
    if n > 0 {
        lemma_kids_hash_same(s, a, b, (n - 1) as nat);
        let c = (n - 1) as u8;
        assert(a.kids.contains_key(c) == b.kids.dom().contains(c));
    }
}

proof fn lemma_same_index<V>(x: Seq<Item<V>>, y: Seq<Item<V>>, b: u8, from: nat)
    requires
        x.len() == y.len(),
        forall|k: int| 0 <= k < x.len() ==> (#[trigger] x[k]).path@ == y[k].path@,
    ensures
        item_index(x, b, from) == item_index(y, b, from),
    decreases x.len() - from,
{
    if from < x.len() {
        assert(x[from as int].path@ == y[from as int].path@);
        lemma_same_index(x, y, b, from + 1);
    }
}

/// What the rewriting rests on: the nodes there were, their trie, and the hashes.
struct Ground<V> {
    nodes: Seq<PNode<V>>,
    trie: Trie<V>,
    root: nat,
}

/// A node that stands in for the node `i`.
spec fn stands_in<V, S: HashScheme<V>>(
    s: &S,
    g: Ground<V>,
    nodes: Seq<PNode<V>>,
    memo: Map<u128, usize>,
    i: nat,
    r: Option<usize>,
) -> bool {
    let n = match r {
        Some(n) => n as nat,
        None => i,
    };
    &&& n < nodes.len()
    &&& canonical(s, nodes, memo, n)
    &&& node_hash(s, nodes, n) == node_hash(s, g.nodes, i)
    &&& no_collisions(s, g.trie) ==> node_kids(nodes, n) == node_kids(g.nodes, i)
}

/// The node that is known by a hash stands for a place of the trie with that hash.
spec fn known_by<V, S: HashScheme<V>>(
    s: &S,
    g: Ground<V>,
    nodes: Seq<PNode<V>>,
    memo: Map<u128, usize>,
    h: u128,
) -> bool {
    let n = memo[h] as nat;
    &&& n < nodes.len()
    &&& canonical(s, nodes, memo, n)
    &&& node_hash(s, nodes, n) == h
    &&& no_collisions(s, g.trie) ==> exists|q: Seq<u8>| #[trigger]
        is_place_of(s, g.trie, q, node_kids(nodes, n), h)
}

/// `kids` is what leads on at the end of `q`, and `h` is its hash.
spec fn is_place_of<V, S: HashScheme<V>>(
    s: &S,
    t: Trie<V>,
    q: Seq<u8>,
    kids: Map<u8, Trie<V>>,
    h: u128,
) -> bool {
    &&& t.has(q)
    &&& t.at(q)->Some_0.kids == kids
    &&& below_hash(s, t.at(q)->Some_0) == h
}

/// The state of the rewriting.
struct Rewriter<V> {
    nodes: Vec<PNode<V>>,
    /// The node that is known by a hash.
    memo: HashMap<u128, usize>,
    /// What was found for the nodes that were rewritten.
    visited: HashMap<u64, Option<usize>>,
    counters: MerkleizeResult,
    /// The nodes that were rewritten, in the order in which they were finished.
    order: Ghost<Seq<nat>>,
}

impl<V> Rewriter<V> {
    spec fn ok<S: HashScheme<V>>(&self, s: &S, g: Ground<V>, hashes: &NodeHashes) -> bool {
        &&& nodes_wf(g.nodes)
        &&& hashes.ok(s, g.nodes)
        &&& g.root < g.nodes.len()
        &&& nodes_wf(self.nodes@)
        &&& nodes_grown(g.nodes, self.nodes@)
        &&& forall|h: u128| #[trigger]
            self.memo@.contains_key(h) ==> known_by(s, g, self.nodes@, self.memo@, h)
        &&& forall|a: u64| #[trigger]
            self.visited@.contains_key(a) ==> a < g.nodes.len() && stands_in(
                s,
                g,
                self.nodes@,
                self.memo@,
                a as nat,
                self.visited@[a],
            )
        &&& all_distinct(s, g.nodes, g.root) ==> self.idle(s, g)
    }

    /// Nothing had to be rewritten.
    spec fn idle<S: HashScheme<V>>(&self, s: &S, g: Ground<V>) -> bool {
        &&& self.nodes@ == g.nodes
        &&& self.counters.reused == 0
        &&& self.counters.replaced == 0
        &&& self.counters.cloned == 0
        &&& forall|h: u128| #[trigger]
            self.memo@.contains_key(h) ==> {
                let n = self.memo@[h];
                &&& self.visited@.contains_key(n as u64)
                &&& reaches(g.nodes, g.root, n as nat)
                &&& node_hash(s, g.nodes, n as nat) == h
                &&& g.nodes[n as int].items@.len() > 0
            }
        &&& forall|a: u64| #[trigger] self.visited@.contains_key(a) ==> self.visited@[a] is None
    }

    /// Each node that was rewritten was found by its hash or has made that known, and the statistics
    /// tell how often it was which.
    spec fn counted<S: HashScheme<V>>(&self, s: &S, g: Ground<V>) -> bool {
        let c = self.counters;
        &&& self.visited@.dom().finite()
        &&& self.memo@.dom().finite()
        &&& self.visited@.dom().len() == self.memo@.dom().len() + c.reused
        &&& forall|a: u64| #[trigger]
            self.visited@.contains_key(a) ==> {
                &&& a < g.nodes.len()
                &&& reaches(g.nodes, g.root, a as nat)
                &&& has_edges(g.nodes, a as nat)
                &&& self.memo@.contains_key(node_hash(s, g.nodes, a as nat))
                &&& self.below_visited(g, a as nat)
            }
        &&& forall|h: u128| #[trigger]
            self.memo@.contains_key(h) ==> exists|a: u64| #[trigger]
                self.visited@.contains_key(a) && node_hash(s, g.nodes, a as nat) == h
        &&& c.cloned <= c.replaced
        &&& c.replaced > 0 ==> c.cloned > 0 && c.reused > 0
        &&& c.reused == 0 ==> {
            &&& forall|a: u64| #[trigger]
                self.visited@.contains_key(a) ==> self.visited@[a] is None
            &&& forall|a: u64, b: u64|
                #![trigger self.visited@.contains_key(a), self.visited@.contains_key(b)]
                self.visited@.contains_key(a) && self.visited@.contains_key(b) && node_hash(
                    s,
                    g.nodes,
                    a as nat,
                ) == node_hash(s, g.nodes, b as nat) ==> a == b
        }
    }

    /// The nodes that were rewritten stand in the order, and those are replaced that are redirected.
    spec fn ordered<S: HashScheme<V>>(&self, s: &S, g: Ground<V>) -> bool {
        &&& in_order(g.nodes, self.order@)
        &&& forall|a: u64| #[trigger]
            self.visited@.contains_key(a) <==> self.order@.contains(a as nat)
        &&& forall|a: u64| #[trigger]
            self.visited@.contains_key(a) ==> (self.visited@[a] is Some == is_redirected(
                s,
                g.nodes,
                self.order@,
                a as nat,
            ))
    }

    /// The references that are replaced in the nodes that were rewritten.
    spec fn replaced_in<S: HashScheme<V>>(&self, s: &S, g: Ground<V>) -> nat {
        total_replaced(s, g.nodes, self.order@, self.order@.len())
    }

    /// The nodes that were rewritten in which a reference is replaced.
    spec fn cloned_in<S: HashScheme<V>>(&self, s: &S, g: Ground<V>) -> nat {
        total_cloned(s, g.nodes, self.order@, self.order@.len())
    }

    /// What the counters say since `old`: what was replaced in the nodes that were finished since
    /// then, and `replaced` references and `cloned` nodes besides.
    spec fn tallied<S: HashScheme<V>>(
        &self,
        s: &S,
        g: Ground<V>,
        earlier: &Rewriter<V>,
        replaced: nat,
        cloned: nat,
    ) -> bool {
        let more = self.replaced_in(s, g) - earlier.replaced_in(s, g);
        let copies = self.cloned_in(s, g) - earlier.cloned_in(s, g);
        &&& goes_on(earlier.order@, self.order@)
        &&& more >= 0
        &&& copies >= 0
        &&& self.counters.replaced == capped(
            (earlier.counters.replaced + more + replaced) as nat,
        )
        &&& self.counters.cloned == capped((earlier.counters.cloned + copies + cloned) as nat)
    }

    /// The nodes with edges to which a node leads were rewritten.
    spec fn below_visited(&self, g: Ground<V>, a: nat) -> bool {
        forall|k: int|
            0 <= k < g.nodes[a as int].items@.len() ==> ((
            #[trigger] g.nodes[a as int].items@[k]).child matches Some(c) ==> has_edges(
                g.nodes,
                c as nat,
            ) ==> self.visited@.contains_key(c as u64))
    }

    /// What comes later keeps what is known.
    spec fn within(&self, other: &Rewriter<V>) -> bool {
        &&& nodes_grown(self.nodes@, other.nodes@)
        &&& memo_within(self.memo@, other.memo@)
        &&& other.counters.hash == self.counters.hash
        &&& other.counters.reused >= self.counters.reused
        &&& other.counters.cloned >= self.counters.cloned
        &&& forall|a: u64|
            self.visited@.contains_key(a) ==> #[trigger] other.visited@.contains_key(a)
    }
}

proof fn lemma_within_trans<V>(a: &Rewriter<V>, b: &Rewriter<V>, c: &Rewriter<V>)
    requires
        a.within(b),
        b.within(c),
    ensures
        a.within(c),
{
    lemma_nodes_grown_trans(a.nodes@, b.nodes@, c.nodes@);
    assert forall|h: u128| #[trigger] a.memo@.contains_key(h) implies c.memo@.contains_key(h)
        && c.memo@[h] == a.memo@[h] by {
        assert(b.memo@.contains_key(h));
    }
}

/// What stands in for a node goes on to do so.
proof fn lemma_stands_in_grows<V, S: HashScheme<V>>(
    s: &S,
    g: Ground<V>,
    nodes: Seq<PNode<V>>,
    memo: Map<u128, usize>,
    more: Seq<PNode<V>>,
    wider: Map<u128, usize>,
    i: nat,
    r: Option<usize>,
)
    requires
        nodes_wf(nodes),
        nodes_grown(nodes, more),
        memo_within(memo, wider),
        stands_in(s, g, nodes, memo, i, r),
    ensures
        stands_in(s, g, more, wider, i, r),
{
    let n = match r {
        Some(n) => n as nat,
        None => i,
    };
    lemma_nodes_stable(nodes, more, n);
    assert(node_place(more, n) == node_place(nodes, n));
    lemma_canonical_grows(s, nodes, memo, more, wider, n);
}

fn copy_items<V: Copy>(items: &Vec<Item<V>>) -> (r: Vec<Item<V>>)
    ensures
        r@.len() == items@.len(),
        forall|k: int| 0 <= k < r@.len() ==> same_item(#[trigger] r@[k], items@[k]),
{
    let mut r: Vec<Item<V>> = Vec::new();
    let mut k: usize = 0;
    while k < items.len()
        invariant
            k <= items@.len(),
            r@.len() == k,
            forall|x: int| 0 <= x < k ==> same_item(#[trigger] r@[x], items@[x]),
        decreases items@.len() - k,
    {
        r.push(copy_item(&items[k]));
        k = k + 1;
    }
    r
}

/// The place to which the edge at `k` of a node leads on from the end of `p`.
proof fn lemma_edge_place<V>(nodes: Seq<PNode<V>>, i: nat, k: int, t: Trie<V>, p: Seq<u8>)
    requires
        nodes_wf(nodes),
        i < nodes.len(),
        0 <= k < nodes[i as int].items@.len(),
        t.has(p),
        t.at(p)->Some_0.kids == node_kids(nodes, i),
    ensures
        ({
            let item = nodes[i as int].items@[k];
            t.at(p + item.path@) == Some(item_end(nodes, item, i))
        }),
{
    let item = nodes[i as int].items@[k];
    let end = item_end(nodes, item, i);
    let q = item.path@;
    assert(items_wf(nodes[i as int].items@, i));
    lemma_kid(nodes, i, k);
    lemma_at_concat(t, p, q);
    lemma_chain_at(q.drop_first(), end, q.len() - 1);
    assert(q.drop_first().subrange(0, q.len() - 1) =~= q.drop_first());
    assert(q.drop_first().subrange(q.len() - 1, q.drop_first().len() as int) =~= Seq::<u8>::empty());
}

impl<V: Copy> Rewriter<V> {
    /// Rewrites the trie below the node `i`, returning the node that the parent must lead on to
    /// instead, if any.
    #[verifier::rlimit(40)]
    fn merkleize_impl<S: HashScheme<V>>(
        &mut self,
        s: &S,
        hashes: &NodeHashes,
        i: usize,
        Ghost(g): Ghost<Ground<V>>,
        Ghost(p): Ghost<Seq<u8>>,
    ) -> (r: Option<usize>)
        requires
            old(self).ok(s, g, hashes),
            old(self).counted(s, g),
            old(self).ordered(s, g),
            i < g.nodes.len(),
            hashes.by_address@.contains_key(i as u64),
            reaches(g.nodes, g.root, i as nat),
            g.trie.has(p),
            g.trie.at(p)->Some_0.kids == node_kids(g.nodes, i as nat),
        ensures
            final(self).ok(s, g, hashes),
            old(self).within(final(self)),
            stands_in(s, g, final(self).nodes@, final(self).memo@, i as nat, r),
            all_distinct(s, g.nodes, g.root) ==> r is None,
            final(self).counted(s, g),
            final(self).ordered(s, g),
            final(self).order@ == finished(g.nodes, i as nat, old(self).order@),
            final(self).tallied(s, g, old(self), 0, 0),
            r is Some <==> has_edges(g.nodes, i as nat) && is_redirected(
                s,
                g.nodes,
                final(self).order@,
                i as nat,
            ),
            r is Some ==> final(self).counters.reused > 0,
            has_edges(g.nodes, i as nat) ==> final(self).visited@.contains_key(i as u64),
            forall|a: u64| #[trigger]
                final(self).visited@.contains_key(a) ==> old(self).visited@.contains_key(a) || a
                    <= i,
        decreases i,
    {
        broadcast use group_hash_axioms;

        let ghost i0 = i as nat;
        assert(self.nodes@[i as int] == g.nodes[i as int]);
        assert(items_wf(g.nodes[i as int].items@, i0));
        if self.nodes[i].items.len() == 0 {
            proof {
                lemma_nodes_stable(g.nodes, self.nodes@, i0);
                assert(node_place(self.nodes@, i0) == node_place(g.nodes, i0));
            }
            return None;
        }
        if let Some(previous) = self.visited.get(&(i as u64)) {
            return *previous;
        }
        let count = self.nodes[i].items.len();
        let mut items: Vec<Item<V>> = Vec::new();
        let mut rewritten = false;
        let mut k: usize = 0;
        let ghost mut here: nat = 0;
        let ghost its = g.nodes[i as int].items@;
        let ghost nc = no_collisions(s, g.trie);
        while k < count
            invariant
                k <= count,
                count == its.len(),
                i0 == i,
                i < g.nodes.len(),
                its == g.nodes[i as int].items@,
                items_wf(its, i0),
                hashes.by_address@.contains_key(i as u64),
                hashes.ok(s, g.nodes),
                reaches(g.nodes, g.root, i0),
                g.trie.has(p),
                g.trie.at(p)->Some_0.kids == node_kids(g.nodes, i0),
                nc == no_collisions(s, g.trie),
                self.ok(s, g, hashes),
                old(self).within(self),
                !old(self).visited@.contains_key(i as u64),
                forall|a: u64| #[trigger]
                    self.visited@.contains_key(a) ==> old(self).visited@.contains_key(a) || a < i,
                self.counted(s, g),
                self.ordered(s, g),
                self.order@ == finished_below(g.nodes, i0, k as nat, old(self).order@),
                leads_into(g.nodes, self.order@, i0, k as int),
                self.tallied(s, g, old(self), here, if here > 0 {
                    1
                } else {
                    0
                }),
                here == edges_redirected(s, g.nodes, self.order@, i0, k as nat),
                rewritten == (here > 0),
                rewritten ==> items@.len() == count && self.counters.reused > 0
                    && self.counters.cloned > 0,
                forall|x: int|
                    0 <= x < k ==> ((#[trigger] its[x]).child matches Some(c) ==> has_edges(
                        g.nodes,
                        c as nat,
                    ) ==> self.visited@.contains_key(c as u64)),
                all_distinct(s, g.nodes, g.root) ==> !rewritten,
                forall|x: int|
                    0 <= x < k ==> edge_done(
                        s,
                        g,
                        self.nodes@,
                        self.memo@,
                        #[trigger] its[x],
                        rewritten,
                        items@[x],
                    ),
                forall|x: int| k <= x < count && rewritten ==> same_item(#[trigger] items@[x], its[x]),
            decreases count - k,
        {
            assert(self.nodes@[i as int] == g.nodes[i as int]);
            let child = self.nodes[i].items[k].child;
            let ghost before = *self;
            let ghost item = its[k as int];
            let ghost was_rewritten = rewritten;
            let ghost old_items = items@;
            assert(item.path@.len() > 0);
            let mut replaced_by: Option<usize> = None;
            if let Some(c) = child {
                proof {
                    lemma_reaches_child(g.nodes, g.root, i0, k as int);
                    lemma_edge_place(g.nodes, i0, k as int, g.trie, p);
                    assert(g.nodes[i as int].items@[k as int].child == Some(c));
                }
                replaced_by =
                self.merkleize_impl(s, hashes, c, Ghost(g), Ghost(p + item.path@));
                let ghost done = *self;
                if let Some(n) = replaced_by {
                    if !rewritten {
                        self.counters.cloned = self.counters.cloned.saturating_add(1);
                        assert(self.nodes@[i as int] == g.nodes[i as int]);
                        items = copy_items(&self.nodes[i].items);
                        rewritten = true;
                    }
                    self.counters.replaced = self.counters.replaced.saturating_add(1);
                    let it = copy_item(&items[k]);
                    items[k] = Item { path: it.path, val: it.val, child: Some(n) };
                    proof {
                        lemma_counted_same(s, g, &done, self);
                    }
                }
            }
            proof {
                if child is Some {
                    lemma_within_trans(old(self), &before, self);
                }
                lemma_edge_tallied(s, g, &before, self, i0, k as nat, replaced_by);
                here = edges_redirected(s, g.nodes, self.order@, i0, (k + 1) as nat);
                assert forall|x: int| 0 <= x < k + 1 implies edge_done(
                    s,
                    g,
                    self.nodes@,
                    self.memo@,
                    #[trigger] its[x],
                    rewritten,
                    items@[x],
                ) by {
                    if x < k {
                        assert(edge_done(
                            s,
                            g,
                            before.nodes@,
                            before.memo@,
                            its[x],
                            was_rewritten,
                            old_items[x],
                        ));
                        lemma_edge_grows(
                            s,
                            g,
                            &before,
                            self,
                            its[x],
                            was_rewritten,
                            old_items[x],
                            rewritten,
                            items@[x],
                        );
                    }
                }
            }
            k = k + 1;
        }
        let ghost mid = *self;
        proof {
            assert forall|a: u64| #[trigger] mid.visited@.dom().contains(a) implies a
                < g.nodes.len() by {
                assert(mid.visited@.contains_key(a));
            }
            let more = mid.visited@.dom().insert(i as u64);
            lemma_below_len(more, g.nodes.len());
            assert(self.nodes.len() == self.nodes@.len());
        }
        let hash = *hashes.by_address.get(&(i as u64)).unwrap();
        let known = match self.memo.get(&hash) {
            Some(n) => Some(*n),
            None => None,
        };
        let r: Option<usize>;
        match known {
            // Another node with the same logical contents was seen first: point the parent at it.
            Some(n) => {
                self.counters.reused = self.counters.reused.saturating_add(1);
                r = Some(n);
                proof {
                    assert(mid.memo@.contains_key(hash));
                    lemma_known(s, g, mid.nodes@, mid.memo@, hash, i0, p);
                    if all_distinct(s, g.nodes, g.root) {
                        assert(reaches(g.nodes, g.root, n as nat));
                        assert(n == i);
                        assert(mid.visited@.contains_key(i as u64));
                    }
                }
            },
            None => {
                if rewritten {
                    let n = self.nodes.len();
                    proof {
                        assert forall|x: int| 0 <= x < items@.len() implies (
                        #[trigger] items@[x]).path@.len() > 0 && (items@[x].child matches Some(c)
                            ==> c < n) && items@[x].path@ == its[x].path@ by {
                            assert(edge_done(
                                s,
                                g,
                                self.nodes@,
                                self.memo@,
                                its[x],
                                rewritten,
                                items@[x],
                            ));
                            assert(its[x].path@.len() > 0);
                        }
                        assert forall|x: int, y: int| 0 <= x < y < items@.len() implies (
                        #[trigger] items@[x]).path@[0] != (#[trigger] items@[y]).path@[0] by {
                            assert(its[x].path@[0] != its[y].path@[0]);
                        }
                        assert(items_wf(items@, n as nat));
                    }
                    let ghost new_items = items@;
                    self.nodes.push(PNode { items });
                    self.memo.insert(hash, n);
                    r = Some(n);
                    proof {
                        lemma_new_node(s, g, hashes, &mid, self, i0, n, hash, p, new_items);
                    }
                } else {
                    self.memo.insert(hash, i);
                    r = None;
                    proof {
                        lemma_old_node(s, g, hashes, &mid, self, i0, i, hash, p);
                    }
                }
            },
        }
        self.visited.insert(i as u64, r);
        self.order = Ghost(self.order@.push(i as nat));
        proof {
            lemma_node_tallied(s, g, old(self), &mid, self, i, r, hash, here);
            assert(mid.within(self));
            lemma_within_trans(old(self), &mid, self);
            lemma_counted(s, g, &mid, self, i, r, hash);
            if all_distinct(s, g.nodes, g.root) {
                assert(mid.idle(s, g));
                assert(known is None && !rewritten);
                assert forall|h: u128| #[trigger] self.memo@.contains_key(h) implies {
                    let n = self.memo@[h];
                    &&& self.visited@.contains_key(n as u64)
                    &&& reaches(g.nodes, g.root, n as nat)
                    &&& node_hash(s, g.nodes, n as nat) == h
                    &&& g.nodes[n as int].items@.len() > 0
                } by {
                    if h != hash {
                        assert(mid.memo@.contains_key(h));
                        assert(mid.visited@.contains_key(mid.memo@[h] as u64));
                    }
                }
                assert forall|a: u64| #[trigger] self.visited@.contains_key(a) implies self.visited@[a]
                    is None by {
                    if a != i as u64 {
                        assert(mid.visited@.contains_key(a));
                    }
                }
                assert(self.idle(s, g));
            }
        }
        r
    }
}

/// One more edge was looked at.
proof fn lemma_edge_tallied<V, S: HashScheme<V>>(
    s: &S,
    g: Ground<V>,
    before: &Rewriter<V>,
    after: &Rewriter<V>,
    i: nat,
    k: nat,
    r: Option<usize>,
)
    requires
        nodes_wf(g.nodes),
        i < g.nodes.len(),
        k < g.nodes[i as int].items@.len(),
        before.ordered(s, g),
        after.ordered(s, g),
        goes_on(before.order@, after.order@),
        leads_into(g.nodes, before.order@, i, k as int),
        match g.nodes[i as int].items@[k as int].child {
            Some(c) => {
                &&& has_edges(g.nodes, c as nat) ==> after.visited@.contains_key(c as u64)
                &&& r is Some <==> has_edges(g.nodes, c as nat) && is_redirected(
                    s,
                    g.nodes,
                    after.order@,
                    c as nat,
                )
            },
            None => r is None,
        },
    ensures
        leads_into(g.nodes, after.order@, i, k as int + 1),
        edges_redirected(s, g.nodes, after.order@, i, k + 1) == edges_redirected(
            s,
            g.nodes,
            before.order@,
            i,
            k,
        ) + if r is Some {
            1nat
        } else {
            0
        },
{
    lemma_edges_stable(s, g.nodes, before.order@, after.order@, i, k);
    assert(items_wf(g.nodes[i as int].items@, i));
    assert(g.nodes[i as int].items@[k as int].path@.len() > 0);
    assert forall|e: int| 0 <= e < k + 1 implies ((
    #[trigger] g.nodes[i as int].items@[e]).child matches Some(c) ==> has_edges(g.nodes, c as nat)
        ==> after.order@.contains(c as nat)) by {
        if let Some(c) = g.nodes[i as int].items@[e].child {
            if has_edges(g.nodes, c as nat) {
                if e < k {
                    assert(before.order@.contains(c as nat));
                    lemma_goes_on_contains(before.order@, after.order@, c as nat);
                } else {
                    assert(after.visited@.contains_key(c as u64));
                }
            }
        }
    }
}

/// One more node was finished, in which `here` references were replaced.
proof fn lemma_node_tallied<V, S: HashScheme<V>>(
    s: &S,
    g: Ground<V>,
    earlier: &Rewriter<V>,
    mid: &Rewriter<V>,
    late: &Rewriter<V>,
    i: usize,
    r: Option<usize>,
    hash: u128,
    here: nat,
)
    requires
        nodes_wf(g.nodes),
        g.nodes.len() <= u64::MAX,
        i < g.nodes.len(),
        has_edges(g.nodes, i as nat),
        mid.counted(s, g),
        mid.ordered(s, g),
        hash == node_hash(s, g.nodes, i as nat),
        !earlier.visited@.contains_key(i as u64),
        earlier.ordered(s, g),
        !mid.visited@.contains_key(i as u64),
        mid.order@ == finished_below(
            g.nodes,
            i as nat,
            g.nodes[i as int].items@.len(),
            earlier.order@,
        ),
        leads_into(g.nodes, mid.order@, i as nat, g.nodes[i as int].items@.len() as int),
        here == edges_redirected(
            s,
            g.nodes,
            mid.order@,
            i as nat,
            g.nodes[i as int].items@.len(),
        ),
        mid.tallied(s, g, earlier, here, if here > 0 {
            1
        } else {
            0
        }),
        late.visited@ == mid.visited@.insert(i as u64, r),
        late.order@ == mid.order@.push(i as nat),
        late.counters.cloned == mid.counters.cloned,
        late.counters.replaced == mid.counters.replaced,
        r is Some <==> mid.memo@.contains_key(hash) || here > 0,
    ensures
        late.ordered(s, g),
        late.tallied(s, g, earlier, 0, 0),
        late.order@ == finished(g.nodes, i as nat, earlier.order@),
        r is Some <==> is_redirected(s, g.nodes, late.order@, i as nat),
{
    let me = i as nat;
    let order = mid.order@;
    let next = late.order@;
    assert(!order.contains((i as u64) as nat));
    assert(!earlier.order@.contains((i as u64) as nat));
    lemma_finish(s, g.nodes, order, me);
    lemma_goes_on_trans(earlier.order@, order, next);
    assert forall|a: u64| #[trigger]
        late.visited@.contains_key(a) <==> next.contains(a as nat) by {
        if a == i as u64 {
            assert(next[order.len() as int] == a as nat);
        } else {
            assert(late.visited@.contains_key(a) == mid.visited@.contains_key(a));
            if order.contains(a as nat) {
                lemma_goes_on_contains(order, next, a as nat);
            }
            if next.contains(a as nat) {
                let k = choose|k: int| 0 <= k < next.len() && next[k] == a as nat;
                assert(order[k] == a as nat);
            }
        }
    }
    if mid.memo@.contains_key(hash) {
        let a = choose|a: u64| #[trigger]
            mid.visited@.contains_key(a) && node_hash(s, g.nodes, a as nat) == hash;
        assert(order.contains(a as nat));
        let j = choose|j: int| 0 <= j < order.len() && order[j] == a as nat;
        assert(node_hash(s, g.nodes, order[j]) == node_hash(s, g.nodes, me));
    }
    if exists|j: int|
        0 <= j < order.len() && node_hash(s, g.nodes, #[trigger] order[j]) == node_hash(
            s,
            g.nodes,
            me,
        ) {
        let j = choose|j: int|
            0 <= j < order.len() && node_hash(s, g.nodes, #[trigger] order[j]) == node_hash(
                s,
                g.nodes,
                me,
            );
        let a = order[j] as u64;
        assert(a as nat == order[j]);
        assert(order.contains(a as nat));
        assert(mid.visited@.contains_key(a));
    }
    assert forall|a: u64| #[trigger] late.visited@.contains_key(a) implies (late.visited@[a] is Some
        == is_redirected(s, g.nodes, next, a as nat)) by {
        if a != i as u64 {
            assert(mid.visited@.contains_key(a));
            lemma_redirected_stable(s, g.nodes, order, next, a as nat);
        }
    }
}

/// How many edges were replaced does not matter to which nodes were rewritten.
proof fn lemma_counted_same<V, S: HashScheme<V>>(
    s: &S,
    g: Ground<V>,
    a: &Rewriter<V>,
    b: &Rewriter<V>,
)
    requires
        a.counted(s, g),
        b.visited == a.visited,
        b.memo == a.memo,
        b.counters.reused == a.counters.reused,
        b.counters.cloned <= b.counters.replaced,
        b.counters.replaced > 0 ==> b.counters.cloned > 0 && b.counters.reused > 0,
    ensures
        b.counted(s, g),
{
    assert forall|x: u64| #[trigger] b.visited@.contains_key(x) implies b.below_visited(
        g,
        x as nat,
    ) by {
        assert(a.visited@.contains_key(x));
        assert(a.below_visited(g, x as nat));
    }
}

/// One more node was rewritten.
proof fn lemma_counted<V, S: HashScheme<V>>(
    s: &S,
    g: Ground<V>,
    mid: &Rewriter<V>,
    late: &Rewriter<V>,
    i: usize,
    r: Option<usize>,
    hash: u128,
)
    requires
        mid.counted(s, g),
        i < g.nodes.len(),
        reaches(g.nodes, g.root, i as nat),
        has_edges(g.nodes, i as nat),
        mid.below_visited(g, i as nat),
        hash == node_hash(s, g.nodes, i as nat),
        !mid.visited@.contains_key(i as u64),
        late.visited@ == mid.visited@.insert(i as u64, r),
        late.counters.cloned == mid.counters.cloned,
        late.counters.replaced == mid.counters.replaced,
        if mid.memo@.contains_key(hash) {
            late.memo@ == mid.memo@ && late.counters.reused == mid.counters.reused + 1
        } else {
            &&& late.memo@.dom() == mid.memo@.dom().insert(hash)
            &&& late.counters.reused == mid.counters.reused
            &&& r is Some ==> mid.counters.reused > 0
        },
    ensures
        late.counted(s, g),
{
    let me = i as u64;
    assert forall|a: u64| #[trigger] late.visited@.contains_key(a) implies {
        &&& a < g.nodes.len()
        &&& reaches(g.nodes, g.root, a as nat)
        &&& has_edges(g.nodes, a as nat)
        &&& late.memo@.contains_key(node_hash(s, g.nodes, a as nat))
        &&& late.below_visited(g, a as nat)
    } by {
        let b: nat = a as nat;
        assert(mid.below_visited(g, b)) by {
            if a != me {
                assert(mid.visited@.contains_key(a));
            }
        }
        assert forall|k: int| 0 <= k < g.nodes[b as int].items@.len() implies ((
        #[trigger] g.nodes[b as int].items@[k]).child matches Some(c) ==> has_edges(
            g.nodes,
            c as nat,
        ) ==> late.visited@.contains_key(c as u64)) by {}
        assert(late.memo@.dom().contains(node_hash(s, g.nodes, b))) by {
            if a != me {
                assert(mid.visited@.contains_key(a));
                assert(mid.memo@.dom().contains(node_hash(s, g.nodes, b)));
            }
        }
    }
    assert forall|h: u128| #[trigger] late.memo@.contains_key(h) implies exists|a: u64| #[trigger]
        late.visited@.contains_key(a) && node_hash(s, g.nodes, a as nat) == h by {
        if h == hash {
            assert(late.visited@.contains_key(me));
        } else {
            assert(late.memo@.dom().contains(h));
            assert(mid.memo@.dom().contains(h));
            assert(mid.memo@.contains_key(h));
            let a = choose|a: u64| #[trigger]
                mid.visited@.contains_key(a) && node_hash(s, g.nodes, a as nat) == h;
            assert(late.visited@.contains_key(a));
        }
    }
    if late.counters.reused == 0 {
        assert forall|a: u64, b: u64|
            #![trigger late.visited@.contains_key(a), late.visited@.contains_key(b)]
            late.visited@.contains_key(a) && late.visited@.contains_key(b) && node_hash(
                s,
                g.nodes,
                a as nat,
            ) == node_hash(s, g.nodes, b as nat) implies a == b by {
            if a != me {
                assert(mid.visited@.contains_key(a));
            }
            if b != me {
                assert(mid.visited@.contains_key(b));
            }
        }
        assert forall|a: u64| #[trigger] late.visited@.contains_key(a) implies late.visited@[a]
            is None by {
            if a != me {
                assert(mid.visited@.contains_key(a));
            }
        }
    }
}

/// All nodes with edges below a node that was rewritten were rewritten.
proof fn lemma_all_visited<V, S: HashScheme<V>>(
    s: &S,
    g: Ground<V>,
    w: &Rewriter<V>,
    i: nat,
    j: nat,
)
    requires
        w.counted(s, g),
        i < g.nodes.len(),
        g.nodes.len() <= u64::MAX,
        has_edges(g.nodes, i) ==> w.visited@.contains_key(i as u64),
        reaches(g.nodes, i, j),
        has_edges(g.nodes, j),
    ensures
        w.visited@.contains_key(j as u64),
    decreases i,
{
    if i != j {
        let k = choose|k: int|
            0 <= k < g.nodes[i as int].items@.len() && ((
            #[trigger] g.nodes[i as int].items@[k]).child matches Some(c) && c < i && reaches(
                g.nodes,
                c as nat,
                j,
            ));
        let c = g.nodes[i as int].items@[k].child->Some_0;
        assert(w.visited@.contains_key(i as u64));
        assert(w.below_visited(g, i));
        assert(g.nodes[i as int].items@[k].child == Some(c));
        lemma_all_visited(s, g, w, c as nat, j);
    }
}

/// What the statistics say of the map.
proof fn lemma_statistics<V, S: HashScheme<V>>(s: &S, g: Ground<V>, w: &Rewriter<V>)
    requires
        w.counted(s, g),
        g.root < g.nodes.len(),
        g.nodes.len() <= u64::MAX,
        has_edges(g.nodes, g.root) ==> w.visited@.contains_key(g.root as u64),
    ensures
        w.counters.reused + hashes_of(s, g.nodes, g.root).len() == nodes_with_edges(
            g.nodes,
            g.root,
        ).len(),
        w.counters.reused == 0 ==> all_distinct(s, g.nodes, g.root),
{
    let all = nodes_with_edges(g.nodes, g.root);
    assert forall|a: u64| #[trigger] all.contains(a) == w.visited@.dom().contains(a) by {
        if all.contains(a) {
            lemma_all_visited(s, g, w, g.root, a as nat);
        }
        if w.visited@.contains_key(a) {
            assert(reaches(g.nodes, g.root, a as nat));
        }
    }
    assert(all =~= w.visited@.dom());
    let hashes = hashes_of(s, g.nodes, g.root);
    assert forall|h: u128| #[trigger] hashes.contains(h) == w.memo@.dom().contains(h) by {
        if hashes.contains(h) {
            let a = choose|a: u64| #[trigger]
                all.contains(a) && node_hash(s, g.nodes, a as nat) == h;
            assert(w.visited@.contains_key(a));
        }
        if w.memo@.contains_key(h) {
            let a = choose|a: u64| #[trigger]
                w.visited@.contains_key(a) && node_hash(s, g.nodes, a as nat) == h;
            assert(all.contains(a));
        }
    }
    assert(hashes =~= w.memo@.dom());
    if w.counters.reused == 0 {
        assert forall|a: nat, b: nat|
            #![trigger reaches(g.nodes, g.root, a), reaches(g.nodes, g.root, b)]
            reaches(g.nodes, g.root, a) && reaches(g.nodes, g.root, b)
                && g.nodes[a as int].items@.len() > 0 && g.nodes[b as int].items@.len() > 0
                && node_hash(s, g.nodes, a) == node_hash(s, g.nodes, b) implies a == b by {
            lemma_all_visited(s, g, w, g.root, a);
            lemma_all_visited(s, g, w, g.root, b);
            lemma_reaches_back(g.nodes, g.root, a);
            lemma_reaches_back(g.nodes, g.root, b);
            assert(w.visited@.contains_key(a as u64));
            assert(w.visited@.contains_key(b as u64));
            assert(a as u64 == b as u64);
        }
    }
}

/// The edge leads to what stands in for where it led before.
spec fn edge_done<V, S: HashScheme<V>>(
    s: &S,
    g: Ground<V>,
    nodes: Seq<PNode<V>>,
    memo: Map<u128, usize>,
    item: Item<V>,
    rewritten: bool,
    new_item: Item<V>,
) -> bool {
    &&& item.child matches Some(c) ==> c < g.nodes.len() && stands_in(
        s,
        g,
        nodes,
        memo,
        c as nat,
        if rewritten {
            new_item.child
        } else {
            None
        },
    )
    &&& rewritten ==> new_item.path@ == item.path@ && new_item.val == item.val && (
    new_item.child is Some <==> item.child is Some) && (new_item.child matches Some(n) ==> n
        < nodes.len())
}

proof fn lemma_reaches_trans<V>(nodes: Seq<PNode<V>>, a: nat, b: nat, c: nat)
    requires
        reaches(nodes, a, b),
        reaches(nodes, b, c),
    ensures
        reaches(nodes, a, c),
    decreases a,
{
    if a != b {
        let k = choose|k: int|
            0 <= k < nodes[a as int].items@.len() && ((
            #[trigger] nodes[a as int].items@[k]).child matches Some(x) && x < a && reaches(
                nodes,
                x as nat,
                b,
            ));
        let x = nodes[a as int].items@[k].child->Some_0;
        lemma_reaches_trans(nodes, x as nat, b, c);
        assert(nodes[a as int].items@[k].child == Some(x));
    }
}

proof fn lemma_reaches_child<V>(nodes: Seq<PNode<V>>, root: nat, i: nat, k: int)
    requires
        reaches(nodes, root, i),
        items_wf(nodes[i as int].items@, i),
        0 <= k < nodes[i as int].items@.len(),
        nodes[i as int].items@[k].child is Some,
    ensures
        reaches(nodes, root, nodes[i as int].items@[k].child->Some_0 as nat),
{
    let c = nodes[i as int].items@[k].child->Some_0;
    assert(nodes[i as int].items@[k].child == Some(c));
    assert(reaches(nodes, c as nat, c as nat));
    assert(reaches(nodes, i, c as nat));
    lemma_reaches_trans(nodes, root, i, c as nat);
}

proof fn lemma_edge_grows<V, S: HashScheme<V>>(
    s: &S,
    g: Ground<V>,
    before: &Rewriter<V>,
    after: &Rewriter<V>,
    item: Item<V>,
    was_rewritten: bool,
    old_item: Item<V>,
    rewritten: bool,
    new_item: Item<V>,
)
    requires
        nodes_wf(before.nodes@),
        nodes_grown(before.nodes@, after.nodes@),
        memo_within(before.memo@, after.memo@),
        nodes_grown(g.nodes, after.nodes@),
        edge_done(s, g, before.nodes@, before.memo@, item, was_rewritten, old_item),
        was_rewritten ==> rewritten && new_item == old_item,
        !was_rewritten && rewritten ==> same_item(new_item, item),
    ensures
        edge_done(s, g, after.nodes@, after.memo@, item, rewritten, new_item),
{
    if let Some(c) = item.child {
        let r = if was_rewritten {
            old_item.child
        } else {
            None
        };
        lemma_stands_in_grows(
            s,
            g,
            before.nodes@,
            before.memo@,
            after.nodes@,
            after.memo@,
            c as nat,
            r,
        );
    }
}

/// The node that is known by the hash of another stands in for it.
proof fn lemma_known<V, S: HashScheme<V>>(
    s: &S,
    g: Ground<V>,
    nodes: Seq<PNode<V>>,
    memo: Map<u128, usize>,
    hash: u128,
    i: nat,
    p: Seq<u8>,
)
    requires
        memo.contains_key(hash),
        known_by(s, g, nodes, memo, hash),
        hash == node_hash(s, g.nodes, i),
        g.trie.has(p),
        g.trie.at(p)->Some_0.kids == node_kids(g.nodes, i),
    ensures
        stands_in(s, g, nodes, memo, i, Some(memo[hash])),
{
    if no_collisions(s, g.trie) {
        let n = memo[hash] as nat;
        let q = choose|q: Seq<u8>| #[trigger]
            is_place_of(s, g.trie, q, node_kids(nodes, n), hash);
        lemma_below_kids(s, g.trie.at(p)->Some_0, node_place(g.nodes, i));
        assert(g.trie.at(p)->Some_0.kids == g.trie.at(q)->Some_0.kids);
    }
}

/// What is known and was found keeps its meaning when one more hash is known.
proof fn lemma_known_grows<V, S: HashScheme<V>>(
    s: &S,
    g: Ground<V>,
    hashes: &NodeHashes,
    mid: &Rewriter<V>,
    late: &Rewriter<V>,
    hash: u128,
)
    requires
        mid.ok(s, g, hashes),
        nodes_grown(mid.nodes@, late.nodes@),
        !mid.memo@.contains_key(hash),
        late.memo@ == mid.memo@.insert(hash, late.memo@[hash]),
        late.visited == mid.visited,
        known_by(s, g, late.nodes@, late.memo@, hash),
    ensures
        memo_within(mid.memo@, late.memo@),
        nodes_grown(g.nodes, late.nodes@),
        forall|h: u128| #[trigger]
            late.memo@.contains_key(h) ==> known_by(s, g, late.nodes@, late.memo@, h),
        forall|a: u64| #[trigger]
            late.visited@.contains_key(a) ==> a < g.nodes.len() && stands_in(
                s,
                g,
                late.nodes@,
                late.memo@,
                a as nat,
                late.visited@[a],
            ),
{
    lemma_nodes_grown_trans(g.nodes, mid.nodes@, late.nodes@);
    assert forall|h: u128| #[trigger] late.memo@.contains_key(h) implies known_by(
        s,
        g,
        late.nodes@,
        late.memo@,
        h,
    ) by {
        if h != hash {
            assert(mid.memo@.contains_key(h));
            let n = mid.memo@[h] as nat;
            lemma_nodes_stable(mid.nodes@, late.nodes@, n);
            assert(node_place(late.nodes@, n) == node_place(mid.nodes@, n));
            lemma_canonical_grows(s, mid.nodes@, mid.memo@, late.nodes@, late.memo@, n);
            if no_collisions(s, g.trie) {
                let q = choose|q: Seq<u8>| #[trigger]
                    is_place_of(s, g.trie, q, node_kids(mid.nodes@, n), h);
                assert(is_place_of(s, g.trie, q, node_kids(late.nodes@, n), h));
            }
        }
    }
    assert forall|a: u64| #[trigger] late.visited@.contains_key(a) implies a < g.nodes.len()
        && stands_in(s, g, late.nodes@, late.memo@, a as nat, late.visited@[a]) by {
        lemma_stands_in_grows(
            s,
            g,
            mid.nodes@,
            mid.memo@,
            late.nodes@,
            late.memo@,
            a as nat,
            mid.visited@[a],
        );
    }
}

/// A new node for the rewritten edges.
proof fn lemma_new_node<V, S: HashScheme<V>>(
    s: &S,
    g: Ground<V>,
    hashes: &NodeHashes,
    mid: &Rewriter<V>,
    late: &Rewriter<V>,
    i: nat,
    n: usize,
    hash: u128,
    p: Seq<u8>,
    items: Seq<Item<V>>,
)
    requires
        mid.ok(s, g, hashes),
        n == mid.nodes@.len(),
        i < g.nodes.len(),
        late.nodes@.len() == n + 1,
        nodes_grown(mid.nodes@, late.nodes@),
        late.nodes@[n as int].items@ == items,
        items_wf(items, n as nat),
        items.len() == g.nodes[i as int].items@.len(),
        forall|x: int|
            0 <= x < items.len() ==> edge_done(
                s,
                g,
                mid.nodes@,
                mid.memo@,
                #[trigger] g.nodes[i as int].items@[x],
                true,
                items[x],
            ),
        !mid.memo@.contains_key(hash),
        hash == node_hash(s, g.nodes, i),
        late.memo@ == mid.memo@.insert(hash, n),
        late.visited == mid.visited,
        g.trie.has(p),
        g.trie.at(p)->Some_0.kids == node_kids(g.nodes, i),
    ensures
        nodes_wf(late.nodes@),
        memo_within(mid.memo@, late.memo@),
        nodes_grown(g.nodes, late.nodes@),
        forall|h: u128| #[trigger]
            late.memo@.contains_key(h) ==> known_by(s, g, late.nodes@, late.memo@, h),
        forall|a: u64| #[trigger]
            late.visited@.contains_key(a) ==> a < g.nodes.len() && stands_in(
                s,
                g,
                late.nodes@,
                late.memo@,
                a as nat,
                late.visited@[a],
            ),
        stands_in(s, g, late.nodes@, late.memo@, i, Some(n)),
{
    let nodes = late.nodes@;
    let its = g.nodes[i as int].items@;
    lemma_nodes_grown_trans(g.nodes, mid.nodes@, nodes);
    assert(nodes[i as int] == g.nodes[i as int]);
    assert forall|x: int| 0 <= x < nodes.len() implies items_wf(
        (#[trigger] nodes[x]).items@,
        x as nat,
    ) by {
        if x < n {
            assert(mid.nodes@[x] == nodes[x]);
        }
    }
    lemma_nodes_stable(g.nodes, nodes, i);
    assert(node_place(nodes, i) == node_place(g.nodes, i));
    assert forall|x: int| 0 <= x < nodes[i as int].items@.len() implies {
        let a = #[trigger] nodes[i as int].items@[x];
        let b = nodes[n as int].items@[x];
        &&& same_edge(s, nodes, a, b)
        &&& no_collisions(s, g.trie) ==> item_end(nodes, a, i) == item_end(nodes, b, n as nat)
        &&& b.child matches Some(c) ==> canonical(s, nodes, late.memo@, c as nat)
    } by {
        let a = its[x];
        let b = items[x];
        assert(edge_done(s, g, mid.nodes@, mid.memo@, g.nodes[i as int].items@[x], true, b));
        assert(items_wf(its, i));
        if let Some(c) = a.child {
            assert(its[x].path@.len() > 0);
            lemma_nodes_stable(g.nodes, nodes, c as nat);
            let m = b.child->Some_0;
            lemma_nodes_stable(mid.nodes@, nodes, m as nat);
            assert(node_place(nodes, c as nat) == node_place(g.nodes, c as nat));
            assert(node_place(nodes, m as nat) == node_place(mid.nodes@, m as nat));
            lemma_canonical_grows(s, mid.nodes@, mid.memo@, nodes, late.memo@, m as nat);
        }
    }
    lemma_same_hash(s, nodes, i, n as nat);
    assert(canonical(s, nodes, late.memo@, n as nat)) by {
        assert forall|k: int| 0 <= k < nodes[n as int].items@.len() implies ((
        #[trigger] nodes[n as int].items@[k]).child matches Some(c) ==> c < n && canonical(
            s,
            nodes,
            late.memo@,
            c as nat,
        )) by {
            let a = nodes[i as int].items@[k];
            assert(items[k].path@.len() > 0);
        }
    }
    if no_collisions(s, g.trie) {
        lemma_same_kids(nodes, i, n as nat);
        assert(node_place(nodes, n as nat) == node_place(g.nodes, i));
        lemma_below_kids(s, g.trie.at(p)->Some_0, node_place(g.nodes, i));
        assert(is_place_of(s, g.trie, p, node_kids(nodes, n as nat), hash));
    }
    assert(known_by(s, g, nodes, late.memo@, hash));
    lemma_known_grows(s, g, hashes, mid, late, hash);
}

/// The node itself becomes known by its hash.
proof fn lemma_old_node<V, S: HashScheme<V>>(
    s: &S,
    g: Ground<V>,
    hashes: &NodeHashes,
    mid: &Rewriter<V>,
    late: &Rewriter<V>,
    i: nat,
    n: usize,
    hash: u128,
    p: Seq<u8>,
)
    requires
        mid.ok(s, g, hashes),
        n == i,
        i < g.nodes.len(),
        late.nodes@ == mid.nodes@,
        forall|x: int|
            0 <= x < g.nodes[i as int].items@.len() ==> ((
            #[trigger] g.nodes[i as int].items@[x]).child matches Some(c) ==> c < i && stands_in(
                s,
                g,
                mid.nodes@,
                mid.memo@,
                c as nat,
                None,
            )),
        !mid.memo@.contains_key(hash),
        hash == node_hash(s, g.nodes, i),
        late.memo@ == mid.memo@.insert(hash, n),
        late.visited == mid.visited,
        g.trie.has(p),
        g.trie.at(p)->Some_0.kids == node_kids(g.nodes, i),
    ensures
        memo_within(mid.memo@, late.memo@),
        nodes_grown(g.nodes, late.nodes@),
        forall|h: u128| #[trigger]
            late.memo@.contains_key(h) ==> known_by(s, g, late.nodes@, late.memo@, h),
        forall|a: u64| #[trigger]
            late.visited@.contains_key(a) ==> a < g.nodes.len() && stands_in(
                s,
                g,
                late.nodes@,
                late.memo@,
                a as nat,
                late.visited@[a],
            ),
        stands_in(s, g, late.nodes@, late.memo@, i, None),
{
    let nodes = late.nodes@;
    assert(nodes[i as int] == g.nodes[i as int]);
    lemma_nodes_stable(g.nodes, nodes, i);
    assert(node_place(nodes, i) == node_place(g.nodes, i));
    assert(canonical(s, nodes, late.memo@, i)) by {
        assert forall|k: int| 0 <= k < nodes[i as int].items@.len() implies ((
        #[trigger] nodes[i as int].items@[k]).child matches Some(c) ==> c < i && canonical(
            s,
            nodes,
            late.memo@,
            c as nat,
        )) by {
            assert(nodes[i as int].items@[k] == g.nodes[i as int].items@[k]);
            if let Some(c) = nodes[i as int].items@[k].child {
                lemma_canonical_grows(
                    s,
                    mid.nodes@,
                    mid.memo@,
                    nodes,
                    late.memo@,
                    c as nat,
                );
            }
        }
    }
    if no_collisions(s, g.trie) {
        lemma_below_kids(s, g.trie.at(p)->Some_0, node_place(g.nodes, i));
        assert(is_place_of(s, g.trie, p, node_kids(nodes, i), hash));
    }
    assert(known_by(s, g, nodes, late.memo@, hash));
    lemma_known_grows(s, g, hashes, mid, late, hash);
}

impl<V> PathMap<V> {
    /// No two nodes of the map that have edges have the same hash: what stands for the same is one
    /// node.
    pub closed spec fn maximally_shared<S: HashScheme<V>>(&self, s: &S) -> bool {
        all_distinct(s, self.node_seq(), self.root as nat)
    }

    /// The numbers of the nodes in use that have edges.
    pub closed spec fn edge_nodes(&self) -> Set<u64> {
        nodes_with_edges(self.node_seq(), self.root as nat)
    }

    /// The hashes of the nodes in use that have edges.
    pub closed spec fn edge_hashes<S: HashScheme<V>>(&self, s: &S) -> Set<u128> {
        hashes_of(s, self.node_seq(), self.root as nat)
    }

    /// The nodes in use that have edges, each behind those to which it leads, in the order of the
    /// edges.
    pub closed spec fn edge_order(&self) -> Seq<nat> {
        finished(self.node_seq(), self.root as nat, Seq::empty())
    }

    /// Another node takes the place of the node `a` once of the nodes with one hash only the first in
    /// the order is left: that one, or a copy in which references are replaced.
    pub closed spec fn redirected<S: HashScheme<V>>(&self, s: &S, a: nat) -> bool {
        is_redirected(s, self.node_seq(), self.edge_order(), a)
    }

    /// The number of references to nodes in whose place another comes once of the nodes with one hash
    /// only the first in the order is left.
    pub closed spec fn redirected_references<S: HashScheme<V>>(&self, s: &S) -> nat {
        total_replaced(s, self.node_seq(), self.edge_order(), self.edge_order().len())
    }

    /// The number of nodes that hold such a reference.
    pub closed spec fn redirecting_nodes<S: HashScheme<V>>(&self, s: &S) -> nat {
        total_cloned(s, self.node_seq(), self.edge_order(), self.edge_order().len())
    }

    /// The nodes in use are the root and those that nodes in use refer to. Of those the ones with edges
    /// are meant: no fewer, and no more than any set that is closed in this way.
    pub proof fn law_edge_nodes(&self, a: u64, k: int, all: Set<u64>)
        requires
            self.wf(),
        ensures
            self.edge_nodes().contains(a) ==> a < self.made() && self.items_at(a as usize)@.len() > 0,
            self.items_at(self.top())@.len() > 0 ==> self.edge_nodes().contains(self.top() as u64),
            self.edge_nodes().contains(a) && 0 <= k < self.items_at(a as usize)@.len() ==> (
            self.items_at(a as usize)@[k].child matches Some(c) ==> self.items_at(c)@.len() > 0
                ==> self.edge_nodes().contains(c as u64)),
            self.edge_nodes().contains(a) && closed_below(self, all) ==> all.contains(a),
            self.edge_nodes().finite(),
    {
        self.lemma_root();
        self.lemma_nodes();
        let nodes = self.node_seq();
        let root = self.root as nat;
        self.law_edge_order();
        self.lemma_kids_at(self.root);
        assert(reaches(nodes, root, root));
        if self.edge_nodes().contains(a) {
            lemma_reaches_bound(nodes, root, a as nat);
            if 0 <= k < nodes[a as int].items@.len() {
                if let Some(c) = nodes[a as int].items@[k].child {
                    assert(items_wf(nodes[a as int].items@, a as nat));
                    assert(nodes[a as int].items@[k].path@.len() > 0);
                    lemma_reaches_child(nodes, root, a as nat, k);
                }
            }
            if closed_below(self, all) {
                lemma_closed(self, all, root, a as nat);
            }
        }
        let order = self.edge_order();
        let listed = order.map_values(|x: nat| x as u64).to_set();
        assert forall|x: u64| #[trigger] self.edge_nodes().contains(x) implies listed.contains(x) by {
            assert(order.contains(x as nat));
            let j = choose|j: int| 0 <= j < order.len() && order[j] == x as nat;
            assert(order.map_values(|x: nat| x as u64)[j] == x);
        }
        vstd::set_lib::lemma_len_subset(self.edge_nodes(), listed);
    }

    /// The hashes are those of what leads on from these nodes.
    pub proof fn law_edge_hashes<S: HashScheme<V>>(&self, s: &S, h: u128)
        requires
            self.wf(),
        ensures
            self.edge_hashes(s).contains(h) <==> exists|a: u64| #[trigger]
                self.edge_nodes().contains(a) && below_hash(
                    s,
                    Trie { val: None, kids: self.kids_at(a as usize) },
                ) == h,
    {
        self.lemma_nodes();
        let nodes = self.node_seq();
        let root = self.root as nat;
        assert forall|a: u64| #[trigger] self.edge_nodes().contains(a) implies node_hash(
            s,
            nodes,
            a as nat,
        ) == below_hash(s, Trie { val: None, kids: self.kids_at(a as usize) }) by {
            lemma_reaches_bound(nodes, root, a as nat);
            self.lemma_kids_at(a as usize);
            lemma_below_kids(
                s,
                node_place(nodes, a as nat),
                Trie { val: None, kids: self.kids_at(a as usize) },
            );
        }
        if self.edge_hashes(s).contains(h) {
            let a = choose|a: u64| #[trigger]
                nodes_with_edges(nodes, root).contains(a) && node_hash(s, nodes, a as nat) == h;
            assert(self.edge_nodes().contains(a));
        }
    }

    /// The order names each of these nodes once, behind those to which it leads.
    pub proof fn law_edge_order(&self)
        requires
            self.wf(),
        ensures
            forall|a: u64| #[trigger]
                self.edge_nodes().contains(a) <==> self.edge_order().contains(a as nat),
            forall|j: int, k: int|
                0 <= j < k < self.edge_order().len() ==> self.edge_order()[j]
                    != self.edge_order()[k],
            forall|k: int|
                0 <= k < self.edge_order().len() ==> (#[trigger] self.edge_order()[k])
                    < self.made(),
    {
        self.lemma_root();
        self.lemma_nodes();
        let nodes = self.node_seq();
        lemma_finished(nodes, self.root as nat, Seq::empty());
        assert forall|a: u64| #[trigger]
            self.edge_nodes().contains(a) <==> self.edge_order().contains(a as nat) by {}
    }

    /// A node is redirected where one with its hash comes before it in the order, or one of its
    /// references leads to a node that is.
    pub proof fn law_redirected<S: HashScheme<V>>(&self, s: &S, a: nat)
        requires
            self.wf(),
            self.edge_order().contains(a),
        ensures
            self.redirected(s, a) <==> {
                ||| exists|j: int, k: int|
                    0 <= j < k < self.edge_order().len() && #[trigger] self.edge_order()[k] == a
                        && below_hash(
                        s,
                        Trie {
                            val: None,
                            kids: self.kids_at(#[trigger] self.edge_order()[j] as usize),
                        },
                    ) == below_hash(s, Trie { val: None, kids: self.kids_at(a as usize) })
                ||| exists|e: int|
                    0 <= e < self.items_at(a as usize)@.len() && ((
                    #[trigger] self.items_at(a as usize)@[e]).child matches Some(c)
                        && self.items_at(c)@.len() > 0 && self.redirected(s, c as nat))
            },
    {
        self.lemma_root();
        self.lemma_nodes();
        self.law_edge_order();
        let nodes = self.node_seq();
        let order = self.edge_order();
        assert forall|k: int| 0 <= k < order.len() implies below_hash(
            s,
            Trie { val: None, kids: self.kids_at(#[trigger] order[k] as usize) },
        ) == node_hash(s, nodes, order[k]) by {
            assert(order[k] < self.made());
            self.lemma_kids_at(order[k] as usize);
            lemma_below_kids(
                s,
                node_place(nodes, order[k]),
                Trie { val: None, kids: self.kids_at(order[k] as usize) },
            );
        }
        let m = choose|m: int| 0 <= m < order.len() && order[m] == a;
        assert(order[m] < self.made());
        let items = nodes[a as int].items@;
        assert(self.items_at(a as usize)@ == items);
        assert(items_wf(items, a));
        if comes_later(s, nodes, order, a) {
            let (j, k) = choose|j: int, k: int|
                0 <= j < k < order.len() && #[trigger] order[k] == a && node_hash(
                    s,
                    nodes,
                    #[trigger] order[j],
                ) == node_hash(s, nodes, a);
            assert(order[k] == a && order[j] == order[j]);
        }
        if exists|j: int, k: int|
            0 <= j < k < order.len() && #[trigger] order[k] == a && below_hash(
                s,
                Trie { val: None, kids: self.kids_at(#[trigger] order[j] as usize) },
            ) == below_hash(s, Trie { val: None, kids: self.kids_at(a as usize) }) {
            let (j, k) = choose|j: int, k: int|
                0 <= j < k < order.len() && #[trigger] order[k] == a && below_hash(
                    s,
                    Trie { val: None, kids: self.kids_at(#[trigger] order[j] as usize) },
                ) == below_hash(s, Trie { val: None, kids: self.kids_at(a as usize) });
            assert(node_hash(s, nodes, order[j]) == node_hash(s, nodes, order[k]));
            assert(comes_later(s, nodes, order, a));
        }
        assert forall|e: int| 0 <= e < items.len() implies ((#[trigger] items[e]).child matches Some(
            c,
        ) ==> c < a) by {
            assert(items[e].path@.len() > 0);
        }
    }

    /// The references that are counted are those, in the nodes that are meant, to nodes with edges that
    /// are redirected; the copies are of the nodes that hold one.
    pub proof fn law_redirected_references<S: HashScheme<V>>(
        &self,
        s: &S,
        edges: Set<(nat, int)>,
        holders: Set<nat>,
    )
        requires
            self.wf(),
            forall|a: nat, e: int| #[trigger]
                edges.contains((a, e)) <==> self.edge_order().contains(a) && 0 <= e
                    < self.items_at(a as usize)@.len() && self.leads_astray(s, a as usize, e),
            forall|a: nat| #[trigger]
                holders.contains(a) <==> exists|e: int| #[trigger] edges.contains((a, e)),
        ensures
            edges.finite(),
            edges.len() == self.redirected_references(s),
            holders.finite(),
            holders.len() == self.redirecting_nodes(s),
    {
        self.lemma_root();
        self.lemma_nodes();
        self.law_edge_order();
        let nodes = self.node_seq();
        let order = self.edge_order();
        let n = order.len() as int;
        lemma_finished(nodes, self.root as nat, Seq::empty());
        lemma_totals_are_numbers(s, nodes, order, order.len());
        assert(order.subrange(0, n) =~= order);
        assert forall|a: nat, e: int| order.contains(a) && 0 <= e
            < nodes[a as int].items@.len() implies #[trigger] edge_redirected(s, nodes, order, a, e)
            == self.leads_astray(s, a as usize, e) && self.items_at(a as usize)@
            == nodes[a as int].items@ by {
            let m = choose|m: int| 0 <= m < order.len() && order[m] == a;
            assert(order[m] < self.made());
            assert(items_wf(nodes[a as int].items@, a));
            assert(nodes[a as int].items@[e].path@.len() > 0);
        }
        let mine = edges_upto(s, nodes, order, n);
        assert forall|x: (nat, int)| edges.contains(x) == #[trigger] mine.contains(x) by {
            let (a, e) = x;
            assert(edges.contains((a, e)) == edges.contains(x));
            if order.contains(a) {
                let m = choose|m: int| 0 <= m < order.len() && order[m] == a;
                assert(order[m] < self.made());
                assert(self.items_at(a as usize)@ == nodes[a as int].items@);
                if 0 <= e < nodes[a as int].items@.len() {
                    assert(edge_redirected(s, nodes, order, a, e) == self.leads_astray(
                        s,
                        a as usize,
                        e,
                    ));
                }
            }
        }
        assert(edges =~= mine);
        let held = nodes_upto(s, nodes, order, n);
        assert forall|a: nat| holders.contains(a) == #[trigger] held.contains(a) by {
            if holders.contains(a) {
                let e = choose|e: int| #[trigger] edges.contains((a, e));
                assert(mine.contains((a, e)));
                assert(edge_redirected(s, nodes, order, a, e));
            }
            if held.contains(a) {
                let e = choose|e: int|
                    0 <= e < nodes[a as int].items@.len() && #[trigger] edge_redirected(
                        s,
                        nodes,
                        order,
                        a,
                        e,
                    );
                assert(mine.contains((a, e)));
                assert(edges.contains((a, e)));
            }
        }
        assert(holders =~= held);
    }

    /// The edge `e` of a node refers to a node with edges that is redirected.
    pub open spec fn leads_astray<S: HashScheme<V>>(&self, s: &S, a: usize, e: int) -> bool {
        self.items_at(a)@[e].child matches Some(c) && self.items_at(c)@.len() > 0
            && self.redirected(s, c as nat)
    }

    /// In a map whose nodes are maximally shared, places that are numbered and stand for the same
    /// have the same number, unless nothing leads on from them.
    pub proof fn lemma_maximally_shared<S: HashScheme<V>>(&self, s: &S, p: Seq<u8>, q: Seq<u8>)
        requires
            self.wf(),
            self.maximally_shared(s),
            self.share(p) is Some,
            self.share(q) is Some,
            self.trie().at(p) == self.trie().at(q),
            self.trie().at(p)->Some_0.kids != Map::<u8, Trie<V>>::empty(),
        ensures
            self.share(p) == self.share(q),
    {
        self.lemma_root();
        self.lemma_nodes();
        self.lemma_share(p);
        self.lemma_share(q);
        self.lemma_share_is(p);
        self.lemma_share_is(q);
        let nodes = self.node_seq();
        let root = self.root as nat;
        lemma_share_reaches(nodes, root, p);
        lemma_share_reaches(nodes, root, q);
        let a = self.share(p)->Some_0 as nat;
        let b = self.share(q)->Some_0 as nat;
        assert(node_place(nodes, a) == node_place(nodes, b));
        if nodes[a as int].items@.len() == 0 {
            assert(node_kids(nodes, a) =~= Map::empty());
        }
        if nodes[b as int].items@.len() == 0 {
            assert(node_kids(nodes, b) =~= Map::empty());
        }
    }

    /// The hash of the trie.
    pub fn hash_with<S: HashScheme<V>>(&self, s: &S) -> (r: u128)
        requires
            self.wf(),
        ensures
            r == place_hash(s, self.trie()),
    {
        broadcast use group_hash_axioms;

        let mut hashes = NodeHashes { by_address: HashMap::new() };
        self.hash_into(s, &mut hashes)
    }

    fn hash_into<S: HashScheme<V>>(&self, s: &S, hashes: &mut NodeHashes) -> (r: u128)
        requires
            self.wf(),
            old(hashes).ok(s, self.node_seq()),
        ensures
            r == place_hash(s, self.trie()),
            final(hashes).ok(s, self.node_seq()),
            final(hashes).by_address@.contains_key(self.root as u64),
    {
        proof {
            self.lemma_root();
        }
        let below = hash_nodes(s, self, self.root, hashes);
        proof {
            lemma_below_kids(s, self.trie(), node_place(self.node_seq(), self.root as nat));
        }
        match &self.root_val {
            Some(v) => s.with_value(s.value(v), below),
            None => below,
        }
    }
}

/// The root is in the set where it has edges, and with a node those with edges to which it refers.
pub open spec fn closed_below<V>(map: &PathMap<V>, all: Set<u64>) -> bool {
    &&& map.items_at(map.top())@.len() > 0 ==> all.contains(map.top() as u64)
    &&& forall|a: u64, k: int|
        all.contains(a) && 0 <= k < map.items_at(a as usize)@.len() ==> ((
        #[trigger] map.items_at(a as usize)@[k]).child matches Some(c) ==> map.items_at(c)@.len()
            > 0 ==> all.contains(c as u64))
}

proof fn lemma_reaches_bound<V>(nodes: Seq<PNode<V>>, i: nat, j: nat)
    requires
        reaches(nodes, i, j),
    ensures
        j <= i,
    decreases i,
{
    if i != j {
        let k = choose|k: int|
            0 <= k < nodes[i as int].items@.len() && ((
            #[trigger] nodes[i as int].items@[k]).child matches Some(c) && c < i && reaches(
                nodes,
                c as nat,
                j,
            ));
        lemma_reaches_bound(nodes, nodes[i as int].items@[k].child->Some_0 as nat, j);
    }
}

/// What is reached from a node of the set is in the set.
proof fn lemma_closed<V>(map: &PathMap<V>, all: Set<u64>, i: nat, j: nat)
    requires
        map.wf(),
        closed_below(map, all),
        i <= map.root,
        i == map.root || all.contains(i as u64),
        reaches(map.node_seq(), i, j),
        has_edges(map.node_seq(), j),
    ensures
        all.contains(j as u64),
    decreases i,
{
    let nodes = map.node_seq();
    map.lemma_root();
    map.lemma_nodes();
    map.lemma_kids_at(map.root);
    assert(map.items_at(i as usize)@ == nodes[i as int].items@);
    if i != j {
        let k = choose|k: int|
            0 <= k < nodes[i as int].items@.len() && ((
            #[trigger] nodes[i as int].items@[k]).child matches Some(c) && c < i && reaches(
                nodes,
                c as nat,
                j,
            ));
        let c = nodes[i as int].items@[k].child->Some_0;
        assert(all.contains(i as u64));
        assert(map.items_at(i as usize)@[k].child == Some(c));
        assert(map.items_at(c)@ == nodes[c as int].items@);
        assert(nodes[c as int].items@.len() > 0) by {
            if c as nat != j {
                let h = choose|h: int|
                    0 <= h < nodes[c as int].items@.len() && ((
                    #[trigger] nodes[c as int].items@[h]).child matches Some(d) && d < c && reaches(
                        nodes,
                        d as nat,
                        j,
                    ));
            }
        }
        lemma_closed(map, all, c as nat, j);
    }
}

/// What merging the nodes of a map whose hashes are equal makes of it, and the statistics `r` of that.
///
/// The hash stays, and each hash then belongs to one node. Of the nodes with edges all are re-used but
/// one for each hash. The references counted are those to a node in whose place another comes, and the
/// copies are of the nodes that hold such a reference. Where different tries have different hashes the
/// map stands for the same; where each hash belongs to one node already, nothing changes.
pub open spec fn merkleized<V, S: HashScheme<V>>(
    s: &S,
    before: &PathMap<V>,
    after: &PathMap<V>,
    r: MerkleizeResult,
) -> bool {
    &&& r.hash == place_hash(s, before.trie())
    &&& place_hash(s, after.trie()) == r.hash
    &&& after.maximally_shared(s)
    &&& no_collisions(s, before.trie()) ==> after.trie() == before.trie()
    &&& r.reused + before.edge_hashes(s).len() == before.edge_nodes().len()
    &&& r.reused == 0 <==> before.maximally_shared(s)
    &&& r.replaced == capped(before.redirected_references(s))
    &&& r.cloned == capped(before.redirecting_nodes(s))
    &&& r.cloned <= r.replaced
    &&& r.replaced > 0 ==> r.cloned > 0 && r.reused > 0
    &&& before.maximally_shared(s) ==> {
        &&& after.trie() == before.trie()
        &&& after.made() == before.made()
        &&& forall|p: Seq<u8>| #[trigger] after.share(p) == before.share(p)
    }
}

impl<V: Copy> PathMap<V> {
    /// Merges the nodes of the map whose hashes are equal.
    ///
    /// Nodes are identified by the hash of the **logical** trie below them. Two nodes therefore
    /// merge whenever they hold the same paths and values, regardless of how those paths are laid
    /// out in nodes and edges, and regardless of the value the parent stores for the node's root
    /// position. So the scheme must be one whose collisions are negligible: where the tries below
    /// the places of the map all have different hashes, the map stands for the same afterwards.
    /// Afterwards each hash belongs to one node; a map of which that is true already is left alone.
    /// Of the nodes with edges all were re-used but one for each hash.
    pub fn merkleize_with<S: HashScheme<V>>(&mut self, s: &S) -> (r: MerkleizeResult)
        requires
            old(self).wf(),
        ensures
            final(self).wf(),
            merkleized(s, old(self), final(self), r),
    {
        broadcast use group_hash_axioms;

        let mut hashes = NodeHashes { by_address: HashMap::new() };
        let hash = self.hash_into(s, &mut hashes);
        let ghost g = Ground {
            nodes: self.node_seq(),
            trie: self.trie(),
            root: self.root as nat,
        };
        let ghost before = *self;
        let mut nodes: Vec<PNode<V>> = Vec::new();
        nodes.append(&mut self.nodes);
        let mut counters = MerkleizeResult::default();
        counters.hash = hash;
        let mut w = Rewriter {
            nodes,
            memo: HashMap::new(),
            visited: HashMap::new(),
            counters,
            order: Ghost(Seq::empty()),
        };
        proof {
            before.lemma_root();
            before.lemma_nodes();
            before.lemma_rebuilt(before.nodes@);
            assert(w.nodes@ =~= g.nodes);
            assert(g.trie.at(Seq::empty()) == Some(g.trie));
            assert(reaches(g.nodes, g.root, g.root));
        }
        let replaced = w.merkleize_impl(s, &hashes, self.root, Ghost(g), Ghost(Seq::empty()));
        if let Some(n) = replaced {
            self.root = n;
        }
        self.nodes = w.nodes;
        proof {
            self.lemma_rebuilt(w.nodes@);
            let n = self.root as nat;
            lemma_canonical_distinct(s, w.nodes@, w.memo@, n);
            lemma_statistics(s, g, &w);
            self.lemma_root();
            assert forall|p: Seq<u8>| old(self).maximally_shared(s) implies #[trigger] self.share(p)
                == old(self).share(p) by {
                self.lemma_share_is(p);
                old(self).lemma_share_is(p);
            }
            lemma_below_kids(s, self.trie(), node_place(w.nodes@, n));
            lemma_below_kids(s, g.trie, node_place(g.nodes, g.root));
        }
        w.counters
    }
}

impl<V: Copy + HashValue> PathMap<V> {
    /// Merges the nodes of the map that stand for the same, as
    /// [merkleize_with](Self::merkleize_with) does by the scheme of this crate.
    pub fn merkleize(&mut self) -> (r: MerkleizeResult)
        requires
            old(self).wf(),
        ensures
            final(self).wf(),
            merkleized(&MixScheme, old(self), final(self), r),
    {
        self.merkleize_with(&MixScheme)
    }

    /// The hash of the trie.
    pub fn hash(&self) -> (r: u128)
        requires
            self.wf(),
        ensures
            r == place_hash(&MixScheme, self.trie()),
    {
        self.hash_with(&MixScheme)
    }
}

} // verus!

//! Which references of a map lead elsewhere once equal nodes are one.

use vstd::prelude::*;

use crate::path_map::hash_scheme::HashScheme;
use crate::path_map::map::{items_wf, nodes_wf, PNode};
use crate::path_map::merkleization::{has_edges, node_hash, reaches};

verus! {

/// The nodes with edges in the order in which they are finished, each behind those it leads to: those
/// in `seen`, and then those at and below `i` that are not among them.
pub open spec fn finished<V>(nodes: Seq<PNode<V>>, i: nat, seen: Seq<nat>) -> Seq<nat>
    decreases i, 1nat, 0nat,
{
    if !has_edges(nodes, i) || seen.contains(i) {
        seen
    } else {
        finished_below(nodes, i, nodes[i as int].items@.len(), seen).push(i)
    }
}

/// The same for the nodes to which the first `n` edges of `i` lead.
pub open spec fn finished_below<V>(
    nodes: Seq<PNode<V>>,
    i: nat,
    n: nat,
    seen: Seq<nat>,
) -> Seq<nat>
    decreases i, 0nat, n,
{
    if n == 0 {
        seen
    } else {
        let before = finished_below(nodes, i, (n - 1) as nat, seen);
        match nodes[i as int].items@[n - 1].child {
            Some(c) => if c < i {
                finished(nodes, c as nat, before)
            } else {
                before
            },
            None => before,
        }
    }
}

/// A node with the hash of `a` comes before it.
pub open spec fn comes_later<V, S: HashScheme<V>>(
    s: &S,
    nodes: Seq<PNode<V>>,
    order: Seq<nat>,
    a: nat,
) -> bool {
    exists|j: int, k: int|
        0 <= j < k < order.len() && #[trigger] order[k] == a && node_hash(
            s,
            nodes,
            #[trigger] order[j],
        ) == node_hash(s, nodes, a)
}

/// Another node takes the place of `a`: the first with its hash, or a copy in which references are
/// replaced.
pub open spec fn is_redirected<V, S: HashScheme<V>>(
    s: &S,
    nodes: Seq<PNode<V>>,
    order: Seq<nat>,
    a: nat,
) -> bool
    decreases a,
{
    comes_later(s, nodes, order, a) || exists|e: int|
        0 <= e < nodes[a as int].items@.len() && ((
        #[trigger] nodes[a as int].items@[e]).child matches Some(c) && c < a && has_edges(
            nodes,
            c as nat,
        ) && is_redirected(s, nodes, order, c as nat))
}

/// The reference that the edge `e` of `a` holds is replaced.
pub open spec fn edge_redirected<V, S: HashScheme<V>>(
    s: &S,
    nodes: Seq<PNode<V>>,
    order: Seq<nat>,
    a: nat,
    e: int,
) -> bool {
    nodes[a as int].items@[e].child matches Some(c) && c < a && has_edges(nodes, c as nat)
        && is_redirected(s, nodes, order, c as nat)
}

/// How many of the references in the first `n` edges of `a` are replaced.
pub open spec fn edges_redirected<V, S: HashScheme<V>>(
    s: &S,
    nodes: Seq<PNode<V>>,
    order: Seq<nat>,
    a: nat,
    n: nat,
) -> nat
    decreases n,
{
    if n == 0 {
        0
    } else {
        edges_redirected(s, nodes, order, a, (n - 1) as nat) + if edge_redirected(
            s,
            nodes,
            order,
            a,
            n - 1,
        ) {
            1nat
        } else {
            0
        }
    }
}

/// How many references of the first `k` nodes are replaced.
pub open spec fn total_replaced<V, S: HashScheme<V>>(
    s: &S,
    nodes: Seq<PNode<V>>,
    order: Seq<nat>,
    k: nat,
) -> nat
    decreases k,
{
    if k == 0 {
        0
    } else {
        let a = order[k - 1];
        total_replaced(s, nodes, order, (k - 1) as nat) + edges_redirected(
            s,
            nodes,
            order,
            a,
            nodes[a as int].items@.len(),
        )
    }
}

/// How many of the first `k` nodes have a reference that is replaced.
pub open spec fn total_cloned<V, S: HashScheme<V>>(
    s: &S,
    nodes: Seq<PNode<V>>,
    order: Seq<nat>,
    k: nat,
) -> nat
    decreases k,
{
    if k == 0 {
        0
    } else {
        let a = order[k - 1];
        total_cloned(s, nodes, order, (k - 1) as nat) + if edges_redirected(
            s,
            nodes,
            order,
            a,
            nodes[a as int].items@.len(),
        ) > 0 {
            1nat
        } else {
            0
        }
    }
}

/// Where the number is too large for a counter, the largest that fits.
pub open spec fn capped(n: nat) -> nat {
    if n <= usize::MAX {
        n
    } else {
        usize::MAX as nat
    }
}

/// Each node comes once and behind those with edges to which it leads.
pub open spec fn in_order<V>(nodes: Seq<PNode<V>>, order: Seq<nat>) -> bool {
    &&& forall|j: int, k: int| 0 <= j < k < order.len() ==> order[j] != order[k]
    &&& forall|k: int|
        0 <= k < order.len() ==> (#[trigger] order[k]) < nodes.len() && leads_into(
            nodes,
            order,
            order[k],
            nodes[order[k] as int].items@.len() as int,
        )
}

/// The nodes with edges to which the first `n` edges of `a` lead are in `order`.
pub open spec fn leads_into<V>(nodes: Seq<PNode<V>>, order: Seq<nat>, a: nat, n: int) -> bool {
    forall|e: int|
        0 <= e < n ==> ((#[trigger] nodes[a as int].items@[e]).child matches Some(c) ==> has_edges(
            nodes,
            c as nat,
        ) ==> order.contains(c as nat))
}

/// `longer` begins with `order`.
pub open spec fn goes_on(order: Seq<nat>, longer: Seq<nat>) -> bool {
    &&& order.len() <= longer.len()
    &&& forall|k: int| 0 <= k < order.len() ==> #[trigger] order[k] == longer[k]
}

/// What comes behind does not matter to the nodes that are there.
pub proof fn lemma_redirected_stable<V, S: HashScheme<V>>(
    s: &S,
    nodes: Seq<PNode<V>>,
    order: Seq<nat>,
    longer: Seq<nat>,
    a: nat,
)
    requires
        nodes_wf(nodes),
        in_order(nodes, order),
        in_order(nodes, longer),
        goes_on(order, longer),
        order.contains(a),
    ensures
        is_redirected(s, nodes, longer, a) == is_redirected(s, nodes, order, a),
    decreases a,
{
    let m = choose|m: int| 0 <= m < order.len() && order[m] == a;
    assert(order[m] == longer[m]);
    assert(items_wf(nodes[a as int].items@, a));
    if comes_later(s, nodes, order, a) {
        let (j, k) = choose|j: int, k: int|
            0 <= j < k < order.len() && #[trigger] order[k] == a && node_hash(
                s,
                nodes,
                #[trigger] order[j],
            ) == node_hash(s, nodes, a);
        assert(longer[k] == a && longer[j] == order[j]);
    }
    if comes_later(s, nodes, longer, a) {
        let (j, k) = choose|j: int, k: int|
            0 <= j < k < longer.len() && #[trigger] longer[k] == a && node_hash(
                s,
                nodes,
                #[trigger] longer[j],
            ) == node_hash(s, nodes, a);
        assert(k == m) by {
            if k < m {
                assert(longer[k] != longer[m]);
            } else if m < k {
                assert(longer[m] != longer[k]);
            }
        }
        assert(order[k] == a && order[j] == longer[j]);
    }
    assert forall|e: int| 0 <= e < nodes[a as int].items@.len() implies ((
    #[trigger] nodes[a as int].items@[e]).child matches Some(c) ==> has_edges(nodes, c as nat)
        ==> is_redirected(s, nodes, longer, c as nat) == is_redirected(
        s,
        nodes,
        order,
        c as nat,
    )) by {
        if let Some(c) = nodes[a as int].items@[e].child {
            if has_edges(nodes, c as nat) {
                assert(leads_into(
                    nodes,
                    order,
                    order[m],
                    nodes[order[m] as int].items@.len() as int,
                ));
                assert(order.contains(c as nat));
                assert(nodes[a as int].items@[e].path@.len() > 0);
                lemma_redirected_stable(s, nodes, order, longer, c as nat);
            }
        }
    }
}

pub proof fn lemma_edges_stable<V, S: HashScheme<V>>(
    s: &S,
    nodes: Seq<PNode<V>>,
    order: Seq<nat>,
    longer: Seq<nat>,
    a: nat,
    n: nat,
)
    requires
        nodes_wf(nodes),
        in_order(nodes, order),
        in_order(nodes, longer),
        goes_on(order, longer),
        a < nodes.len(),
        n <= nodes[a as int].items@.len(),
        leads_into(nodes, order, a, n as int),
    ensures
        edges_redirected(s, nodes, longer, a, n) == edges_redirected(s, nodes, order, a, n),
    decreases n,
{
    if n > 0 {
        lemma_edges_stable(s, nodes, order, longer, a, (n - 1) as nat);
        if let Some(c) = nodes[a as int].items@[n - 1].child {
            if has_edges(nodes, c as nat) {
                assert(order.contains(c as nat));
                lemma_redirected_stable(s, nodes, order, longer, c as nat);
            }
        }
    }
}

pub proof fn lemma_totals_stable<V, S: HashScheme<V>>(
    s: &S,
    nodes: Seq<PNode<V>>,
    order: Seq<nat>,
    longer: Seq<nat>,
    k: nat,
)
    requires
        nodes_wf(nodes),
        in_order(nodes, order),
        in_order(nodes, longer),
        goes_on(order, longer),
        k <= order.len(),
    ensures
        total_replaced(s, nodes, longer, k) == total_replaced(s, nodes, order, k),
        total_cloned(s, nodes, longer, k) == total_cloned(s, nodes, order, k),
    decreases k,
{
    if k > 0 {
        lemma_totals_stable(s, nodes, order, longer, (k - 1) as nat);
        let a = order[k - 1];
        assert(longer[k - 1] == a);
        lemma_edges_stable(s, nodes, order, longer, a, nodes[a as int].items@.len());
    }
}

/// Where a reference is replaced there is an edge that holds it.
pub proof fn lemma_some_edge<V, S: HashScheme<V>>(
    s: &S,
    nodes: Seq<PNode<V>>,
    order: Seq<nat>,
    a: nat,
    n: nat,
)
    ensures
        edges_redirected(s, nodes, order, a, n) > 0 <==> exists|e: int|
            0 <= e < n && ((#[trigger] nodes[a as int].items@[e]).child matches Some(c) && c < a
                && has_edges(nodes, c as nat) && is_redirected(s, nodes, order, c as nat)),
    decreases n,
{
    if n > 0 {
        lemma_some_edge(s, nodes, order, a, (n - 1) as nat);
        let last = nodes[a as int].items@[n - 1];
        if edges_redirected(s, nodes, order, a, (n - 1) as nat) > 0 {
            let e = choose|e: int|
                0 <= e < n - 1 && ((#[trigger] nodes[a as int].items@[e]).child matches Some(c)
                    && c < a && has_edges(nodes, c as nat) && is_redirected(
                    s,
                    nodes,
                    order,
                    c as nat,
                ));
            assert(0 <= e < n && nodes[a as int].items@[e].child is Some);
        }
    }
}

/// A node is finished: it is redirected where one with its hash came before or one of its references
/// is replaced, and the totals grow by what is replaced in it.
pub proof fn lemma_finish<V, S: HashScheme<V>>(
    s: &S,
    nodes: Seq<PNode<V>>,
    order: Seq<nat>,
    a: nat,
)
    requires
        nodes_wf(nodes),
        in_order(nodes, order),
        a < nodes.len(),
        !order.contains(a),
        leads_into(nodes, order, a, nodes[a as int].items@.len() as int),
    ensures
        ({
            let next = order.push(a);
            let n = nodes[a as int].items@.len();
            let here = edges_redirected(s, nodes, order, a, n);
            let known = exists|j: int|
                0 <= j < order.len() && node_hash(s, nodes, #[trigger] order[j]) == node_hash(
                    s,
                    nodes,
                    a,
                );
            &&& in_order(nodes, next)
            &&& goes_on(order, next)
            &&& is_redirected(s, nodes, next, a) == (known || here > 0)
            &&& total_replaced(s, nodes, next, next.len()) == total_replaced(
                s,
                nodes,
                order,
                order.len(),
            ) + here
            &&& total_cloned(s, nodes, next, next.len()) == total_cloned(
                s,
                nodes,
                order,
                order.len(),
            ) + if here > 0 {
                1nat
            } else {
                0
            }
        }),
{
    let next = order.push(a);
    let n = nodes[a as int].items@.len();
    let m = order.len() as int;
    assert forall|k: int| 0 <= k < next.len() implies (#[trigger] next[k]) < nodes.len()
        && leads_into(nodes, next, next[k], nodes[next[k] as int].items@.len() as int) by {
        let b = next[k];
        assert(leads_into(nodes, order, b, nodes[b as int].items@.len() as int)) by {
            if k < m {
                assert(order[k] == b);
            }
        }
        assert forall|e: int| 0 <= e < nodes[b as int].items@.len() implies ((
        #[trigger] nodes[b as int].items@[e]).child matches Some(c) ==> has_edges(nodes, c as nat)
            ==> next.contains(c as nat)) by {
            if let Some(c) = nodes[b as int].items@[e].child {
                if has_edges(nodes, c as nat) {
                    assert(order.contains(c as nat));
                    let x = choose|x: int| 0 <= x < order.len() && order[x] == c as nat;
                    assert(next[x] == c as nat);
                }
            }
        }
    }
    assert forall|j: int, k: int| 0 <= j < k < next.len() implies next[j] != next[k] by {
        if k == m {
            assert(order.contains(order[j]));
        }
    }
    lemma_edges_stable(s, nodes, order, next, a, n);
    lemma_totals_stable(s, nodes, order, next, order.len());
    lemma_some_edge(s, nodes, next, a, n);
    if exists|j: int|
        0 <= j < order.len() && node_hash(s, nodes, #[trigger] order[j]) == node_hash(s, nodes, a) {
        let j = choose|j: int|
            0 <= j < order.len() && node_hash(s, nodes, #[trigger] order[j]) == node_hash(
                s,
                nodes,
                a,
            );
        assert(next[m] == a && next[j] == order[j]);
        assert(comes_later(s, nodes, next, a));
    }
    if comes_later(s, nodes, next, a) {
        let (j, k) = choose|j: int, k: int|
            0 <= j < k < next.len() && #[trigger] next[k] == a && node_hash(
                s,
                nodes,
                #[trigger] next[j],
            ) == node_hash(s, nodes, a);
        assert(k == m) by {
            if k < m {
                assert(order.contains(order[k]));
            }
        }
        assert(order[j] == next[j]);
    }
}

pub proof fn lemma_goes_on_trans(a: Seq<nat>, b: Seq<nat>, c: Seq<nat>)
    requires
        goes_on(a, b),
        goes_on(b, c),
    ensures
        goes_on(a, c),
{
    assert forall|k: int| 0 <= k < a.len() implies #[trigger] a[k] == c[k] by {
        assert(a[k] == b[k]);
        assert(b[k] == c[k]);
    }
}

/// What is in an order is in one that goes on.
pub proof fn lemma_goes_on_contains(a: Seq<nat>, b: Seq<nat>, x: nat)
    requires
        goes_on(a, b),
        a.contains(x),
    ensures
        b.contains(x),
{
    let k = choose|k: int| 0 <= k < a.len() && a[k] == x;
    assert(b[k] == x);
}

/// A node that stands in an order stands there with all that it leads to.
proof fn lemma_order_reaches<V>(nodes: Seq<PNode<V>>, order: Seq<nat>, i: nat, a: nat)
    requires
        in_order(nodes, order),
        order.contains(i),
        reaches(nodes, i, a),
        has_edges(nodes, a),
    ensures
        order.contains(a),
    decreases i,
{
    if i != a {
        let k = choose|k: int|
            0 <= k < nodes[i as int].items@.len() && ((
            #[trigger] nodes[i as int].items@[k]).child matches Some(c) && c < i && reaches(
                nodes,
                c as nat,
                a,
            ));
        let c = nodes[i as int].items@[k].child->Some_0;
        let m = choose|m: int| 0 <= m < order.len() && order[m] == i;
        assert(leads_into(nodes, order, order[m], nodes[order[m] as int].items@.len() as int));
        assert(has_edges(nodes, c as nat)) by {
            if c as nat != a {
                let j = choose|j: int|
                    0 <= j < nodes[c as int].items@.len() && ((
                    #[trigger] nodes[c as int].items@[j]).child matches Some(d) && d < c && reaches(
                        nodes,
                        d as nat,
                        a,
                    ));
            }
        }
        assert(nodes[i as int].items@[k].child == Some(c));
        lemma_order_reaches(nodes, order, c as nat, a);
    }
}

/// The nodes that come to be finished are those with edges at and below a node, each once and behind
/// those that it leads to.
pub proof fn lemma_finished<V>(nodes: Seq<PNode<V>>, i: nat, seen: Seq<nat>)
    requires
        nodes_wf(nodes),
        i < nodes.len(),
        in_order(nodes, seen),
    ensures
        in_order(nodes, finished(nodes, i, seen)),
        goes_on(seen, finished(nodes, i, seen)),
        forall|a: nat| #[trigger]
            finished(nodes, i, seen).contains(a) <==> seen.contains(a) || (reaches(nodes, i, a)
                && has_edges(nodes, a)),
    decreases i, 1nat, 0nat,
{
    let r = finished(nodes, i, seen);
    if !has_edges(nodes, i) {
        assert forall|a: nat| reaches(nodes, i, a) && has_edges(nodes, a) implies false by {}
    } else if seen.contains(i) {
        assert forall|a: nat| #[trigger] r.contains(a) <==> seen.contains(a) || (reaches(
            nodes,
            i,
            a,
        ) && has_edges(nodes, a)) by {
            if reaches(nodes, i, a) && has_edges(nodes, a) {
                lemma_order_reaches(nodes, seen, i, a);
            }
        }
    } else {
        let n = nodes[i as int].items@.len();
        let below = finished_below(nodes, i, n, seen);
        lemma_finished_below(nodes, i, n, seen);
        assert(!below.contains(i)) by {
            if below.contains(i) {
                assert(leads_down(nodes, i, n as int, i));
                let e = choose|e: int|
                    0 <= e < n && ((#[trigger] nodes[i as int].items@[e]).child matches Some(c) && c
                        < i && reaches(nodes, c as nat, i));
                lemma_reaches_down(nodes, nodes[i as int].items@[e].child->Some_0 as nat, i);
            }
        }
        assert(leads_into(nodes, below, i, n as int)) by {
            assert forall|e: int| 0 <= e < n implies ((
            #[trigger] nodes[i as int].items@[e]).child matches Some(c) ==> has_edges(
                nodes,
                c as nat,
            ) ==> below.contains(c as nat)) by {
                if let Some(c) = nodes[i as int].items@[e].child {
                    if has_edges(nodes, c as nat) {
                        assert(items_wf(nodes[i as int].items@, i));
                        assert(nodes[i as int].items@[e].path@.len() > 0);
                        assert(reaches(nodes, c as nat, c as nat));
                        assert(leads_down(nodes, i, n as int, c as nat));
                    }
                }
            }
        }
        lemma_in_order_push(nodes, below, i);
        lemma_goes_on_trans(seen, below, r);
        assert forall|a: nat| #[trigger] r.contains(a) <==> seen.contains(a) || (reaches(
            nodes,
            i,
            a,
        ) && has_edges(nodes, a)) by {
            if r.contains(a) {
                let k = choose|k: int| 0 <= k < r.len() && r[k] == a;
                if k < below.len() {
                    assert(below[k] == a);
                    assert(below.contains(a));
                }
            }
            if a == i {
                assert(r[below.len() as int] == i);
            }
            if below.contains(a) {
                let k = choose|k: int| 0 <= k < below.len() && below[k] == a;
                assert(r[k] == a);
            }
        }
    }
}

/// One of the first `n` edges of `i` leads to a node at or above `a`.
spec fn leads_down<V>(nodes: Seq<PNode<V>>, i: nat, n: int, a: nat) -> bool {
    exists|e: int|
        0 <= e < n && ((#[trigger] nodes[i as int].items@[e]).child matches Some(c) && c < i
            && reaches(nodes, c as nat, a))
}

proof fn lemma_reaches_down<V>(nodes: Seq<PNode<V>>, i: nat, a: nat)
    requires
        reaches(nodes, i, a),
    ensures
        a <= i,
    decreases i,
{
    if i != a {
        let k = choose|k: int|
            0 <= k < nodes[i as int].items@.len() && ((
            #[trigger] nodes[i as int].items@[k]).child matches Some(c) && c < i && reaches(
                nodes,
                c as nat,
                a,
            ));
        lemma_reaches_down(nodes, nodes[i as int].items@[k].child->Some_0 as nat, a);
    }
}

proof fn lemma_in_order_push<V>(nodes: Seq<PNode<V>>, order: Seq<nat>, a: nat)
    requires
        in_order(nodes, order),
        a < nodes.len(),
        !order.contains(a),
        leads_into(nodes, order, a, nodes[a as int].items@.len() as int),
    ensures
        in_order(nodes, order.push(a)),
        goes_on(order, order.push(a)),
{
    let next = order.push(a);
    assert forall|k: int| 0 <= k < next.len() implies (#[trigger] next[k]) < nodes.len()
        && leads_into(nodes, next, next[k], nodes[next[k] as int].items@.len() as int) by {
        let b = next[k];
        assert(leads_into(nodes, order, b, nodes[b as int].items@.len() as int)) by {
            if k < order.len() {
                assert(order[k] == b);
            }
        }
        assert forall|e: int| 0 <= e < nodes[b as int].items@.len() implies ((
        #[trigger] nodes[b as int].items@[e]).child matches Some(c) ==> has_edges(nodes, c as nat)
            ==> next.contains(c as nat)) by {
            if let Some(c) = nodes[b as int].items@[e].child {
                if has_edges(nodes, c as nat) {
                    lemma_goes_on_contains(order, next, c as nat);
                }
            }
        }
    }
    assert forall|j: int, k: int| 0 <= j < k < next.len() implies next[j] != next[k] by {
        if k == order.len() {
            assert(order.contains(order[j]));
        }
    }
}

proof fn lemma_finished_below<V>(nodes: Seq<PNode<V>>, i: nat, n: nat, seen: Seq<nat>)
    requires
        nodes_wf(nodes),
        i < nodes.len(),
        n <= nodes[i as int].items@.len(),
        in_order(nodes, seen),
    ensures
        in_order(nodes, finished_below(nodes, i, n, seen)),
        goes_on(seen, finished_below(nodes, i, n, seen)),
        forall|a: nat| #[trigger]
            finished_below(nodes, i, n, seen).contains(a) <==> seen.contains(a) || (leads_down(
                nodes,
                i,
                n as int,
                a,
            ) && has_edges(nodes, a)),
    decreases i, 0nat, n,
{
    if n > 0 {
        let k = (n - 1) as nat;
        let before = finished_below(nodes, i, k, seen);
        let r = finished_below(nodes, i, n, seen);
        lemma_finished_below(nodes, i, k, seen);
        assert(items_wf(nodes[i as int].items@, i));
        let item = nodes[i as int].items@[k as int];
        assert(item.path@.len() > 0);
        if let Some(c) = item.child {
            lemma_finished(nodes, c as nat, before);
            lemma_goes_on_trans(seen, before, r);
        }
        assert forall|a: nat| #[trigger] r.contains(a) <==> seen.contains(a) || (leads_down(
            nodes,
            i,
            n as int,
            a,
        ) && has_edges(nodes, a)) by {
            if leads_down(nodes, i, k as int, a) {
                let e = choose|e: int|
                    0 <= e < k && ((#[trigger] nodes[i as int].items@[e]).child matches Some(c) && c
                        < i && reaches(nodes, c as nat, a));
                assert(0 <= e < n && nodes[i as int].items@[e].child is Some);
            }
            if leads_down(nodes, i, n as int, a) && !leads_down(nodes, i, k as int, a) {
                let e = choose|e: int|
                    0 <= e < n && ((#[trigger] nodes[i as int].items@[e]).child matches Some(c) && c
                        < i && reaches(nodes, c as nat, a));
                assert(e == k);
            }
            if item.child is Some && reaches(nodes, item.child->Some_0 as nat, a) {
                assert(leads_down(nodes, i, n as int, a));
            }
        }
    }
}

/// The edges of the node `a` whose references are replaced, of the first `n`.
pub open spec fn edges_of<V, S: HashScheme<V>>(
    s: &S,
    nodes: Seq<PNode<V>>,
    order: Seq<nat>,
    a: nat,
    n: int,
) -> Set<(nat, int)> {
    Set::new(|x: (nat, int)| x.0 == a && 0 <= x.1 < n && edge_redirected(s, nodes, order, a, x.1))
}

proof fn lemma_edges_of<V, S: HashScheme<V>>(
    s: &S,
    nodes: Seq<PNode<V>>,
    order: Seq<nat>,
    a: nat,
    n: nat,
)
    ensures
        edges_of(s, nodes, order, a, n as int).finite(),
        edges_of(s, nodes, order, a, n as int).len() == edges_redirected(s, nodes, order, a, n),
    decreases n,
{
    let all = edges_of(s, nodes, order, a, n as int);
    if n == 0 {
        assert(all =~= Set::empty());
    } else {
        lemma_edges_of(s, nodes, order, a, (n - 1) as nat);
        let before = edges_of(s, nodes, order, a, n - 1);
        if edge_redirected(s, nodes, order, a, n - 1) {
            assert(all =~= before.insert((a, n - 1)));
        } else {
            assert(all =~= before);
        }
    }
}

/// The edges of the first `k` nodes whose references are replaced.
pub open spec fn edges_upto<V, S: HashScheme<V>>(
    s: &S,
    nodes: Seq<PNode<V>>,
    order: Seq<nat>,
    k: int,
) -> Set<(nat, int)> {
    Set::new(
        |x: (nat, int)|
            order.subrange(0, k).contains(x.0) && 0 <= x.1 < nodes[x.0 as int].items@.len()
                && edge_redirected(s, nodes, order, x.0, x.1),
    )
}

/// The nodes among the first `k` that have such edges.
pub open spec fn nodes_upto<V, S: HashScheme<V>>(
    s: &S,
    nodes: Seq<PNode<V>>,
    order: Seq<nat>,
    k: int,
) -> Set<nat> {
    Set::new(
        |a: nat|
            order.subrange(0, k).contains(a) && exists|e: int|
                0 <= e < nodes[a as int].items@.len() && #[trigger] edge_redirected(
                    s,
                    nodes,
                    order,
                    a,
                    e,
                ),
    )
}

/// The totals are the numbers of those edges and of those nodes.
pub proof fn lemma_totals_are_numbers<V, S: HashScheme<V>>(
    s: &S,
    nodes: Seq<PNode<V>>,
    order: Seq<nat>,
    k: nat,
)
    requires
        in_order(nodes, order),
        k <= order.len(),
    ensures
        edges_upto(s, nodes, order, k as int).finite(),
        edges_upto(s, nodes, order, k as int).len() == total_replaced(s, nodes, order, k),
        nodes_upto(s, nodes, order, k as int).finite(),
        nodes_upto(s, nodes, order, k as int).len() == total_cloned(s, nodes, order, k),
    decreases k,
{
    let edges = edges_upto(s, nodes, order, k as int);
    let holders = nodes_upto(s, nodes, order, k as int);
    if k == 0 {
        assert(order.subrange(0, 0) =~= Seq::empty());
        assert(edges =~= Set::empty());
        assert(holders =~= Set::empty());
    } else {
        let m = (k - 1) as nat;
        lemma_totals_are_numbers(s, nodes, order, m);
        let a = order[m as int];
        let n = nodes[a as int].items@.len();
        let here = edges_of(s, nodes, order, a, n as int);
        lemma_edges_of(s, nodes, order, a, n);
        let (x, y) = (order.subrange(0, m as int), order.subrange(0, k as int));
        assert(y =~= x.push(a));
        assert(!x.contains(a)) by {
            if x.contains(a) {
                let j = choose|j: int| 0 <= j < x.len() && x[j] == a;
                assert(order[j] != order[m as int]);
            }
        }
        assert forall|b: nat| y.contains(b) == (x.contains(b) || b == a) by {
            if x.contains(b) {
                let j = choose|j: int| 0 <= j < x.len() && x[j] == b;
                assert(y[j] == b);
            }
            assert(y[m as int] == a);
            if y.contains(b) && b != a {
                let j = choose|j: int| 0 <= j < y.len() && y[j] == b;
                assert(x[j] == b);
            }
        }
        let before = edges_upto(s, nodes, order, m as int);
        assert(edges =~= before.union(here));
        assert(before.disjoint(here));
        vstd::set_lib::lemma_set_disjoint_lens(before, here);
        let held = nodes_upto(s, nodes, order, m as int);
        if here.len() > 0 {
            let p = here.choose();
            assert(here.contains(p));
            assert(edge_redirected(s, nodes, order, a, p.1));
            assert(holders =~= held.insert(a));
        } else {
            assert forall|e: int| 0 <= e < n implies !#[trigger] edge_redirected(
                s,
                nodes,
                order,
                a,
                e,
            ) by {
                if edge_redirected(s, nodes, order, a, e) {
                    assert(here.contains((a, e)));
                }
            }
            assert(holders =~= held);
        }
    }
}

} // verus!

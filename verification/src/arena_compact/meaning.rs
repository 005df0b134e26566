//! The trie that an arena stands for.

use vstd::prelude::*;

use crate::arena_compact::node::{
    lemma_line_agree, lemma_node_agree, line_at, node_at, NodeView,
};
use crate::slices::begins_with;
use crate::trie::{chain, Trie};
use crate::utils::bits::{lemma_members, members, rank};

verus! {

/// The arena begins behind the magic and the place of the root.
pub const ARENA_START: u64 = 16;

/// The place of the `k`th of the nodes that stand one behind the other from `first` on.
pub open spec fn sibling(d: Seq<u8>, first: nat, k: nat) -> nat
    decreases k,
{
    if k == 0 {
        first
    } else {
        let p = sibling(d, first, (k - 1) as nat);
        match node_at(d, p) {
            Some((_, n)) => p + n,
            None => p,
        }
    }
}

/// The place of the child of a branch to which `b` leads.
pub open spec fn child_place(d: Seq<u8>, mask: Set<u8>, first: Option<nat>, b: u8) -> nat {
    sibling(d, first->Some_0, rank(mask, b as nat))
}

/// The node refers to sound nodes before `lim` and to lines that are there. A line that goes on
/// has no value of its own.
#[verifier::opaque]
pub open spec fn node_wf(d: Seq<u8>, n: NodeView, lim: nat) -> bool
    decreases lim, 0nat,
{
    match n {
        NodeView::Branch { mask, first, .. } => {
            &&& first is Some <==> mask != Set::<u8>::empty()
            &&& first matches Some(c) ==> c < lim
            &&& forall|b: u8| #[trigger]
                mask.contains(b) ==> {
                    let c = child_place(d, mask, first, b);
                    ARENA_START <= c < lim && id_wf(d, c)
                }
        },
        NodeView::Line { path, value, child } => {
            &&& ARENA_START <= path <= lim
            &&& line_at(d, path) is Some
            &&& child matches Some(c) ==> value is None && ARENA_START <= c < lim && id_wf(d, c)
        },
    }
}

/// A sound node stands at `id`.
pub open spec fn id_wf(d: Seq<u8>, id: nat) -> bool
    decreases id, 1nat,
{
    &&& ARENA_START <= id
    &&& node_at(d, id) matches Some((n, _)) && node_wf(d, n, id)
}

/// The trie that a node stands for.
#[verifier::opaque]
pub open spec fn node_trie(d: Seq<u8>, n: NodeView, lim: nat) -> Trie<u64>
    decreases lim, 0nat,
{
    match n {
        NodeView::Branch { mask, first, value } => Trie {
            val: value,
            kids: Map::new(
                |b: u8| mask.contains(b),
                |b: u8|
                    {
                        let c = child_place(d, mask, first, b);
                        if c < lim {
                            id_trie(d, c)
                        } else {
                            Trie::empty()
                        }
                    },
            ),
        },
        NodeView::Line { path, value, child } => chain(
            line_at(d, path)->Some_0,
            match child {
                Some(c) => if c < lim {
                    id_trie(d, c)
                } else {
                    Trie::empty()
                },
                None => Trie::leaf(value),
            },
        ),
    }
}

/// The trie that the node at `id` stands for.
pub open spec fn id_trie(d: Seq<u8>, id: nat) -> Trie<u64>
    decreases id, 1nat,
{
    match node_at(d, id) {
        Some((n, _)) => node_trie(d, n, id),
        None => Trie::empty(),
    }
}

/// `e` has the arena of `d`, and perhaps more behind it.
pub open spec fn extends(d: Seq<u8>, e: Seq<u8>) -> bool {
    &&& d.len() <= e.len()
    &&& forall|i: int| ARENA_START <= i < d.len() ==> #[trigger] d[i] == e[i]
}

pub proof fn lemma_extends_trans(d: Seq<u8>, e: Seq<u8>, f: Seq<u8>)
    requires
        extends(d, e),
        extends(e, f),
    ensures
        extends(d, f),
{
    assert forall|i: int| ARENA_START <= i < d.len() implies #[trigger] d[i] == f[i] by {
        assert(d[i] == e[i]);
        assert(e[i] == f[i]);
    }
}

pub proof fn lemma_extends_append(d: Seq<u8>, s: Seq<u8>)
    ensures
        extends(d, d + s),
{
}

/// Children of a sound node stand where they stood.
pub proof fn lemma_sibling_agree(d: Seq<u8>, e: Seq<u8>, mask: Set<u8>, first: Option<nat>, lim: nat, k: nat)
    requires
        extends(d, e),
        forall|b: u8| #[trigger]
            mask.contains(b) ==> {
                let c = child_place(d, mask, first, b);
                ARENA_START <= c < lim && id_wf(d, c)
            },
        k < rank(mask, 256),
    ensures
        sibling(e, first->Some_0, k) == sibling(d, first->Some_0, k),
    decreases k,
{
    if k > 0 {
        lemma_sibling_agree(d, e, mask, first, lim, (k - 1) as nat);
        lemma_members(mask);
        let b = members(mask)[k - 1];
        assert(mask.contains(b));
        lemma_node_agree(d, e, sibling(d, first->Some_0, (k - 1) as nat));
    }
}

/// What follows an arena does not change what its nodes stand for.
pub proof fn lemma_node_stable(d: Seq<u8>, e: Seq<u8>, n: NodeView, lim: nat)
    requires
        extends(d, e),
        node_wf(d, n, lim),
    ensures
        node_wf(e, n, lim),
        node_trie(e, n, lim) == node_trie(d, n, lim),
    decreases lim, 0nat,
{
    reveal(node_wf);
    reveal(node_trie);
    match n {
        NodeView::Branch { mask, first, value } => {
            lemma_members(mask);
            assert forall|b: u8| #[trigger] mask.contains(b) implies {
                let c = child_place(d, mask, first, b);
                &&& child_place(e, mask, first, b) == c
                &&& id_wf(e, c)
                &&& id_trie(e, c) == id_trie(d, c)
            } by {
                lemma_sibling_agree(d, e, mask, first, lim, rank(mask, b as nat));
                lemma_id_stable(d, e, child_place(d, mask, first, b));
            }
            assert(node_trie(e, n, lim).kids =~= node_trie(d, n, lim).kids);
        },
        NodeView::Line { path, value, child } => {
            lemma_line_agree(d, e, path);
            if let Some(c) = child {
                lemma_id_stable(d, e, c);
            }
        },
    }
}

pub proof fn lemma_id_stable(d: Seq<u8>, e: Seq<u8>, id: nat)
    requires
        extends(d, e),
        id_wf(d, id),
    ensures
        id_wf(e, id),
        id_trie(e, id) == id_trie(d, id),
        node_at(e, id) == node_at(d, id),
        id < d.len(),
    decreases id, 1nat,
{
    reveal(node_wf);
    reveal(node_trie);
    lemma_node_agree(d, e, id);
    lemma_node_stable(d, e, node_at(d, id)->Some_0.0, id);
}

/// What a sound node at `id` is.
pub proof fn lemma_id_node(d: Seq<u8>, id: nat)
    ensures
        id_wf(d, id) <==> ARENA_START <= id && (node_at(d, id) matches Some((n, _)) && node_wf(
            d,
            n,
            id,
        )),
        node_at(d, id) matches Some((n, _)) ==> id_trie(d, id) == node_trie(d, n, id),
{
    reveal(node_wf);
    reveal(node_trie);
}

/// A node that is sound before `lim` is sound, and stands for the same, before any later place.
pub proof fn lemma_node_later(d: Seq<u8>, n: NodeView, lim: nat, later: nat)
    requires
        node_wf(d, n, lim),
        lim <= later,
    ensures
        node_wf(d, n, later),
        node_trie(d, n, later) == node_trie(d, n, lim),
{
    reveal(node_wf);
    reveal(node_trie);
    match n {
        NodeView::Branch { mask, first, value } => {
            assert(node_trie(d, n, later).kids =~= node_trie(d, n, lim).kids);
        },
        NodeView::Line { .. } => {},
    }
}

/// Where the path does not begin with the line it misses every value of the chain; where it does,
/// the rest of it is looked up at the end of the chain.
pub proof fn lemma_chain_lookup<V>(line: Seq<u8>, t: Trie<V>, path: Seq<u8>)
    ensures
        begins_with(path, line) ==> chain(line, t).at(path) == t.at(
            path.subrange(line.len() as int, path.len() as int),
        ),
        !begins_with(path, line) ==> chain(line, t).get(path) is None,
    decreases line.len(),
{
    if line.len() == 0 {
        assert(path.subrange(0, 0) =~= line);
        assert(path.subrange(0, path.len() as int) =~= path);
    } else if path.len() > 0 {
        let l = line.drop_first();
        let p = path.drop_first();
        lemma_chain_lookup(l, t, p);
        if path[0] == line[0] {
            if begins_with(path, line) {
                assert(p.subrange(0, l.len() as int) =~= path.subrange(0, line.len() as int)
                    .drop_first());
            }
            if begins_with(p, l) {
                assert(path.subrange(0, line.len() as int) =~= seq![path[0]] + p.subrange(
                    0,
                    l.len() as int,
                ));
                assert(line =~= seq![line[0]] + l);
            }
            if begins_with(path, line) {
                assert(p.subrange(l.len() as int, p.len() as int) =~= path.subrange(
                    line.len() as int,
                    path.len() as int,
                ));
            }
        } else if begins_with(path, line) {
            assert(path[0] == path.subrange(0, line.len() as int)[0]);
        }
    }
}

/// Looking up a path in a line node: it leads through all bytes of the line or to no value.
pub proof fn lemma_line_get(d: Seq<u8>, n: NodeView, lim: nat, rest: Seq<u8>)
    requires
        n is Line,
        node_wf(d, n, lim),
    ensures
        ({
            let line = line_at(d, n->path)->Some_0;
            let t = node_trie(d, n, lim);
            &&& line_at(d, n->path) is Some
            &&& if !begins_with(rest, line) {
                t.get(rest) is None
            } else {
                let after = rest.subrange(line.len() as int, rest.len() as int);
                match n->Line_child {
                    Some(c) => {
                        &&& c < lim
                        &&& node_at(d, c) matches Some((m, _)) && node_wf(d, m, c) && t.get(rest)
                            == node_trie(d, m, c).get(after)
                        &&& n->Line_value is None
                    },
                    None => t.get(rest) == if after.len() == 0 {
                        n->Line_value
                    } else {
                        None
                    },
                }
            }
        }),
{
    reveal(node_wf);
    reveal(node_trie);
    let line = line_at(d, n->path)->Some_0;
    let inner = match n->Line_child {
        Some(c) => id_trie(d, c),
        None => Trie::leaf(n->Line_value),
    };
    lemma_chain_lookup(line, inner, rest);
}

/// Looking up a path in a branch node: it ends there or leads on to the child of its first byte.
pub proof fn lemma_branch_get(d: Seq<u8>, n: NodeView, lim: nat, rest: Seq<u8>)
    requires
        n is Branch,
        node_wf(d, n, lim),
    ensures
        ({
            let t = node_trie(d, n, lim);
            if rest.len() == 0 {
                t.get(rest) == n->Branch_value
            } else if !n->mask.contains(rest[0]) {
                t.get(rest) is None
            } else {
                let c = child_place(d, n->mask, n->first, rest[0]);
                &&& c < lim
                &&& node_at(d, c) matches Some((m, _)) && node_wf(d, m, c) && t.get(rest)
                    == node_trie(d, m, c).get(rest.drop_first())
            }
        }),
{
    reveal(node_wf);
    reveal(node_trie);
    if rest.len() > 0 && n->mask.contains(rest[0]) {
        let c = child_place(d, n->mask, n->first, rest[0]);
        assert(c < lim && id_wf(d, c));
    }
}

} // verus!

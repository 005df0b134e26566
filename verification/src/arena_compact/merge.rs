//! Merging a zipper's trie into a compact trie.

use vstd::prelude::*;

use crate::arena_compact::builder::{descend_links, place};
use crate::arena_compact::counters::Counters;
use crate::arena_compact::file::{
    file_trie, file_wf, history_wf, last_trailer, lemma_roots_grow, lemma_with_root, previous_trailer, root_of,
    roots_of,
};
use crate::arena_compact::growth::{
    growth, kid_growth, kid_places, leaves, lemma_chain_growth, lemma_chain_places, lemma_chain_run,
    lemma_growth, lemma_growth_of_new, lemma_kid_growth_insert, lemma_kid_places_insert, lemma_kid_places_val,
    lemma_no_kids_growth, lemma_node_room, lemma_nodes_room, places, run, NODE_ROOM, PLACE_ROOM,
    STEP_ROOM,
};
use crate::arena_compact::kept::{
    keeps, keeps_rest, leads_through, leads_to_all, lemma_keeps_behind, lemma_keeps_earlier,
    lemma_keeps_fork, lemma_keeps_later, lemma_keeps_self, lemma_on_stable, lemma_rest_stable,
    lemma_rest_whole, node_on, rest_on,
};
use crate::arena_compact::layout::{
    denotes, is_prefix, lemma_arena_grows, lemma_branch, lemma_denotes_stable, lemma_prefix_trans,
    lemma_push_node, lemma_push_nodes_grows, magic, push_node, with_root, Arena,
};
use crate::arena_compact::meaning::{
    child_place, extends, id_trie, id_wf, lemma_extends_trans, lemma_id_node, lemma_id_stable,
    lemma_node_later, lemma_node_stable, node_trie, node_wf, sibling, ARENA_START,
};
use crate::arena_compact::node::{
    id_view, lemma_line_agree, line_at, node_at, Node, NodeBranch, NodeId, NodeLine, NodeView,
};
use crate::arena_compact::tree::{
    lemma_siblings_sound, ACTVec, ActError, ArenaCompactTree,
};
use crate::arena_compact::varint::{le_bytes, lemma_le_round_u64, lemma_varint_len, push_le};
use crate::arena_compact::writer::{node_views, ArenaWriter};
use crate::mapped::{lemma_mapped_chain, mapped};
use crate::slices::part;
use crate::trie::{chain, lemma_at_push, lemma_chain_concat, or_empty, Trie};
use crate::trie_union::{either, lemma_chain_injective, lemma_union_chain, lemma_union_empty, union};
use crate::utils::bits::{lemma_members, lemma_rank_is_len, members, rank};
use crate::utils::byte_mask::{BitMask, ByteMask};
use crate::zipper::Zipper;

verus! {

/// The first `n` children of a place are there as nodes.
spec fn kids_built(
    bytes: Seq<u8>,
    mask: Set<u8>,
    children: Seq<Node>,
    kids: Map<u8, Trie<u64>>,
    n: int,
) -> bool {
    &&& children.len() == n
    &&& n <= members(mask).len()
    &&& forall|j: int| 0 <= j < n ==> #[trigger] kid_built(bytes, mask, children, kids, j)
}

/// The child of rank `j` is there as a node.
spec fn kid_built(
    bytes: Seq<u8>,
    mask: Set<u8>,
    children: Seq<Node>,
    kids: Map<u8, Trie<u64>>,
    j: int,
) -> bool {
    let b = members(mask)[j];
    kids.contains_key(b) && denotes(bytes, children[j]@, kids[b])
}

proof fn lemma_kids_built_grows(
    bytes: Seq<u8>,
    more: Seq<u8>,
    mask: Set<u8>,
    children: Seq<Node>,
    kids: Map<u8, Trie<u64>>,
    n: int,
)
    requires
        extends(bytes, more),
        kids_built(bytes, mask, children, kids, n),
    ensures
        kids_built(more, mask, children, kids, n),
{
    assert forall|j: int| 0 <= j < n implies #[trigger] kid_built(
        more,
        mask,
        children,
        kids,
        j,
    ) by {
        assert(kid_built(bytes, mask, children, kids, j));
        lemma_denotes_stable(bytes, more, children[j]@, kids[members(mask)[j]]);
    }
}

/// One child more.
proof fn lemma_kids_built_push(
    bytes: Seq<u8>,
    mask: Set<u8>,
    children: Seq<Node>,
    kids: Map<u8, Trie<u64>>,
    n: int,
    child: Node,
    kid: Trie<u64>,
)
    requires
        kids_built(bytes, mask, children, kids, n),
        n < members(mask).len(),
        denotes(bytes, child@, kid),
    ensures
        kids_built(
            bytes,
            mask,
            children.push(child),
            kids.insert(members(mask)[n], kid),
            n + 1,
        ),
{
    let next = children.push(child);
    let more = kids.insert(members(mask)[n], kid);
    lemma_members(mask);
    assert forall|j: int| 0 <= j < n + 1 implies #[trigger] kid_built(
        bytes,
        mask,
        next,
        more,
        j,
    ) by {
        if j < n {
            assert(kid_built(bytes, mask, children, kids, j));
            assert(next[j] == children[j]);
            assert(members(mask)[j] < members(mask)[n]);
        }
    }
}

/// The bytes whose children are there after the first `n`.
proof fn lemma_bytes_before(mask: Set<u8>, n: int)
    requires
        0 <= n <= members(mask).len(),
    ensures
        n < members(mask).len() ==> first_bytes(mask, n + 1) =~= first_bytes(mask, n).insert(
            members(mask)[n],
        ),
        first_bytes(mask, 0) =~= Set::empty(),
        n == members(mask).len() ==> first_bytes(mask, n) =~= mask,
{
    lemma_members(mask);
    assert forall|b: u8| mask.contains(b) implies members(mask)[rank(mask, b as nat) as int] == b
        && rank(mask, b as nat) < members(mask).len() by {}
}

/// The `n` smallest bytes of a set.
spec fn first_bytes(mask: Set<u8>, n: int) -> Set<u8> {
    mask.filter(|b: u8| rank(mask, b as nat) < n)
}

/// The node for the byte `b` is given.
spec fn is_given(given: Option<(u8, Node)>, b: u8) -> bool {
    given matches Some((c, _)) && c == b
}

/// The children for which no node is given.
spec fn new_kids(given: Option<(u8, Node)>, kids: Map<u8, Trie<u64>>) -> Map<u8, Trie<u64>> {
    match given {
        Some((b, _)) => kids.remove(b),
        None => kids,
    }
}

/// No more bytes are written for the children, their nodes included.
spec fn fresh_room(given: Option<(u8, Node)>, kids: Map<u8, Trie<u64>>) -> nat {
    PLACE_ROOM as nat * kid_places(Trie { val: None, kids: new_kids(given, kids) }, 256) + if (
    given matches Some((b, _)) && kids.contains_key(b)) {
        NODE_ROOM as nat
    } else {
        0
    }
}

/// One child more.
proof fn lemma_fresh_room(
    given: Option<(u8, Node)>,
    kids: Map<u8, Trie<u64>>,
    b: u8,
    kid: Trie<u64>,
)
    requires
        !kids.contains_key(b),
    ensures
        fresh_room(given, kids.insert(b, kid)) == fresh_room(given, kids) + if is_given(given, b) {
            NODE_ROOM as nat
        } else {
            PLACE_ROOM as nat * places(kid)
        },
{
    let rest = new_kids(given, kids);
    if is_given(given, b) {
        assert(kids.insert(b, kid).remove(b) =~= kids.remove(b));
    } else {
        assert(new_kids(given, kids.insert(b, kid)) =~= rest.insert(b, kid));
        lemma_kid_places_insert(None, rest, b, kid, 256);
    }
}

impl ArenaWriter {
    /// Writes the children of a place, and returns the branch for it.
    fn branch_of(
        &mut self,
        mask: ByteMask,
        children: &Vec<Node>,
        value: Option<u64>,
        Ghost(kids): Ghost<Map<u8, Trie<u64>>>,
    ) -> (r: Node)
        requires
            old(self).arena().wf(),
            kids_built(
                old(self).arena().bytes,
                mask@,
                children@,
                kids,
                members(mask@).len() as int,
            ),
            kids.dom() == mask@,
        ensures
            final(self).arena().wf(),
            final(self).arena().lines == old(self).arena().lines,
            extends(old(self).arena().bytes, final(self).arena().bytes),
            is_prefix(old(self).arena().bytes, final(self).arena().bytes),
            denotes(final(self).arena().bytes, r@, (Trie { val: value, kids })),
            leads_to_all(final(self).arena().bytes, r@, mask@, node_views(children@)),
            final(self).arena().bytes.len() <= old(self).arena().bytes.len() + NODE_ROOM
                * children@.len(),
            final(self).counted() == old(self).counted(),
    {
        let ghost a = self.arena();
        let ghost views = node_views(children@);
        proof {
            lemma_members(mask@);
            lemma_rank_is_len(mask@);
        }
        proof {
            assert forall|i: int| 0 <= i < children@.len() implies node_wf(
                a.bytes,
                (#[trigger] children@[i])@,
                a.bytes.len(),
            ) by {
                assert(kid_built(a.bytes, mask@, children@, kids, i));
            }
        }
        let first_child = self.push_children(children);
        proof {
            lemma_push_nodes_grows(a.bytes, views);
            lemma_nodes_room(a.bytes, views);
            assert forall|b: u8| #[trigger] mask@.contains(b) implies denotes(
                a.bytes,
                views[rank(mask@, b as nat) as int],
                kids[b],
            ) by {
                let j = rank(mask@, b as nat) as int;
                assert(members(mask@)[j] == b);
                assert(kid_built(a.bytes, mask@, children@, kids, j));
                assert(views[j] == children@[j]@);
            }
            lemma_branch(a.bytes, mask@, views, kids, value);
            lemma_arena_grows(a, self.arena().bytes);
        }
        let r = Node::Branch(NodeBranch { bytemask: mask, first_child, value });
        proof {
            assert forall|p: Seq<u8>| p.len() > 0 && mask@.contains(p[0]) implies #[trigger] node_on(
                self.arena().bytes,
                r@,
                p,
            ) == node_on(
                self.arena().bytes,
                views[rank(mask@, p[0] as nat) as int],
                p.drop_first(),
            ) by {
                assert(views.len() > 0);
            }
        }
        r
    }

    /// Writes all that is below the focus, and returns the node for it.
    fn fresh_subtree<V, Z: Zipper<V>, M: Fn(&V) -> u64>(&mut self, z: &mut Z, map: &M) -> (r: (
        Node,
        Ghost<Trie<u64>>,
    ))
        requires
            old(self).arena().wf(),
            old(z).wf(),
            old(z).trie().has(old(z).focus()),
            forall|v: &V| call_requires(*map, (v,)),
        ensures
            final(z).wf(),
            final(z).trie() == old(z).trie(),
            final(z).shares() == old(z).shares(),
            final(z).focus() == old(z).focus(),
            mapped(place::<V, Z>(old(z)), *map, r.1@),
            final(self).arena().wf(),
            final(self).arena().lines == old(self).arena().lines,
            extends(old(self).arena().bytes, final(self).arena().bytes),
            is_prefix(old(self).arena().bytes, final(self).arena().bytes),
            denotes(final(self).arena().bytes, r.0@, r.1@),
            final(self).arena().bytes.len() + NODE_ROOM <= old(self).arena().bytes.len()
                + PLACE_ROOM * places(r.1@),
            final(self).counted() == old(self).counted(),
        decreases place::<V, Z>(old(z)), 1nat,
    {
        let ghost a = self.arena();
        let segment = descend_links::<V, Z>(z);
        let ghost here = place::<V, Z>(z);
        let value = match z.val() {
            Some(v) => Some(map(v)),
            None => None,
        };
        let mask = z.child_mask();
        let (children, Ghost(kids)) = self.fresh_children(
            z,
            map,
            mask,
            None,
            Ghost(Trie::empty()),
        );
        let ghost u = Trie { val: value, kids };
        let ghost a1 = self.arena();
        let branch = self.branch_of(mask, &children, value, Ghost(kids));
        let ghost a2 = self.arena();
        proof {
            lemma_extends_trans(a.bytes, a1.bytes, a2.bytes);
            assert(mapped(here, *map, u));
            lemma_mapped_chain(segment@, here, *map, u);
        }
        z.ascend(segment.len());
        assert(z.focus() =~= old(z).focus());
        let node = self.behind_segment(segment.as_slice(), branch, Ghost(u));
        proof {
            lemma_extends_trans(a.bytes, a2.bytes, self.arena().bytes);
            lemma_chain_places(segment@, u);
            lemma_growth(Trie::empty(), u);
            lemma_kid_places_val(None, value, kids, 256);
        }
        (node, Ghost(chain(segment@, u)))
    }

    /// The node that leads through the bytes of `segment` to `branch`.
    fn behind_segment(&mut self, segment: &[u8], branch: Node, Ghost(t): Ghost<Trie<u64>>) -> (r:
        Node)
        requires
            old(self).arena().wf(),
            denotes(old(self).arena().bytes, branch@, t),
        ensures
            final(self).arena().wf(),
            final(self).arena().lines == old(self).arena().lines,
            extends(old(self).arena().bytes, final(self).arena().bytes),
            is_prefix(old(self).arena().bytes, final(self).arena().bytes),
            denotes(final(self).arena().bytes, r@, chain(segment@, t)),
            leads_through(final(self).arena().bytes, r@, segment@, branch@),
            final(self).arena().bytes.len() <= old(self).arena().bytes.len() + if segment@.len()
                == 0 {
                0
            } else {
                segment@.len() + 9 + NODE_ROOM
            },
            final(self).counted() == old(self).counted(),
    {
        if segment.len() == 0 {
            assert(forall|q: Seq<u8>| #[trigger] (segment@ + q) =~= q);
            return branch;
        }
        let ghost a = self.arena();
        let path = self.append_line(segment);
        let ghost b = self.arena();
        proof {
            lemma_varint_len(segment@.len() as u64);
        }
        proof {
            lemma_denotes_stable(a.bytes, b.bytes, branch@, t);
        }
        let node = self.wrap_line(path, &branch, true, Ghost(t));
        proof {
            lemma_extends_trans(a.bytes, b.bytes, self.arena().bytes);
            assert(is_prefix(a.bytes, b.bytes));
            lemma_prefix_trans(a.bytes, b.bytes, self.arena().bytes);
        }
        node
    }

    /// The nodes for places one byte below the focus. For one of the bytes a node may be given.
    fn fresh_children<V, Z: Zipper<V>, M: Fn(&V) -> u64>(
        &mut self,
        z: &mut Z,
        map: &M,
        mask: ByteMask,
        given: Option<(u8, Node)>,
        Ghost(given_trie): Ghost<Trie<u64>>,
    ) -> (r: (Vec<Node>, Ghost<Map<u8, Trie<u64>>>))
        requires
            old(self).arena().wf(),
            old(z).wf(),
            old(z).trie().has(old(z).focus()),
            forall|b: u8| #[trigger]
                mask@.contains(b) ==> is_given(given, b) || place::<V, Z>(old(z)).kids.contains_key(
                    b,
                ),
            given matches Some((_, n)) ==> denotes(old(self).arena().bytes, n@, given_trie),
            forall|v: &V| call_requires(*map, (v,)),
        ensures
            final(z).wf(),
            final(z).trie() == old(z).trie(),
            final(z).shares() == old(z).shares(),
            final(z).focus() == old(z).focus(),
            final(self).arena().wf(),
            final(self).arena().lines == old(self).arena().lines,
            extends(old(self).arena().bytes, final(self).arena().bytes),
            is_prefix(old(self).arena().bytes, final(self).arena().bytes),
            final(self).counted() == old(self).counted(),
            r.1@.dom() == mask@,
            forall|b: u8| #[trigger]
                r.1@.contains_key(b) ==> if is_given(given, b) {
                    r.1@[b] == given_trie
                } else {
                    mapped(place::<V, Z>(old(z)).kids[b], *map, r.1@[b])
                },
            kids_built(
                final(self).arena().bytes,
                mask@,
                r.0@,
                r.1@,
                members(mask@).len() as int,
            ),
            forall|j: int|
                0 <= j < r.0@.len() && is_given(given, members(mask@)[j]) ==> (#[trigger] r.0@[j])
                    == given->Some_0.1,
            final(self).arena().bytes.len() + NODE_ROOM * r.0@.len() <= old(
                self,
            ).arena().bytes.len() + fresh_room(given, r.1@),
        decreases place::<V, Z>(old(z)), 0nat,
    {
        let ghost a = self.arena();
        let ghost here = place::<V, Z>(z);
        let ghost at = z.focus();
        let bytes = mask.to_vec();
        let mut children: Vec<Node> = Vec::new();
        let ghost mut kids: Map<u8, Trie<u64>> = Map::empty();
        let mut i: usize = 0;
        proof {
            lemma_bytes_before(mask@, 0);
            assert(kids.dom() =~= first_bytes(mask@, 0));
            lemma_no_kids_growth(Trie::empty(), None, 256);
            assert(new_kids(given, kids) =~= kids);
        }
        while i < bytes.len()
            invariant
                i <= bytes@.len(),
                bytes@ == members(mask@),
                forall|b: u8| #[trigger]
                    mask@.contains(b) ==> is_given(given, b) || here.kids.contains_key(b),
                given matches Some((_, n)) ==> denotes(self.arena().bytes, n@, given_trie),
                here == place::<V, Z>(old(z)),
                z.wf(),
                z.trie() == old(z).trie(),
                z.shares() == old(z).shares(),
                z.focus() == at,
                z.trie().at(at) == Some(here),
                forall|v: &V| call_requires(*map, (v,)),
                self.arena().wf(),
                self.arena().lines == a.lines,
                extends(a.bytes, self.arena().bytes),
                is_prefix(a.bytes, self.arena().bytes),
                self.counted() == old(self).counted(),
                kids.dom() =~= first_bytes(mask@, i as int),
                forall|b: u8| #[trigger]
                    kids.contains_key(b) ==> if is_given(given, b) {
                        kids[b] == given_trie
                    } else {
                        mapped(here.kids[b], *map, kids[b])
                    },
                kids_built(self.arena().bytes, mask@, children@, kids, i as int),
                forall|j: int|
                    0 <= j < children@.len() && is_given(given, members(mask@)[j]) ==> (
                    #[trigger] children@[j]) == given->Some_0.1,
                self.arena().bytes.len() + NODE_ROOM * i <= a.bytes.len() + fresh_room(given, kids),
            decreases bytes@.len() - i,
        {
            let byte = bytes[i];
            proof {
                lemma_members(mask@);
                assert(mask@.contains(byte));
                lemma_at_push(z.trie(), at, byte);
                lemma_bytes_before(mask@, i as int);
            }
            let ghost before = self.arena();
            let (child, Ghost(kid)) = match given {
                Some((b, node)) if b == byte => {
                    (node, Ghost(given_trie))
                },
                _ => {
                    z.descend_to_byte(byte);
                    let r = self.fresh_subtree(z, map);
                    z.ascend(1);
                    assert(z.focus() =~= at);
                    r
                },
            };
            proof {
                let after = self.arena().bytes;
                lemma_kids_built_grows(before.bytes, after, mask@, children@, kids, i as int);
                lemma_kids_built_push(after, mask@, children@, kids, i as int, child, kid);
                assert(!kids.contains_key(byte)) by {
                    assert(rank(mask@, byte as nat) == i);
                }
                lemma_fresh_room(given, kids, byte, kid);
                kids = kids.insert(byte, kid);
                lemma_extends_trans(a.bytes, before.bytes, after);
                lemma_prefix_trans(a.bytes, before.bytes, after);
                if let Some((_, n)) = given {
                    lemma_denotes_stable(before.bytes, after, n@, given_trie);
                }
            }
            children.push(child);
            i = i + 1;
        }
        proof {
            lemma_bytes_before(mask@, i as int);
            assert(kids.dom() =~= mask@);
        }
        (children, Ghost(kids))
    }
}

/// The arena has grown, and what was there is as it was.
spec fn grown(a: Arena, b: Arena) -> bool {
    &&& b.wf()
    &&& b.lines == a.lines
    &&& extends(a.bytes, b.bytes)
    &&& is_prefix(a.bytes, b.bytes)
}

proof fn lemma_grown_trans(a: Arena, b: Arena, c: Arena)
    requires
        grown(a, b),
        grown(b, c),
    ensures
        grown(a, c),
{
    lemma_extends_trans(a.bytes, b.bytes, c.bytes);
    lemma_prefix_trans(a.bytes, b.bytes, c.bytes);
}

proof fn lemma_grown_refl(a: Arena)
    requires
        a.wf(),
    ensures
        grown(a, a),
{
}

/// The result of a merge: where it is nothing, nothing was written and nothing is new; where it
/// is a node, that stands for something new.
spec fn merged_to(a: Arena, b: Arena, r: Option<Node>, before: Trie<u64>, after: Trie<u64>) -> bool {
    &&& grown(a, b)
    &&& match r {
        None => a == b && after == before,
        Some(n) => denotes(b.bytes, n@, after) && after != before,
    }
}

/// The zipper is back where it was.
spec fn back<V, Z: Zipper<V>>(z: &Z, before: &Z) -> bool {
    &&& z.wf()
    &&& z.trie() == before.trie()
    &&& z.shares() == before.shares()
    &&& z.focus() == before.focus()
}

/// The zipper can be read, and stands at a place.
spec fn stands<V, Z: Zipper<V>>(z: &Z) -> bool {
    z.wf() && z.trie().has(z.focus())
}

/// The node at a place.
pub open spec fn node_of(d: Seq<u8>, id: nat) -> NodeView {
    node_at(d, id)->Some_0.0
}

/// The trie at the end of a line.
spec fn line_end(d: Seq<u8>, line: &NodeLine) -> Trie<u64> {
    match line.child {
        Some(c) => id_trie(d, c.0 as nat),
        None => Trie::leaf(line.value),
    }
}

/// The line node is sound and has the bytes of `data`.
spec fn line_ok(d: Seq<u8>, line: &NodeLine, data: Seq<u8>, id: nat) -> bool {
    &&& node_wf(d, line@, id)
    &&& line_at(d, line.path.0 as nat) == Some(data)
    &&& data.len() > 0
    &&& ARENA_START <= line.path.0 < d.len()
    &&& line.child matches Some(c) ==> {
        &&& ARENA_START <= c.0 < id
        &&& id_wf(d, c.0 as nat)
        &&& line.value is None
    }
}

proof fn lemma_line_ok(d: Seq<u8>, line: &NodeLine, id: nat)
    requires
        node_wf(d, line@, id),
    ensures
        line_at(d, line.path.0 as nat) matches Some(data) && line_ok(d, line, data, id),
        node_trie(d, line@, id) == chain(
            line_at(d, line.path.0 as nat)->Some_0,
            line_end(d, line),
        ),
{
    reveal(node_wf);
    reveal(node_trie);
}

/// The rest of a line stays what it is when the arena grows.
proof fn lemma_line_grows(d: Seq<u8>, e: Seq<u8>, line: &NodeLine, data: Seq<u8>, id: nat)
    requires
        extends(d, e),
        line_ok(d, line, data, id),
    ensures
        line_ok(e, line, data, id),
        line_end(e, line) == line_end(d, line),
{
    lemma_node_stable(d, e, line@, id);
    lemma_line_agree(d, e, line.path.0 as nat);
    if let Some(c) = line.child {
        lemma_id_stable(d, e, c.0 as nat);
    }
}

/// A copy of a sound node stands for the same.
proof fn lemma_copy(d: Seq<u8>, id: nat)
    requires
        id_wf(d, id),
        id <= d.len(),
    ensures
        node_at(d, id) matches Some((n, _)) && denotes(d, n, id_trie(d, id)),
{
    lemma_id_node(d, id);
    lemma_node_later(d, node_at(d, id)->Some_0.0, id, d.len());
}

impl ArenaWriter {
    /// The old, unmerged continuation of `line` from segment offset `k`, packaged so it can sit in
    /// a new sibling run.
    fn tail_child(&mut self, line: &NodeLine, data: &[u8], k: usize, Ghost(id): Ghost<nat>) -> (r:
        Node)
        requires
            old(self).arena().wf(),
            line_ok(old(self).arena().bytes, line, data@, id),
            id <= old(self).arena().bytes.len(),
            k <= data@.len(),
        ensures
            grown(old(self).arena(), final(self).arena()),
            denotes(
                final(self).arena().bytes,
                r@,
                chain(
                    data@.subrange(k as int, data@.len() as int),
                    line_end(old(self).arena().bytes, line),
                ),
            ),
            forall|p: Seq<u8>|
                (#[trigger] rest_on(
                    old(self).arena().bytes,
                    data@,
                    id_view(line.child),
                    k as int,
                    p,
                )) is Some ==> node_on(final(self).arena().bytes, r@, p) == rest_on(
                    old(self).arena().bytes,
                    data@,
                    id_view(line.child),
                    k as int,
                    p,
                ),
            final(self).arena().bytes.len() <= old(self).arena().bytes.len() + (data@.len() - k)
                + 9,
            final(self).counted() == old(self).counted(),
    {
        let ghost a = self.arena();
        let ghost d = a.bytes;
        proof {
            reveal(node_wf);
            reveal(node_trie);
            lemma_grown_refl(a);
        }
        if k == data.len() {
            assert(data@.subrange(k as int, data@.len() as int) =~= Seq::<u8>::empty());
            match line.child {
                Some(child) => {
                    proof {
                        lemma_copy(d, child.0 as nat);
                        assert(forall|p: Seq<u8>| #[trigger] p.subrange(0, p.len() as int) =~= p);
                        assert(forall|p: Seq<u8>| #[trigger]
                            p.subrange(0, 0) =~= Seq::<u8>::empty());
                    }
                    self.node(child)
                },
                None => {
                    let branch = NodeBranch {
                        bytemask: ByteMask::new(),
                        first_child: None,
                        value: line.value,
                    };
                    proof {
                        let t = node_trie(d, branch@, d.len());
                        assert(t.kids =~= Map::empty());
                        assert(t == Trie::leaf(line.value));
                    }
                    Node::Branch(branch)
                },
            }
        } else {
            let path = self.append_line(part(data, k, data.len()));
            proof {
                lemma_varint_len((data@.len() - k) as u64);
                let e = self.arena().bytes;
                assert(is_prefix(d, e));
                lemma_line_grows(d, e, line, data@, id);
                if let Some(c) = line.child {
                    lemma_id_node(e, c.0 as nat);
                }
            }
            let r = Node::Line(
                NodeLine {
                    path,
                    value: if line.child.is_none() {
                        line.value
                    } else {
                        None
                    },
                    child: line.child,
                },
            );
            proof {
                let e = self.arena().bytes;
                let child = id_view(line.child);
                let tail = data@.subrange(k as int, data@.len() as int);
                assert forall|p: Seq<u8>|
                    (#[trigger] rest_on(d, data@, child, k as int, p)) is Some implies node_on(
                    e,
                    r@,
                    p,
                ) == rest_on(d, data@, child, k as int, p) by {
                    lemma_rest_stable(d, e, data@, child, k as int, p);
                    lemma_rest_whole(e, r@, tail, p);
                    assert(tail.subrange(0, tail.len() as int) =~= tail);
                }
            }
            r
        }
    }
}

/// What is kept behind the bytes of a line is kept by the line.
proof fn lemma_keeps_line(
    d: Seq<u8>,
    n: NodeView,
    line: Seq<u8>,
    t: Trie<u64>,
    e: Seq<u8>,
    m: NodeView,
    u: Trie<u64>,
)
    requires
        n is Line,
        line_at(d, n->path) == Some(line),
        t != u,
        keeps_rest(d, line, n->Line_child, 0, t, e, m, u),
    ensures
        keeps(d, n, t, e, m, u),
{
    assert forall|p: Seq<u8>|
        (#[trigger] node_on(d, n, p)) is Some && t.at(p) == u.at(p) implies node_on(e, m, p)
        == node_on(d, n, p) by {
        assert(p.len() > 0);
        lemma_rest_whole(d, n, line, p);
    }
}

/// The first children of a merged branch keep what stands below those of the branch there was.
spec fn kids_kept(
    d: Seq<u8>,
    n: NodeView,
    t: Trie<u64>,
    e: Seq<u8>,
    mask: Set<u8>,
    children: Seq<NodeView>,
    kids: Map<u8, Trie<u64>>,
) -> bool {
    forall|j: int|
        0 <= j < children.len() ==> #[trigger] kid_kept(d, n, t, e, mask, children, kids, j)
}

spec fn kid_kept(
    d: Seq<u8>,
    n: NodeView,
    t: Trie<u64>,
    e: Seq<u8>,
    mask: Set<u8>,
    children: Seq<NodeView>,
    kids: Map<u8, Trie<u64>>,
    j: int,
) -> bool {
    let b = members(mask)[j];
    n->mask.contains(b) ==> keeps(
        d,
        node_of(d, child_place(d, n->mask, n->first, b)),
        t.kids[b],
        e,
        children[j],
        kids[b],
    )
}

/// One child more.
proof fn lemma_kids_kept_push(
    d: Seq<u8>,
    n: NodeView,
    t: Trie<u64>,
    e: Seq<u8>,
    f: Seq<u8>,
    mask: Set<u8>,
    children: Seq<Node>,
    kids: Map<u8, Trie<u64>>,
    child: Node,
    kid: Trie<u64>,
)
    requires
        extends(e, f),
        kids_built(e, mask, children, kids, children.len() as int),
        kids_kept(d, n, t, e, mask, node_views(children), kids),
        children.len() < members(mask).len(),
        n->mask.contains(members(mask)[children.len() as int]) ==> keeps(
            d,
            node_of(d, child_place(d, n->mask, n->first, members(mask)[children.len() as int])),
            t.kids[members(mask)[children.len() as int]],
            f,
            child@,
            kid,
        ),
    ensures
        kids_kept(
            d,
            n,
            t,
            f,
            mask,
            node_views(children.push(child)),
            kids.insert(members(mask)[children.len() as int], kid),
        ),
{
    let k = children.len() as int;
    let views = node_views(children);
    let next = node_views(children.push(child));
    let more = kids.insert(members(mask)[k], kid);
    lemma_members(mask);
    assert forall|j: int| 0 <= j < next.len() implies #[trigger] kid_kept(
        d,
        n,
        t,
        f,
        mask,
        next,
        more,
        j,
    ) by {
        let b = members(mask)[j];
        if j < k {
            assert(kid_kept(d, n, t, e, mask, views, kids, j));
            assert(kid_built(e, mask, children, kids, j));
            assert(next[j] == views[j]);
            assert(views[j] == children[j]@);
            assert(members(mask)[j] < members(mask)[k]);
            if n->mask.contains(b) {
                lemma_keeps_later(
                    d,
                    node_of(d, child_place(d, n->mask, n->first, b)),
                    t.kids[b],
                    e,
                    views[j],
                    e.len(),
                    kids[b],
                    f,
                );
            }
        } else {
            assert(next[j] == child@);
        }
    }
}

/// What the children keep is kept by the branch that leads to them.
proof fn lemma_keeps_branch(
    d: Seq<u8>,
    n: NodeView,
    id: nat,
    t: Trie<u64>,
    e: Seq<u8>,
    mask: Set<u8>,
    children: Seq<Node>,
    kids: Map<u8, Trie<u64>>,
    f: Seq<u8>,
    r: NodeView,
    u: Trie<u64>,
)
    requires
        n is Branch,
        node_wf(d, n, id),
        t == node_trie(d, n, id),
        extends(e, f),
        kids_built(e, mask, children, kids, children.len() as int),
        kids_kept(d, n, t, e, mask, node_views(children), kids),
        children.len() == members(mask).len(),
        n->mask.subset_of(mask),
        leads_to_all(f, r, mask, node_views(children)),
        u.kids == kids,
        u != t,
    ensures
        keeps(d, n, t, f, r, u),
{
    let views = node_views(children);
    lemma_branch_view(d, n, id);
    lemma_members(mask);
    assert forall|p: Seq<u8>|
        (#[trigger] node_on(d, n, p)) is Some && t.at(p) == u.at(p) implies node_on(f, r, p)
        == node_on(d, n, p) by {
        assert(p.len() > 0);
        let b = p[0];
        let j = rank(mask, b as nat) as int;
        assert(n->mask.contains(b));
        assert(mask.contains(b));
        assert(members(mask)[j] == b);
        assert(kid_kept(d, n, t, e, mask, views, kids, j));
        assert(kid_built(e, mask, children, kids, j));
        assert(views[j] == children[j]@);
        let q = p.drop_first();
        assert(t.kids[b].at(q) == kids[b].at(q));
        let m = node_of(d, child_place(d, n->mask, n->first, b));
        assert(node_on(d, m, q) is Some);
        lemma_on_stable(e, f, views[j], e.len(), q);
    }
}

/// What stands below `b` in the union of two places that have it between them.
spec fn union_kid(a: Map<u8, Trie<u64>>, b: Map<u8, Trie<u64>>, c: u8) -> Trie<u64> {
    if a.contains_key(c) {
        if b.contains_key(c) {
            union(a[c], b[c])
        } else {
            a[c]
        }
    } else {
        b[c]
    }
}

proof fn lemma_union_of(t: Trie<u64>, u: Trie<u64>, kids: Map<u8, Trie<u64>>)
    requires
        kids.dom() =~= t.kids.dom().union(u.kids.dom()),
        forall|b: u8| #[trigger] kids.contains_key(b) ==> kids[b] == union_kid(t.kids, u.kids, b),
    ensures
        union(t, u) == (Trie { val: either(u.val, t.val), kids }),
{
    assert(union(t, u).kids =~= kids);
}

/// The child of a branch is what it was.
spec fn same_kid(t: Trie<u64>, kids: Map<u8, Trie<u64>>, b: u8) -> bool {
    t.kids.contains_key(b) && kids[b] == t.kids[b]
}

fn same_value(a: Option<u64>, b: Option<u64>) -> (r: bool)
    ensures
        r == (a == b),
{
    match (a, b) {
        (None, None) => true,
        (Some(x), Some(y)) => x == y,
        _ => false,
    }
}

/// The value at the focus, mapped.
fn mapped_value<V, Z: Zipper<V>, M: Fn(&V) -> u64>(z: &Z, map: &M) -> (r: Option<u64>)
    requires
        stands::<V, Z>(z),
        forall|v: &V| call_requires(*map, (v,)),
    ensures
        match place::<V, Z>(z).val {
            Some(v) => r matches Some(w) && call_ensures(*map, (&v,), w),
            None => r is None,
        },
{
    match z.val() {
        Some(v) => Some(map(v)),
        None => None,
    }
}

impl ArenaWriter {
    /// Merge the zipper's current position with the node at `id`. Where nothing is new, nothing is
    /// written and the result is `None`.
    fn merge_node<V, Z: Zipper<V>, M: Fn(&V) -> u64>(
        &mut self,
        z: &mut Z,
        map: &M,
        id: NodeId,
    ) -> (r: (Option<Node>, Ghost<Trie<u64>>))
        requires
            old(self).arena().wf(),
            id_wf(old(self).arena().bytes, id.0 as nat),
            id.0 <= old(self).arena().bytes.len(),
            stands::<V, Z>(old(z)),
            forall|v: &V| call_requires(*map, (v,)),
        ensures
            back::<V, Z>(final(z), old(z)),
            mapped(place::<V, Z>(old(z)), *map, r.1@),
            merged_to(
                old(self).arena(),
                final(self).arena(),
                r.0,
                id_trie(old(self).arena().bytes, id.0 as nat),
                union(id_trie(old(self).arena().bytes, id.0 as nat), r.1@),
            ),
            r.0 matches Some(n) ==> keeps(
                old(self).arena().bytes,
                node_of(old(self).arena().bytes, id.0 as nat),
                id_trie(old(self).arena().bytes, id.0 as nat),
                final(self).arena().bytes,
                n@,
                union(id_trie(old(self).arena().bytes, id.0 as nat), r.1@),
            ),
            final(self).arena().bytes.len() <= old(self).arena().bytes.len() + growth(
                id_trie(old(self).arena().bytes, id.0 as nat),
                r.1@,
            ),
            final(self).counted() == old(self).counted(),
        decreases id.0, 1nat, 0nat,
    {
        proof {
            lemma_id_node(self.arena().bytes, id.0 as nat);
        }
        match self.node(id) {
            Node::Branch(branch) => self.merge_branch(z, map, branch, Ghost(id.0)),
            Node::Line(line) => {
                proof {
                    lemma_line_ok(self.arena().bytes, &line, id.0 as nat);
                }
                let data = self.line(line.path);
                assert(data@.subrange(0, data@.len() as int) =~= data@);
                let ghost d = self.arena().bytes;
                let r = self.merge_line_from(z, map, &line, data.as_slice(), 0, Ghost(id.0));
                proof {
                    if let Some(n) = r.0 {
                        lemma_keeps_line(
                            d,
                            line@,
                            data@,
                            id_trie(d, id.0 as nat),
                            self.arena().bytes,
                            n@,
                            union(id_trie(d, id.0 as nat), r.1@),
                        );
                    }
                }
                r
            },
        }
    }

    fn merge_branch<V, Z: Zipper<V>, M: Fn(&V) -> u64>(
        &mut self,
        z: &mut Z,
        map: &M,
        branch: NodeBranch,
        Ghost(id): Ghost<u64>,
    ) -> (r: (Option<Node>, Ghost<Trie<u64>>))
        requires
            old(self).arena().wf(),
            node_wf(old(self).arena().bytes, branch@, id as nat),
            id <= old(self).arena().bytes.len(),
            stands::<V, Z>(old(z)),
            forall|v: &V| call_requires(*map, (v,)),
        ensures
            back::<V, Z>(final(z), old(z)),
            mapped(place::<V, Z>(old(z)), *map, r.1@),
            merged_to(
                old(self).arena(),
                final(self).arena(),
                r.0,
                node_trie(old(self).arena().bytes, branch@, id as nat),
                union(node_trie(old(self).arena().bytes, branch@, id as nat), r.1@),
            ),
            r.0 matches Some(n) ==> keeps(
                old(self).arena().bytes,
                branch@,
                node_trie(old(self).arena().bytes, branch@, id as nat),
                final(self).arena().bytes,
                n@,
                union(node_trie(old(self).arena().bytes, branch@, id as nat), r.1@),
            ),
            final(self).arena().bytes.len() <= old(self).arena().bytes.len() + growth(
                node_trie(old(self).arena().bytes, branch@, id as nat),
                r.1@,
            ),
            final(self).counted() == old(self).counted(),
        decreases id, 0nat, 0nat,
    {
        let ghost a = self.arena();
        let ghost t = node_trie(a.bytes, branch@, id as nat);
        let ghost here = place::<V, Z>(z);
        let ghost at = z.focus();
        let ghost mask = branch.bytemask@;
        let ghost first = id_view(branch.first_child);
        let z_mask = z.child_mask();
        let z_value = mapped_value(z, map);
        let value = if z_value.is_some() {
            z_value
        } else {
            branch.value
        };
        let mut changed = !same_value(value, branch.value);
        proof {
            lemma_branch_view(a.bytes, branch@, id as nat);
            lemma_members(mask);
            lemma_rank_is_len(mask);
            assert forall|k: nat| k < rank(mask, 256) implies node_at(
                a.bytes,
                #[trigger] sibling(a.bytes, first->Some_0, k),
            ) is Some by {
                lemma_siblings_sound(a.bytes, mask, first, branch.value, id as nat, k);
                lemma_id_node(a.bytes, sibling(a.bytes, first->Some_0, k));
            }
        }
        let old_kids = match branch.first_child {
            Some(first) => self.siblings(first, branch.bytemask.count_bits()),
            None => Vec::new(),
        };
        let union_mask = branch.bytemask.or(&z_mask);
        let bytes = union_mask.to_vec();
        let mut children: Vec<Node> = Vec::new();
        let ghost mut kids: Map<u8, Trie<u64>> = Map::empty();
        let ghost mut ukids: Map<u8, Trie<u64>> = Map::empty();
        let mut i: usize = 0;
        proof {
            lemma_grown_refl(a);
            lemma_bytes_before(union_mask@, 0);
            assert(kids.dom() =~= first_bytes(union_mask@, 0));
            assert(ukids.dom() =~= kids.dom().intersect(z_mask@));
            lemma_no_kids_growth(t, z_value, 256);
            assert(kids.dom().intersect(mask) =~= Set::<u8>::empty());
        }
        while i < bytes.len()
            invariant
                a == old(self).arena(),
                a.wf(),
                id <= a.bytes.len(),
                node_wf(a.bytes, branch@, id as nat),
                t == node_trie(a.bytes, branch@, id as nat),
                mask == branch.bytemask@,
                first == id_view(branch.first_child),
                t.kids.dom() == mask,
                forall|b: u8| #[trigger]
                    mask.contains(b) ==> t.kids[b] == id_trie(
                        a.bytes,
                        child_place(a.bytes, mask, first, b),
                    ),
                old_kids@.len() == rank(mask, 256),
                forall|k: int|
                    0 <= k < old_kids@.len() ==> (#[trigger] old_kids@[k]).0 == sibling(
                        a.bytes,
                        first->Some_0,
                        k as nat,
                    ),
                z_mask@ == here.kids.dom(),
                here == place::<V, Z>(old(z)),
                union_mask@ == mask.union(z_mask@),
                bytes@ == members(union_mask@),
                i <= bytes@.len(),
                z.wf(),
                z.trie() == old(z).trie(),
                z.shares() == old(z).shares(),
                z.focus() == at,
                z.trie().at(at) == Some(here),
                forall|v: &V| call_requires(*map, (v,)),
                grown(a, self.arena()),
                self.counted() == old(self).counted(),
                kids.dom() =~= first_bytes(union_mask@, i as int),
                ukids.dom() =~= kids.dom().intersect(z_mask@),
                forall|b: u8| #[trigger]
                    ukids.contains_key(b) ==> mapped(here.kids[b], *map, ukids[b]),
                forall|b: u8| #[trigger]
                    kids.contains_key(b) ==> kids[b] == union_kid(t.kids, ukids, b),
                kids_built(self.arena().bytes, union_mask@, children@, kids, i as int),
                kids_kept(
                    a.bytes,
                    branch@,
                    t,
                    self.arena().bytes,
                    union_mask@,
                    node_views(children@),
                    kids,
                ),
                self.arena().bytes.len() + NODE_ROOM * (i - kids.dom().intersect(mask).len())
                    <= a.bytes.len() + kid_growth(t, Trie { val: z_value, kids: ukids }, 256),
                !changed ==> self.arena() == a && value == branch.value && forall|b: u8| #[trigger]
                    kids.contains_key(b) ==> same_kid(t, kids, b),
                changed ==> value != branch.value || exists|b: u8| #[trigger]
                    kids.contains_key(b) && !same_kid(t, kids, b),
            decreases bytes@.len() - i,
        {
            let byte = bytes[i];
            let ghost before = self.arena();
            let ghost old_kids_map = kids;
            proof {
                lemma_members(union_mask@);
                lemma_members(mask);
                assert(union_mask@.contains(byte));
                lemma_at_push(z.trie(), at, byte);
                lemma_bytes_before(union_mask@, i as int);
                assert(!kids.contains_key(byte)) by {
                    assert(rank(union_mask@, byte as nat) == i);
                }
            }
            proof {
                lemma_held(kids.dom(), mask, byte);
                assert(!ukids.contains_key(byte)) by {
                    assert(!kids.dom().contains(byte));
                }
            }
            let in_old = branch.bytemask.test_bit(byte);
            let in_new = z_mask.test_bit(byte);
            let child: Node;
            let ghost kid: Trie<u64>;
            if in_old {
                let idx = branch.bytemask.index_of(byte) as usize;
                let child_id = old_kids[idx];
                proof {
                    lemma_siblings_sound(
                        a.bytes,
                        mask,
                        first,
                        branch.value,
                        id as nat,
                        idx as nat,
                    );
                    lemma_id_stable(a.bytes, before.bytes, child_id.0 as nat);
                    lemma_copy(before.bytes, child_id.0 as nat);
                    lemma_id_node(a.bytes, child_id.0 as nat);
                    assert(t.kids[byte] == id_trie(a.bytes, child_id.0 as nat));
                }
                if in_new {
                    z.descend_to_byte(byte);
                    let (merged, Ghost(u)) = self.merge_node(z, map, child_id);
                    z.ascend(1);
                    proof {
                        assert(z.focus() =~= at);
                        lemma_kid_growth_insert(t, z_value, ukids, byte, u, 256);
                        ukids = ukids.insert(byte, u);
                        kid = union(t.kids[byte], u);
                    }
                    match merged {
                        Some(node) => {
                            changed = true;
                            child = node;
                            proof {
                                lemma_keeps_earlier(
                                    a.bytes,
                                    before.bytes,
                                    node_of(a.bytes, child_id.0 as nat),
                                    child_id.0 as nat,
                                    t.kids[byte],
                                    self.arena().bytes,
                                    node@,
                                    kid,
                                );
                            }
                        },
                        None => {
                            child = self.node(child_id);
                            proof {
                                lemma_keeps_self(
                                    a.bytes,
                                    before.bytes,
                                    child@,
                                    child_id.0 as nat,
                                    t.kids[byte],
                                );
                            }
                        },
                    }
                } else {
                    child = self.node(child_id);
                    proof {
                        kid = t.kids[byte];
                        lemma_grown_refl(before);
                        lemma_keeps_self(
                            a.bytes,
                            before.bytes,
                            child@,
                            child_id.0 as nat,
                            t.kids[byte],
                        );
                    }
                }
            } else {
                changed = true;
                z.descend_to_byte(byte);
                let (node, Ghost(u)) = self.fresh_subtree(z, map);
                z.ascend(1);
                child = node;
                proof {
                    assert(z.focus() =~= at);
                    lemma_kid_growth_insert(t, z_value, ukids, byte, u, 256);
                    ukids = ukids.insert(byte, u);
                    kid = u;
                }
            }
            proof {
                let after = self.arena();
                assert(grown(before, after));
                lemma_grown_trans(a, before, after);
                lemma_kids_built_grows(
                    before.bytes,
                    after.bytes,
                    union_mask@,
                    children@,
                    kids,
                    i as int,
                );
                lemma_kids_built_push(
                    after.bytes,
                    union_mask@,
                    children@,
                    kids,
                    i as int,
                    child,
                    kid,
                );
                lemma_kids_kept_push(
                    a.bytes,
                    branch@,
                    t,
                    before.bytes,
                    after.bytes,
                    union_mask@,
                    children@,
                    kids,
                    child,
                    kid,
                );
                kids = kids.insert(byte, kid);
                assert(kids.contains_key(byte));
                if changed && value == branch.value {
                    if same_kid(t, kids, byte) {
                        let b = choose|b: u8| #[trigger]
                            old_kids_map.contains_key(b) && !same_kid(t, old_kids_map, b);
                        assert(kids.contains_key(b) && !same_kid(t, kids, b));
                    }
                }
            }
            children.push(child);
            i = i + 1;
        }
        let ghost u = Trie { val: z_value, kids: ukids };
        proof {
            lemma_bytes_before(union_mask@, i as int);
            assert(kids.dom() =~= union_mask@);
            assert(ukids.dom() =~= z_mask@);
            assert(mapped(here, *map, u));
            lemma_union_of(t, u, kids);
        }
        if !changed {
            proof {
                assert(kids =~= t.kids);
            }
            return (None, Ghost(u));
        }
        let ghost b1 = self.arena();
        let node = self.branch_of(union_mask, &children, value, Ghost(kids));
        proof {
            lemma_grown_trans(a, b1, self.arena());
            lemma_rank_is_len(mask);
            lemma_rank_is_len(kids.dom().intersect(mask));
            vstd::set_lib::lemma_len_subset(kids.dom().intersect(mask), mask);
            lemma_growth(t, u);
            lemma_keeps_branch(
                a.bytes,
                branch@,
                id as nat,
                t,
                b1.bytes,
                union_mask@,
                children@,
                kids,
                self.arena().bytes,
                node@,
                union(t, u),
            );
            if value == branch.value {
                let b = choose|b: u8| #[trigger] kids.contains_key(b) && !same_kid(t, kids, b);
                assert(union(t, u).kids[b] != t.kids[b] || !t.kids.contains_key(b));
            }
            assert(union(t, u) != t);
        }
        (Some(node), Ghost(u))
    }

    /// Merge the zipper (positioned `k` bytes into `line`'s segment) with the remainder of the
    /// line. Where nothing is new, nothing is written and the result is `None`.
    fn merge_line_from<V, Z: Zipper<V>, M: Fn(&V) -> u64>(
        &mut self,
        z: &mut Z,
        map: &M,
        line: &NodeLine,
        data: &[u8],
        k: usize,
        Ghost(id): Ghost<u64>,
    ) -> (r: (Option<Node>, Ghost<Trie<u64>>))
        requires
            old(self).arena().wf(),
            line_ok(old(self).arena().bytes, line, data@, id as nat),
            id <= old(self).arena().bytes.len(),
            k <= data@.len(),
            stands::<V, Z>(old(z)),
            forall|v: &V| call_requires(*map, (v,)),
        ensures
            back::<V, Z>(final(z), old(z)),
            mapped(place::<V, Z>(old(z)), *map, r.1@),
            ({
                let rest = chain(
                    data@.subrange(k as int, data@.len() as int),
                    line_end(old(self).arena().bytes, line),
                );
                &&& merged_to(old(self).arena(), final(self).arena(), r.0, rest, union(rest, r.1@))
                &&& r.0 matches Some(n) ==> keeps_rest(
                    old(self).arena().bytes,
                    data@,
                    id_view(line.child),
                    k as int,
                    rest,
                    final(self).arena().bytes,
                    n@,
                    union(rest, r.1@),
                )
            }),
            final(self).counted() == old(self).counted(),
            final(self).arena().bytes.len() <= old(self).arena().bytes.len() + growth(
                chain(
                    data@.subrange(k as int, data@.len() as int),
                    line_end(old(self).arena().bytes, line),
                ),
                r.1@,
            ),
        decreases id, 0nat, 2 * (data@.len() - k) + 1,
    {
        let ghost a = self.arena();
        let ghost end = line_end(a.bytes, line);
        let ghost top = place::<V, Z>(z);
        let len = data.len();
        let j = follow(z, data, k);
        let ghost here = place::<V, Z>(z);
        let ghost seg = data@.subrange(k as int, j as int);
        let ghost rest = chain(data@.subrange(j as int, len as int), end);
        let (inner, Ghost(u)) = if j == len {
            assert(data@.subrange(j as int, len as int) =~= Seq::<u8>::empty());
            self.merge_end(z, map, line, Ghost(data@), Ghost(id))
        } else {
            self.merge_fork(z, map, line, data, j, Ghost(id))
        };
        z.ascend(j - k);
        let ghost whole = chain(data@.subrange(k as int, len as int), end);
        proof {
            assert(z.focus() =~= old(z).focus());
            lemma_mapped_chain(seg, here, *map, u);
            lemma_chain_concat(seg, data@.subrange(j as int, len as int), end);
            assert(seg + data@.subrange(j as int, len as int) =~= data@.subrange(
                k as int,
                len as int,
            ));
            assert(whole == chain(seg, rest));
            lemma_union_chain(seg, rest, u);
            lemma_chain_growth(seg, rest, u);
            if inner is Some && chain(seg, union(rest, u)) == chain(seg, rest) {
                lemma_chain_injective(seg, union(rest, u), rest);
            }
        }
        match inner {
            None => (None, Ghost(chain(seg, u))),
            Some(node) => {
                if j == k {
                    return (Some(node), Ghost(chain(seg, u)));
                }
                // Wrap the merged node in a line for the matched prefix; the old line data serves
                // when the whole segment matched.
                let ghost b = self.arena();
                if k == 0 && j == len {
                    proof {
                        lemma_line_grows(a.bytes, b.bytes, line, data@, id as nat);
                        assert(seg =~= data@);
                    }
                    let r = self.wrap_line(line.path, &node, true, Ghost(union(rest, u)));
                    proof {
                        lemma_grown_trans(a, b, self.arena());
                        lemma_keeps_behind(
                            a.bytes,
                            data@,
                            id_view(line.child),
                            k as int,
                            j as int,
                            rest,
                            b.bytes,
                            node@,
                            b.bytes.len(),
                            union(rest, u),
                            self.arena().bytes,
                            r@,
                        );
                    }
                    (Some(r), Ghost(chain(seg, u)))
                } else {
                    let r = self.behind_segment(part(data, k, j), node, Ghost(union(rest, u)));
                    proof {
                        lemma_grown_trans(a, b, self.arena());
                        lemma_keeps_behind(
                            a.bytes,
                            data@,
                            id_view(line.child),
                            k as int,
                            j as int,
                            rest,
                            b.bytes,
                            node@,
                            b.bytes.len(),
                            union(rest, u),
                            self.arena().bytes,
                            r@,
                        );
                    }
                    (Some(r), Ghost(chain(seg, u)))
                }
            },
        }
    }

    /// Merge the zipper, positioned at the end of `line`'s segment, with what is there.
    fn merge_end<V, Z: Zipper<V>, M: Fn(&V) -> u64>(
        &mut self,
        z: &mut Z,
        map: &M,
        line: &NodeLine,
        Ghost(data): Ghost<Seq<u8>>,
        Ghost(id): Ghost<u64>,
    ) -> (r: (Option<Node>, Ghost<Trie<u64>>))
        requires
            old(self).arena().wf(),
            line_ok(old(self).arena().bytes, line, data, id as nat),
            id <= old(self).arena().bytes.len(),
            stands::<V, Z>(old(z)),
            forall|v: &V| call_requires(*map, (v,)),
        ensures
            back::<V, Z>(final(z), old(z)),
            mapped(place::<V, Z>(old(z)), *map, r.1@),
            ({
                let end = line_end(old(self).arena().bytes, line);
                &&& merged_to(old(self).arena(), final(self).arena(), r.0, end, union(end, r.1@))
                &&& r.0 matches Some(n) ==> keeps_rest(
                    old(self).arena().bytes,
                    data,
                    id_view(line.child),
                    data.len() as int,
                    end,
                    final(self).arena().bytes,
                    n@,
                    union(end, r.1@),
                )
            }),
            final(self).arena().bytes.len() <= old(self).arena().bytes.len() + growth(
                line_end(old(self).arena().bytes, line),
                r.1@,
            ),
            final(self).counted() == old(self).counted(),
        decreases id, 0nat, 0nat,
    {
        if let Some(child) = line.child {
            assert(forall|p: Seq<u8>| #[trigger] p.subrange(0, p.len() as int) =~= p);
            return self.merge_node(z, map, child);
        }
        // A leaf; the zipper may update the value or extend below.
        let ghost a = self.arena();
        let ghost here = place::<V, Z>(z);
        let ghost end = Trie::leaf(line.value);
        let z_mask = z.child_mask();
        let z_value = mapped_value(z, map);
        let value = if z_value.is_some() {
            z_value
        } else {
            line.value
        };
        proof {
            lemma_grown_refl(a);
        }
        if same_value(value, line.value) && z_mask.is_empty_mask() {
            let ghost u = Trie { val: z_value, kids: Map::empty() };
            proof {
                assert(u.kids.dom() =~= here.kids.dom());
                assert(mapped(here, *map, u));
                assert(union(end, u).kids =~= end.kids);
            }
            return (None, Ghost(u));
        }
        let (children, Ghost(kids)) = self.fresh_children(
            z,
            map,
            z_mask,
            None,
            Ghost(Trie::empty()),
        );
        let ghost b = self.arena();
        let node = self.branch_of(z_mask, &children, value, Ghost(kids));
        let ghost u = Trie { val: z_value, kids };
        proof {
            lemma_grown_trans(a, b, self.arena());
            assert(mapped(here, *map, u));
            assert(union(end, u).kids =~= kids);
            assert(end.kids.dom() =~= Set::<u8>::empty());
            assert(union(end, u) != end);
            lemma_kid_places_val(None, z_value, kids, 256);
            lemma_growth_of_new(end, u, 256);
            lemma_growth(end, u);
        }
        (Some(node), Ghost(u))
    }

    /// Merge the zipper, positioned at segment offset `j` where it does not just follow the line,
    /// with the remainder of the line.
    fn merge_fork<V, Z: Zipper<V>, M: Fn(&V) -> u64>(
        &mut self,
        z: &mut Z,
        map: &M,
        line: &NodeLine,
        data: &[u8],
        j: usize,
        Ghost(id): Ghost<u64>,
    ) -> (r: (Option<Node>, Ghost<Trie<u64>>))
        requires
            old(self).arena().wf(),
            line_ok(old(self).arena().bytes, line, data@, id as nat),
            id <= old(self).arena().bytes.len(),
            j < data@.len(),
            stands::<V, Z>(old(z)),
            place::<V, Z>(old(z)).val is Some || place::<V, Z>(old(z)).kids.dom() != Set::<
                u8,
            >::empty().insert(data@[j as int]),
            forall|v: &V| call_requires(*map, (v,)),
        ensures
            back::<V, Z>(final(z), old(z)),
            mapped(place::<V, Z>(old(z)), *map, r.1@),
            ({
                let rest = chain(
                    data@.subrange(j as int, data@.len() as int),
                    line_end(old(self).arena().bytes, line),
                );
                &&& merged_to(old(self).arena(), final(self).arena(), r.0, rest, union(rest, r.1@))
                &&& r.0 matches Some(n) ==> keeps_rest(
                    old(self).arena().bytes,
                    data@,
                    id_view(line.child),
                    j as int,
                    rest,
                    final(self).arena().bytes,
                    n@,
                    union(rest, r.1@),
                )
            }),
            final(self).arena().bytes.len() <= old(self).arena().bytes.len() + growth(
                chain(
                    data@.subrange(j as int, data@.len() as int),
                    line_end(old(self).arena().bytes, line),
                ),
                r.1@,
            ),
            final(self).counted() == old(self).counted(),
        decreases id, 0nat, 2 * (data@.len() - j),
    {
        let ghost a = self.arena();
        let ghost end = line_end(a.bytes, line);
        let ghost here = place::<V, Z>(z);
        let ghost at = z.focus();
        let old_byte = data[j];
        let ghost tail = chain(data@.subrange(j + 1, data@.len() as int), end);
        let ghost rest = chain(data@.subrange(j as int, data@.len() as int), end);
        let z_mask = z.child_mask();
        let z_value = mapped_value(z, map);
        let matched = z_mask.test_bit(old_byte);
        proof {
            lemma_grown_refl(a);
            lemma_at_push(z.trie(), at, old_byte);
            assert(data@.subrange(j as int, data@.len() as int).drop_first() =~= data@.subrange(
                j + 1,
                data@.len() as int,
            ));
            assert(rest.kids =~= Map::empty().insert(old_byte, tail));
            lemma_chain_run(data@.subrange(j as int, data@.len() as int), end);
        }
        let ghost mut below: Trie<u64> = Trie::leaf(None);
        let cont: Option<Node> = if matched {
            z.descend_to_byte(old_byte);
            let (merged, Ghost(u)) = self.merge_line_from(z, map, line, data, j + 1, Ghost(id));
            z.ascend(1);
            proof {
                assert(z.focus() =~= at);
                below = u;
            }
            merged
        } else {
            None
        };
        proof {
            lemma_union_empty(tail);
        }
        let ghost b = self.arena();
        let count = z_mask.count_bits();
        let extras = if matched {
            count > 1
        } else {
            count > 0
        };
        proof {
            lemma_extras(z_mask@, old_byte);
        }
        if z_value.is_none() && !extras && cont.is_none() {
            let ghost kids = if matched {
                Map::<u8, Trie<u64>>::empty().insert(old_byte, below)
            } else {
                Map::empty()
            };
            let ghost u = Trie { val: z_value, kids };
            proof {
                assert(kids.dom() =~= here.kids.dom());
                assert(mapped(here, *map, u));
                assert(union(rest, u).kids =~= rest.kids);
            }
            return (None, Ghost(u));
        }
        // Build a branch: the old segment continuation plus whatever the zipper adds here.
        let cont_node = match cont {
            Some(node) => node,
            None => self.tail_child(line, data, j + 1, Ghost(id as nat)),
        };
        let ghost c = self.arena();
        let ghost cont_trie = union(tail, below);
        let mut mask = z_mask;
        mask.set_bit(old_byte);
        proof {
            lemma_grown_trans(a, b, c);
            assert(denotes(c.bytes, cont_node@, cont_trie));
            assert(keeps_rest(
                a.bytes,
                data@,
                id_view(line.child),
                j + 1,
                tail,
                c.bytes,
                cont_node@,
                cont_trie,
            ));
        }
        let (children, Ghost(kids)) = self.fresh_children(
            z,
            map,
            mask,
            Some((old_byte, cont_node)),
            Ghost(cont_trie),
        );
        let ghost d = self.arena();
        let node = self.branch_of(mask, &children, z_value, Ghost(kids));
        let ghost ukids = if matched {
            kids.insert(old_byte, below)
        } else {
            kids.remove(old_byte)
        };
        let ghost u = Trie { val: z_value, kids: ukids };
        proof {
            lemma_grown_trans(a, c, d);
            lemma_grown_trans(a, d, self.arena());
            assert(ukids.dom() =~= here.kids.dom());
            assert(mapped(here, *map, u));
            lemma_union_of(rest, u, kids);
            if extras {
                assert(!(kids.dom() =~= rest.kids.dom()));
            }
            assert(union(rest, u).kids[old_byte] == cont_trie);
            assert(union(rest, u) != rest);
            lemma_members(mask@);
            lemma_fork_growth(rest, u, old_byte, tail, below, matched, kids, data@.len() - j);
            lemma_grown_trans(c, d, self.arena());
            lemma_keeps_fork(
                a.bytes,
                data@,
                id_view(line.child),
                j as int,
                tail,
                c.bytes,
                cont_node@,
                c.bytes.len(),
                cont_trie,
                self.arena().bytes,
                node@,
                mask@,
                node_views(children@),
                rest,
                union(rest, u),
            );
        }
        (Some(node), Ghost(u))
    }
}

/// What is appended where a line is left.
proof fn lemma_fork_growth(
    rest: Trie<u64>,
    u: Trie<u64>,
    b: u8,
    tail: Trie<u64>,
    below: Trie<u64>,
    matched: bool,
    kids: Map<u8, Trie<u64>>,
    len: int,
)
    requires
        rest.val is None,
        rest.kids == Map::<u8, Trie<u64>>::empty().insert(b, tail),
        u.val is Some || u.kids.dom() != Set::<u8>::empty().insert(b),
        u.kids == if matched {
            kids.insert(b, below)
        } else {
            kids.remove(b)
        },
        run(rest) >= len,
    ensures
        growth(rest, u) >= STEP_ROOM + NODE_ROOM + len + PLACE_ROOM * kid_places(
            Trie { val: None, kids: kids.remove(b) },
            256,
        ) + if matched {
            growth(tail, below)
        } else {
            0
        },
{
    let fresh = kids.remove(b);
    let other = Trie { val: u.val, kids: fresh };
    assert(rest.kids.dom() =~= Set::<u8>::empty().insert(b));
    assert(rest.is_link());
    lemma_rank_is_len(rest.kids.dom());
    lemma_growth_of_new(rest, other, 256);
    lemma_kid_places_val(None, u.val, fresh, 256);
    if matched {
        assert(u.kids =~= fresh.insert(b, below));
        lemma_kid_growth_insert(rest, u.val, fresh, b, below, 256);
        assert(rest.kids[b] == tail);
    }
    assert(leaves(rest, u));
    lemma_growth(rest, u);
}

/// One byte more, which may be one of `mask`.
proof fn lemma_held(seen: Set<u8>, mask: Set<u8>, b: u8)
    requires
        !seen.contains(b),
    ensures
        seen.insert(b).intersect(mask).len() == seen.intersect(mask).len() + if mask.contains(b) {
            1int
        } else {
            0
        },
{
    let held = seen.intersect(mask);
    lemma_rank_is_len(held);
    let more = seen.insert(b).intersect(mask);
    if mask.contains(b) {
        assert(more =~= held.insert(b));
    } else {
        assert(more =~= held);
    }
}

/// There are bytes besides `b`.
proof fn lemma_extras(s: Set<u8>, b: u8)
    ensures
        s.finite(),
        s.contains(b) && s.len() <= 1 ==> s =~= Set::<u8>::empty().insert(b),
        s.contains(b) && s.len() > 1 ==> !(s =~= Set::<u8>::empty().insert(b)),
        !s.contains(b) && s.len() == 0 ==> s =~= Set::<u8>::empty(),
        !s.contains(b) && s.len() > 0 ==> !(s.insert(b) =~= Set::<u8>::empty().insert(b)),
{
    lemma_rank_is_len(s);
    let r = s.remove(b);
    lemma_rank_is_len(r);
    if s.contains(b) && s.len() <= 1 {
        assert(r.len() == 0);
        assert(r =~= Set::<u8>::empty());
        assert forall|c: u8| s.contains(c) implies c == b by {
            if c != b {
                assert(r.contains(c));
            }
        }
    }
    if !s.contains(b) && s.len() > 0 {
        let c = s.choose();
        assert(s.contains(c));
        assert(s.insert(b).contains(c));
    }
}

/// What leads on from a branch.
proof fn lemma_branch_view(d: Seq<u8>, n: NodeView, id: nat)
    requires
        n is Branch,
        node_wf(d, n, id),
    ensures
        node_trie(d, n, id).val == n->Branch_value,
        node_trie(d, n, id).kids.dom() == n->mask,
        n->first is Some <==> n->mask != Set::<u8>::empty(),
        forall|b: u8| #[trigger]
            n->mask.contains(b) ==> node_trie(d, n, id).kids[b] == id_trie(
                d,
                child_place(d, n->mask, n->first, b),
            ),
{
    reveal(node_wf);
    reveal(node_trie);
    assert(node_trie(d, n, id).kids.dom() =~= n->mask);
}

/// Moves the zipper down along `data` from offset `k` on, for as long as it has no value and no
/// other byte leads on. Returns the offset at which it stops.
fn follow<V, Z: Zipper<V>>(z: &mut Z, data: &[u8], k: usize) -> (j: usize)
    requires
        stands::<V, Z>(old(z)),
        k <= data@.len(),
    ensures
        k <= j <= data@.len(),
        stands::<V, Z>(final(z)),
        final(z).trie() == old(z).trie(),
        final(z).shares() == old(z).shares(),
        final(z).focus() == old(z).focus() + data@.subrange(k as int, j as int),
        place::<V, Z>(old(z)) == chain(
            data@.subrange(k as int, j as int),
            place::<V, Z>(final(z)),
        ),
        j < data@.len() ==> place::<V, Z>(final(z)).val is Some || place::<V, Z>(
            final(z),
        ).kids.dom() != Set::<u8>::empty().insert(data@[j as int]),
{
    let mut j = k;
    assert(data@.subrange(k as int, k as int) =~= Seq::<u8>::empty());
    assert(old(z).focus() + Seq::<u8>::empty() =~= old(z).focus());
    while j < data.len()
        invariant
            k <= j <= data@.len(),
            stands::<V, Z>(z),
            z.trie() == old(z).trie(),
            z.shares() == old(z).shares(),
            z.focus() == old(z).focus() + data@.subrange(k as int, j as int),
            place::<V, Z>(old(z)) == chain(
                data@.subrange(k as int, j as int),
                place::<V, Z>(z),
            ),
        decreases data@.len() - j,
    {
        let ghost here = place::<V, Z>(z);
        let ghost seg = data@.subrange(k as int, j as int);
        let byte = data[j];
        let mask = z.child_mask();
        let single = mask.count_bits() == 1 && mask.test_bit(byte);
        if z.val().is_some() || !single {
            proof {
                lemma_extras(mask@, byte);
                assert(Set::<u8>::empty().insert(byte).contains(byte));
            }
            return j;
        }
        proof {
            lemma_extras(mask@, byte);
            lemma_at_push(z.trie(), z.focus(), byte);
            let next = here.kids[byte];
            assert(seq![byte].drop_first() =~= Seq::<u8>::empty());
            assert(chain(seq![byte].drop_first(), next) == next);
            assert(chain(seq![byte], next).kids =~= here.kids);
            lemma_chain_concat(seg, seq![byte], next);
            assert(seg + seq![byte] =~= data@.subrange(k as int, j + 1));
        }
        z.descend_to_byte(byte);
        assert(old(z).focus() + data@.subrange(k as int, j + 1) =~= (old(z).focus() + seg).push(
            byte,
        ));
        j = j + 1;
    }
    j
}

/// The shortest file that can be merged into.
pub const MIN_FILE: usize = 25;

/// What merging `u` into the file `old` makes of it.
///
/// The file then has the paths of both tries, and where both have a value that of `u`. Where `u`
/// adds nothing the file is left as it is. Otherwise all its bytes but those of the root's place
/// stay where they are, the new root stands behind them, and the root there was is added to the earlier
/// roots. Wherever the trie is as it was, a path that led to a node still leads to that node. No more
/// is appended than the nodes along the paths of `u` with their siblings, the lines, the root and a
/// trailer take: see [growth].
pub open spec fn is_merge(old: Seq<u8>, u: Trie<u64>, new: Seq<u8>) -> bool {
    &&& file_wf(new)
    &&& history_wf(new) == history_wf(old)
    &&& file_trie(new) == union(file_trie(old), u)
    &&& if file_trie(new) == file_trie(old) {
        new == old
    } else {
        &&& extends(old, new)
        &&& old.len() <= root_of(new) < new.len()
        &&& new.len() <= old.len() + growth(file_trie(old), u) + NODE_ROOM + 16
        &&& keeps(
            old,
            node_of(old, root_of(old)),
            file_trie(old),
            new,
            node_of(new, root_of(new)),
            file_trie(new),
        )
        &&& roots_of(new) == seq![root_of(new)] + roots_of(old)
    }
}

/// The new root is there, and keeps what it kept.
proof fn lemma_sealed_root(
    old: Seq<u8>,
    bytes: Seq<u8>,
    root: NodeView,
    t: Trie<u64>,
    tail: Seq<u8>,
    new: Seq<u8>,
)
    requires
        extends(old, bytes),
        ARENA_START <= bytes.len() <= u64::MAX,
        denotes(bytes, root, t),
        keeps(old, node_of(old, root_of(old)), file_trie(old), bytes, root, t),
        new == with_root(push_node(bytes, root), bytes.len()) + tail,
    ensures
        extends(old, new),
        new.len() == push_node(bytes, root).len() + tail.len(),
        bytes.len() < push_node(bytes, root).len(),
        new.subrange(0, 8) == magic(),
        root_of(new) == bytes.len(),
        id_wf(new, root_of(new)),
        file_trie(new) == t,
        keeps(
            old,
            node_of(old, root_of(old)),
            file_trie(old),
            new,
            node_of(new, root_of(new)),
            t,
        ),
{
    let d = push_node(bytes, root);
    lemma_push_node(bytes, root, t);
    lemma_with_root(d, bytes.len(), tail);
    lemma_extends_trans(bytes, d, new);
    lemma_extends_trans(old, bytes, new);
    lemma_id_stable(d, new, bytes.len());
    lemma_keeps_later(
        old,
        node_of(old, root_of(old)),
        file_trie(old),
        bytes,
        root,
        bytes.len(),
        t,
        new,
    );
}

/// With the new root and a trailer behind the arena the merge is complete.
proof fn lemma_sealed(
    old: Seq<u8>,
    bytes: Seq<u8>,
    root: NodeView,
    u: Trie<u64>,
    previous_suffix: u64,
    previous_root: u64,
    tail: Seq<u8>,
    new: Seq<u8>,
)
    requires
        file_wf(old),
        old.len() >= MIN_FILE,
        extends(old, bytes),
        bytes.len() <= u64::MAX,
        bytes.len() <= old.len() + growth(file_trie(old), u),
        denotes(bytes, root, union(file_trie(old), u)),
        union(file_trie(old), u) != file_trie(old),
        keeps(
            old,
            node_of(old, root_of(old)),
            file_trie(old),
            bytes,
            root,
            union(file_trie(old), u),
        ),
        previous_root == root_of(old),
        previous_suffix == previous_trailer(old),
        tail == le_bytes(previous_suffix as nat, 8) + le_bytes(previous_root as nat, 8),
        new == with_root(push_node(bytes, root), bytes.len()) + tail,
    ensures
        is_merge(old, u, new),
{
    lemma_sealed_root(old, bytes, root, union(file_trie(old), u), tail, new);
    lemma_node_room(root, bytes.len());
    lemma_le_round_u64(previous_suffix);
    lemma_le_round_u64(previous_root);
    let off = last_trailer(new);
    assert(new.subrange(off, off + 8) =~= le_bytes(previous_suffix as nat, 8));
    assert(new.subrange(off + 8, off + 16) =~= le_bytes(previous_root as nat, 8));
    lemma_roots_grow(old, new);
}

impl ArenaCompactTree<Vec<u8>> {
    /// Merge the trie at a zipper's focus into this one, appending only the new data and updating the
    /// root pointer.
    ///
    /// The old contents are never rewritten: since all node references lead back, appended nodes
    /// can point into the existing arena, and subtrees the zipper does not touch are shared. Only
    /// the nodes along changed paths, plus their sibling runs, are appended. Behind them stands a
    /// trailer with the place of the trailer before it and the root there was, which
    /// [`Self::root_history`] walks.
    ///
    /// Where both tries hold a value on the same path, the zipper's value wins. If the zipper adds
    /// nothing, the bytes are left untouched.
    pub fn merge_zipper<V, Z: Zipper<V>, M: Fn(&V) -> u64>(self, zipper: Z, map: M) -> (r: Result<
        ACTVec,
        ActError,
    >)
        requires
            self.bytes().len() >= MIN_FILE ==> self.wf(),
            zipper.wf(),
            forall|v: &V| call_requires(map, (v,)),
        ensures
            match r {
                Ok(tree) => {
                    &&& self.bytes().len() >= MIN_FILE
                    &&& exists|u: Trie<u64>| #[trigger]
                        mapped(or_empty(zipper.trie().at(zipper.focus())), map, u) && is_merge(
                            self.bytes(),
                            u,
                            tree.bytes(),
                        )
                    &&& tree.wf()
                    &&& tree.counters_view() == Counters::zero()
                },
                Err(e) => self.bytes().len() < MIN_FILE && e == ActError::InvalidMagic,
            },
    {
        let ghost old = self.bytes();
        let old_len = self.get_data().len();
        if old_len < MIN_FILE {
            return Err(ActError::InvalidMagic);
        }
        let (_, root_id) = self.get_root();
        let storage = self.into_data();
        let last = crate::arena_compact::varint::read_le(storage.as_slice(), old_len - 8, 8);
        let previous_suffix: u64 = if last != 0 {
            (old_len - 16) as u64
        } else {
            0
        };
        let mut z = zipper;
        let ghost added = or_empty(z.trie().at(z.focus()));
        if z.val().is_none() && z.child_mask().is_empty_mask() {
            // Nothing is at the focus, and there need not even be a path to it.
            let w = ArenaWriter::resume(storage);
            let r = w.into_tree();
            proof {
                let none = Trie::<u64>::empty();
                assert(added.kids.dom() =~= Set::<u8>::empty());
                assert(none.kids.dom() =~= Set::<u8>::empty());
                assert(mapped(added, map, none));
                lemma_union_empty(file_trie(old));
                assert(is_merge(old, none, r.bytes()));
            }
            return Ok(r);
        }
        proof {
            lemma_id_node(old, root_id.0 as nat);
            crate::arena_compact::node::lemma_node_agree(old, old, root_id.0 as nat);
        }
        let mut w = ArenaWriter::resume(storage);
        let (merged, Ghost(u)) = w.merge_node(&mut z, &map, root_id);
        let ghost t = file_trie(old);
        assert(mapped(added, map, u));
        match merged {
            None => {
                let r = w.into_tree();
                assert(is_merge(old, u, r.bytes()));
                Ok(r)
            },
            Some(root) => {
                let ghost a = w.arena();
                proof {
                    reveal(node_wf);
                    w.lemma_len();
                    assert(a.bytes.subrange(0, 8) =~= old.subrange(0, 8));
                    lemma_push_node(a.bytes, root@, union(t, u));
                }
                let mut tail: Vec<u8> = Vec::new();
                push_le(&mut tail, previous_suffix, 8);
                push_le(&mut tail, root_id.0, 8);
                let r = w.seal(&root, tail);
                proof {
                    lemma_sealed(
                        old,
                        a.bytes,
                        root@,
                        u,
                        previous_suffix,
                        root_id.0,
                        tail@,
                        r.bytes(),
                    );
                }
                Ok(r)
            },
        }
    }
}

} // verus!

//! Building a compact trie from a zipper whose trie has shared places.

use vstd::prelude::*;
use std::collections::HashMap;
use vstd::std_specs::hash::group_hash_axioms;

use crate::arena_compact::builder::{descend_links, lemma_kids_step, place};
use crate::arena_compact::counters::Counters;
use crate::arena_compact::file::{history_wf, lemma_no_trailer, lemma_with_root, root_of, roots_of};
use crate::arena_compact::layout::{
    denotes, is_prefix, layout, lemma_denotes_stable, lemma_make_node, lemma_make_node_grows,
    lemma_push_node, magic, make_node, push_node, zeros, Arena,
};
use crate::arena_compact::meaning::{extends, lemma_extends_trans, node_trie, node_wf};
use crate::arena_compact::node::{lemma_line_agree, Node, NodeLine, NodeView};
use crate::arena_compact::shared_layout::{
    lemma_shared_chain, lemma_shared_kids_gap, lemma_shared_kids_step, lemma_unshared_layout,
    shared_build, shared_kids, shared_layout, shared_line, unshared, wrapped, Shelf,
};
use crate::arena_compact::tree::{ACTVec, ArenaCompactTree};
use crate::arena_compact::writer::{node_views, ArenaWriter};
use crate::mapped::{lemma_mapped_at, lemma_mapped_chain, mapped};
use crate::trie::{chain, lemma_at_push, Trie};
use crate::utils::bits::{lemma_members, lemma_rank_is_len, members, rank};
use crate::utils::byte_mask::{BitMask, ByteMask};
use crate::zipper::Zipper;

verus! {

/// The arena being written, and the map that makes re-use possible: from the number of a place of
/// the source to the node that describes the trie at that place, as already written into the
/// arena.
struct CachedBuilder {
    w: ArenaWriter,
    cache: HashMap<u64, Node>,
}

/// The node stands for what `map` makes of every place of the number `id`.
spec fn node_serves<V, M: Fn(&V) -> u64>(
    bytes: Seq<u8>,
    n: NodeView,
    t: Trie<V>,
    shares: spec_fn(Seq<u8>) -> Option<u64>,
    map: M,
    id: u64,
    u: Trie<u64>,
) -> bool {
    &&& denotes(bytes, n, u)
    &&& forall|p: Seq<u8>|
        #[trigger] shares(p) == Some(id) && t.has(p) ==> mapped(t.at(p)->Some_0, map, u)
}

spec fn cache_serves<V, M: Fn(&V) -> u64>(
    bytes: Seq<u8>,
    cache: Map<u64, Node>,
    t: Trie<V>,
    shares: spec_fn(Seq<u8>) -> Option<u64>,
    map: M,
) -> bool {
    forall|id: u64| #[trigger]
        cache.contains_key(id) ==> exists|u: Trie<u64>|
            node_serves(bytes, cache[id]@, t, shares, map, id, u)
}

proof fn lemma_cache_grows<V, M: Fn(&V) -> u64>(
    bytes: Seq<u8>,
    more: Seq<u8>,
    cache: Map<u64, Node>,
    t: Trie<V>,
    shares: spec_fn(Seq<u8>) -> Option<u64>,
    map: M,
)
    requires
        extends(bytes, more),
        cache_serves(bytes, cache, t, shares, map),
    ensures
        cache_serves(more, cache, t, shares, map),
{
    assert forall|id: u64| #[trigger] cache.contains_key(id) implies exists|u: Trie<u64>|
        node_serves(more, cache[id]@, t, shares, map, id, u) by {
        let u = choose|u: Trie<u64>| node_serves(bytes, cache[id]@, t, shares, map, id, u);
        lemma_denotes_stable(bytes, more, cache[id]@, u);
        assert(node_serves(more, cache[id]@, t, shares, map, id, u));
    }
}

impl CachedBuilder {
    /// What has been written, and the nodes that can be used again.
    spec fn shelf(&self) -> Shelf {
        Shelf { arena: self.w.arena(), nodes: self.cache@.map_values(|n: Node| n@) }
    }

    spec fn serves<V, Z: Zipper<V>, M: Fn(&V) -> u64>(&self, z: &Z, map: M) -> bool {
        &&& self.w.arena().wf()
        &&& cache_serves(self.w.arena().bytes, self.cache@, z.trie(), z.shares(), map)
    }

    /// Wrap `node` in a line node covering the `prefix` bytes directly above it.
    ///
    /// Pushing the node costs one copy of it; the line data and the children that it refers to
    /// stay shared.
    fn prefix_node(&mut self, prefix: &[u8], node: Node, Ghost(t): Ghost<Trie<u64>>) -> (r: Node)
        requires
            old(self).w.arena().wf(),
            denotes(old(self).w.arena().bytes, node@, t),
        ensures
            final(self).w.arena().wf(),
            final(self).cache@ == old(self).cache@,
            extends(old(self).w.arena().bytes, final(self).w.arena().bytes),
            is_prefix(old(self).w.arena().bytes, final(self).w.arena().bytes),
            denotes(final(self).w.arena().bytes, r@, chain(prefix@, t)),
            final(self).w.counted() == old(self).w.counted(),
            (final(self).shelf(), r@) == wrapped(old(self).shelf(), node@, prefix@),
    {
        if prefix.len() == 0 {
            return node;
        }
        let ghost a = self.w.arena();
        let path = self.w.add_path(prefix);
        let ghost a2 = self.w.arena();
        proof {
            reveal(node_wf);
            reveal(node_trie);
            crate::arena_compact::layout::lemma_add_line(a, prefix@);
            lemma_denotes_stable(a.bytes, a2.bytes, node@, t);
            lemma_push_node(a2.bytes, node@, t);
        }
        let child = self.w.push(&node);
        proof {
            let e = self.w.arena().bytes;
            lemma_extends_trans(a.bytes, a2.bytes, e);
            crate::arena_compact::layout::lemma_arena_grows(a2, e);
            lemma_line_agree(a2.bytes, e, path.0 as nat);
        }
        Node::Line(NodeLine { path, value: None, child: Some(child) })
    }

    fn cache_insert<V, Z: Zipper<V>, M: Fn(&V) -> u64>(
        &mut self,
        addr: Option<u64>,
        node: &Node,
        z: &Z,
        Ghost(map): Ghost<M>,
        Ghost(u): Ghost<Trie<u64>>,
    )
        requires
            old(self).serves::<V, Z, M>(z, map),
            z.wf(),
            z.trie().has(z.focus()),
            addr == (z.shares())(z.focus()),
            denotes(old(self).w.arena().bytes, node@, u),
            mapped(place::<V, Z>(z), map, u),
        ensures
            final(self).serves::<V, Z, M>(z, map),
            final(self).w == old(self).w,
            final(self).shelf() == old(self).shelf().keep(addr, node@),
    {
        broadcast use group_hash_axioms;

        if let Some(id) = addr {
            let ghost before = self.cache@;
            self.cache.insert(id, *node);
            proof {
                let view = |n: Node| n@;
                assert(self.cache@.map_values(view) =~= before.map_values(view).insert(id, node@));
                let bytes = self.w.arena().bytes;
                let t = z.trie();
                let shares = z.shares();
                assert forall|p: Seq<u8>| #[trigger] shares(p) == Some(id) && t.has(p) implies mapped(
                    t.at(p)->Some_0,
                    map,
                    u,
                ) by {
                    z.lemma_shares(p, z.focus());
                }
                assert(node_serves(bytes, node@, t, shares, map, id, u));
                assert forall|k: u64| #[trigger] self.cache@.contains_key(k) implies exists|
                    v: Trie<u64>,
                | node_serves(bytes, self.cache@[k]@, t, shares, map, k, v) by {
                    if k != id {
                        assert(before.contains_key(k));
                        let v = choose|v: Trie<u64>|
                            node_serves(bytes, before[k]@, t, shares, map, k, v);
                        assert(node_serves(bytes, self.cache@[k]@, t, shares, map, k, v));
                    } else {
                        assert(node_serves(bytes, self.cache@[k]@, t, shares, map, k, u));
                    }
                }
            }
        }
    }

    fn cache_get<V, Z: Zipper<V>, M: Fn(&V) -> u64>(
        &self,
        addr: Option<u64>,
        z: &Z,
        Ghost(map): Ghost<M>,
    ) -> (r: Option<(Node, Ghost<Trie<u64>>)>)
        requires
            self.serves::<V, Z, M>(z, map),
            z.wf(),
            z.trie().has(z.focus()),
            addr == (z.shares())(z.focus()),
        ensures
            r matches Some((node, u)) ==> denotes(self.w.arena().bytes, node@, u@) && mapped(
                place::<V, Z>(z),
                map,
                u@,
            ),
            self.shelf().kept(addr) == match r {
                Some((node, _)) => Some(node@),
                None => None,
            },
    {
        broadcast use group_hash_axioms;

        match addr {
            None => None,
            Some(id) => match self.cache.get(&id) {
                None => None,
                Some(node) => {
                    let ghost u = choose|u: Trie<u64>|
                        node_serves(
                            self.w.arena().bytes,
                            self.cache@[id]@,
                            z.trie(),
                            z.shares(),
                            map,
                            id,
                            u,
                        );
                    Some((*node, Ghost(u)))
                },
            },
        }
    }

    /// The node for the focus, with all that is below it in the arena.
    ///
    /// A place that the source reports under a number that has a node already is not walked
    /// again. That is asked one byte below each fork, and at each fork.
    fn build_subtree<V, Z: Zipper<V>, M: Fn(&V) -> u64>(
        &mut self,
        z: &mut Z,
        map: &M,
        below_fork: bool,
    ) -> (r: (Node, Ghost<Trie<u64>>))
        requires
            old(self).serves::<V, Z, M>(old(z), *map),
            old(z).wf(),
            old(z).trie().has(old(z).focus()),
            forall|v: &V| call_requires(*map, (v,)),
        ensures
            final(z).wf(),
            final(z).trie() == old(z).trie(),
            final(z).shares() == old(z).shares(),
            final(z).focus() == old(z).focus(),
            final(self).serves::<V, Z, M>(final(z), *map),
            extends(old(self).w.arena().bytes, final(self).w.arena().bytes),
            is_prefix(old(self).w.arena().bytes, final(self).w.arena().bytes),
            final(self).w.counted() == old(self).w.counted(),
            mapped(place::<V, Z>(old(z)), *map, r.1@),
            denotes(final(self).w.arena().bytes, r.0@, r.1@),
            (final(self).shelf(), r.0@) == shared_build(
                old(self).shelf(),
                r.1@,
                old(z).shares(),
                old(z).focus(),
                below_fork,
            ),
        decreases place::<V, Z>(old(z)),
    {
        let child_addr = if below_fork {
            z.shared_node_id()
        } else {
            None
        };
        if below_fork {
            if let Some(hit) = self.cache_get::<V, Z, M>(child_addr, z, Ghost(*map)) {
                return hit;
            }
        }
        let ghost a = self.w.arena();
        let ghost before = self.shelf();
        let prefix = descend_links::<V, Z>(z);
        let ghost here = place::<V, Z>(z);
        let ghost at = z.focus();
        let mask = z.child_mask();
        let count = mask.count_bits();
        let fork = count >= 2;
        let fork_addr = if fork {
            z.shared_node_id()
        } else {
            None
        };
        let hit = if fork {
            self.cache_get::<V, Z, M>(fork_addr, z, Ghost(*map))
        } else {
            None
        };
        let (node, Ghost(u)) = match hit {
            Some(found) => {
                let (node, u) = found;
                (self.prefix_node(prefix.as_slice(), node, u), u)
            },
            None => self.build_place(z, map, mask, fork, fork_addr, prefix.as_slice()),
        };
        proof {
            if hit is Some {
                lemma_cache_grows(
                    a.bytes,
                    self.w.arena().bytes,
                    self.cache@,
                    z.trie(),
                    z.shares(),
                    *map,
                );
            }
        }
        z.ascend(prefix.len());
        proof {
            assert(z.focus() =~= old(z).focus());
            lemma_mapped_chain(prefix@, here, *map, u);
            lemma_shared_chain(before, prefix@, u, z.shares(), z.focus(), Seq::empty());
            assert(Seq::<u8>::empty() + prefix@ =~= prefix@);
        }
        let ghost whole = chain(prefix@, u);
        if below_fork {
            self.cache_insert::<V, Z, M>(child_addr, &node, z, Ghost(*map), Ghost(whole));
        }
        (node, Ghost(whole))
    }

    /// The node for a focus that is no link, below the bytes of `prefix`.
    fn build_place<V, Z: Zipper<V>, M: Fn(&V) -> u64>(
        &mut self,
        z: &mut Z,
        map: &M,
        mask: ByteMask,
        fork: bool,
        fork_addr: Option<u64>,
        prefix: &[u8],
    ) -> (r: (Node, Ghost<Trie<u64>>))
        requires
            old(self).serves::<V, Z, M>(old(z), *map),
            old(z).wf(),
            old(z).trie().has(old(z).focus()),
            forall|v: &V| call_requires(*map, (v,)),
            !place::<V, Z>(old(z)).is_link(),
            mask@ == place::<V, Z>(old(z)).kids.dom(),
            fork ==> fork_addr == (old(z).shares())(old(z).focus()),
            !fork ==> fork_addr is None,
            fork == (rank(mask@, 256) >= 2),
            old(self).shelf().kept(fork_addr) is None,
        ensures
            final(z).wf(),
            final(z).trie() == old(z).trie(),
            final(z).shares() == old(z).shares(),
            final(z).focus() == old(z).focus(),
            final(self).serves::<V, Z, M>(final(z), *map),
            extends(old(self).w.arena().bytes, final(self).w.arena().bytes),
            is_prefix(old(self).w.arena().bytes, final(self).w.arena().bytes),
            final(self).w.counted() == old(self).w.counted(),
            mapped(place::<V, Z>(old(z)), *map, r.1@),
            denotes(final(self).w.arena().bytes, r.0@, chain(prefix@, r.1@)),
            (final(self).shelf(), r.0@) == shared_line(
                old(self).shelf(),
                r.1@,
                old(z).shares(),
                old(z).focus(),
                prefix@,
            ),
        decreases place::<V, Z>(old(z)), 0nat,
    {
        let ghost a = self.w.arena();
        let ghost start = self.shelf();
        let ghost here = place::<V, Z>(z);
        let ghost at = z.focus();
        let value = match z.val() {
            Some(v) => Some(map(v)),
            None => None,
        };
        let bytes = mask.to_vec();
        let mut children: Vec<Node> = Vec::new();
        let mut i: usize = 0;
        let ghost mut kids: Map<u8, Trie<u64>> = Map::empty();
        proof {
            self.w.lemma_len();
            lemma_members(mask@);
            if bytes@.len() > 0 {
                assert forall|b: u8| #[trigger] mask@.contains(b) implies b >= members(mask@)[0] by {
                    assert(members(mask@)[rank(mask@, b as nat) as int] == b);
                }
                assert(kids.dom() =~= mask@.filter(|b: u8| b < members(mask@)[0]));
            } else {
                lemma_rank_is_len(mask@);
                assert(kids.dom() =~= mask@);
            }
            lemma_shared_kids_gap(
                start,
                Trie { val: value, kids },
                z.shares(),
                at,
                fork,
                0,
                256,
            );
            assert(node_views(children@) =~= Seq::<NodeView>::empty());
        }
        while i < bytes.len()
            invariant
                i <= bytes@.len(),
                bytes@ == members(mask@),
                mask@ == here.kids.dom(),
                z.wf(),
                z.trie() == old(z).trie(),
                z.shares() == old(z).shares(),
                z.focus() == at,
                z.trie().at(at) == Some(here),
                here == place::<V, Z>(old(z)),
                forall|v: &V| call_requires(*map, (v,)),
                self.serves::<V, Z, M>(z, *map),
                extends(a.bytes, self.w.arena().bytes),
                is_prefix(a.bytes, self.w.arena().bytes),
                self.w.counted() == old(self).w.counted(),
                kids.dom() =~= if i < bytes@.len() {
                    mask@.filter(|b: u8| b < members(mask@)[i as int])
                } else {
                    mask@
                },
                forall|b: u8| #[trigger]
                    kids.contains_key(b) ==> mapped(here.kids[b], *map, kids[b]),
                children@.len() == i,
                forall|j: int|
                    0 <= j < i ==> kids.contains_key(members(mask@)[j]) && denotes(
                        self.w.arena().bytes,
                        (#[trigger] children@[j])@,
                        kids[members(mask@)[j]],
                    ),
                (self.shelf(), node_views(children@)) == shared_kids(
                    start,
                    Trie { val: value, kids },
                    z.shares(),
                    at,
                    fork,
                    256,
                ),
            decreases bytes@.len() - i,
        {
            let byte = bytes[i];
            proof {
                lemma_members(mask@);
                assert(mask@.contains(byte));
                lemma_at_push(z.trie(), at, byte);
            }
            let ghost before = self.w.arena().bytes;
            z.descend_to_byte(byte);
            let (child, Ghost(kid)) = self.build_subtree(z, map, fork);
            z.ascend(1);
            proof {
                let after = self.w.arena().bytes;
                assert(z.focus() =~= at);
                lemma_kids_step(a, mask@, i as int, kids, value, kid);
                lemma_shared_kids_step(
                    start,
                    mask@,
                    i as int,
                    kids,
                    value,
                    kid,
                    z.shares(),
                    at,
                    fork,
                );
                assert forall|j: int| 0 <= j < i implies kids.insert(byte, kid).contains_key(
                    members(mask@)[j],
                ) && denotes(
                    after,
                    (#[trigger] children@[j])@,
                    kids.insert(byte, kid)[members(mask@)[j]],
                ) by {
                    assert(members(mask@)[j] < members(mask@)[i as int]);
                    lemma_denotes_stable(before, after, children@[j]@, kids[members(mask@)[j]]);
                }
                kids = kids.insert(byte, kid);
                assert(node_views(children@.push(child)) =~= node_views(children@).push(child@));
                lemma_extends_trans(a.bytes, before, after);
            }
            children.push(child);
            i = i + 1;
        }
        let ghost u = Trie { val: value, kids };
        let ghost a1 = self.w.arena();
        let ghost s1 = self.shelf();
        let ghost cache = self.cache@;
        proof {
            lemma_members(mask@);
            assert(rank(mask@, 256) == children@.len());
            assert forall|j: int| 0 <= j < children@.len() implies node_wf(
                a1.bytes,
                (#[trigger] children@[j])@,
                a1.bytes.len(),
            ) by {}
            assert forall|b: u8| #[trigger] mask@.contains(b) implies denotes(
                a1.bytes,
                node_views(children@)[rank(mask@, b as nat) as int],
                kids[b],
            ) by {
                let j = rank(mask@, b as nat) as int;
                assert(members(mask@)[j] == b);
                assert(node_views(children@)[j] == children@[j]@);
            }
            assert(mapped(here, *map, u));
            assert(!u.is_link());
        }
        if fork_addr.is_some() && prefix.len() > 0 && children.len() > 0 {
            // Build the node for the focus on its own, so it can be handed out again elsewhere,
            // then wrap it in the line separately.
            let node = self.w.make_node(mask, &children, &[], value);
            proof {
                let a2 = self.w.arena();
                let none = Seq::<u8>::empty();
                lemma_make_node(a1, mask@, node_views(children@), none, u);
                lemma_make_node_grows(a1, mask@, node_views(children@), none, value);
                lemma_extends_trans(a.bytes, a1.bytes, a2.bytes);
                lemma_cache_grows(a1.bytes, a2.bytes, cache, z.trie(), z.shares(), *map);
            }
            self.cache_insert::<V, Z, M>(fork_addr, &node, z, Ghost(*map), Ghost(u));
            let ghost a3 = self.w.arena();
            let ghost cache3 = self.cache@;
            let r = self.prefix_node(prefix, node, Ghost(u));
            proof {
                lemma_extends_trans(a.bytes, a3.bytes, self.w.arena().bytes);
                lemma_cache_grows(
                    a3.bytes,
                    self.w.arena().bytes,
                    cache3,
                    z.trie(),
                    z.shares(),
                    *map,
                );
            }
            (r, Ghost(u))
        } else {
            let node = self.w.make_node(mask, &children, prefix, value);
            proof {
                let a2 = self.w.arena();
                lemma_make_node(a1, mask@, node_views(children@), prefix@, u);
                lemma_make_node_grows(a1, mask@, node_views(children@), prefix@, value);
                lemma_extends_trans(a.bytes, a1.bytes, a2.bytes);
                lemma_cache_grows(a1.bytes, a2.bytes, cache, z.trie(), z.shares(), *map);
            }
            if prefix.len() == 0 && fork {
                self.cache_insert::<V, Z, M>(fork_addr, &node, z, Ghost(*map), Ghost(u));
            }
            (node, Ghost(u))
        }
    }
}

impl ArenaCompactTree<Vec<u8>> {
    /// Construct [ArenaCompactTree] from a read zipper, re-using the subtries that are
    /// structurally shared in the source trie.
    ///
    /// Whenever the source zipper reports the same number for two places, the arena bytes below
    /// that place are written only once, and the second occurrence points back at them. For a
    /// trie in which no two places have the same number this gives the same bytes as [`Self::from_zipper`].
    pub fn from_zipper_cached<V, Z: Zipper<V>, M: Fn(&V) -> u64>(zipper: Z, map: M) -> (r: ACTVec)
        requires
            zipper.wf(),
            forall|v: &V| call_requires(map, (v,)),
        ensures
            r.wf(),
            history_wf(r.bytes()),
            mapped(zipper.trie(), map, r.view()),
            roots_of(r.bytes()) == seq![root_of(r.bytes())],
            r.bytes() == shared_layout(r.view(), zipper.shares()),
            unshared(zipper.trie(), zipper.shares()) ==> r.bytes() == layout(r.view()),
            r.counters_view() == Counters::zero(),
    {
        broadcast use group_hash_axioms;

        let mut z = zipper;
        z.reset();
        let mut b = CachedBuilder { w: ArenaWriter::new(), cache: HashMap::new() };
        proof {
            assert(z.trie().at(Seq::empty()) == Some(z.trie()));
            assert(Arena::start().wf());
            assert(Arena::start().bytes.subrange(0, 8) =~= magic());
        }
        proof {
            assert(b.shelf() =~= Shelf::start());
        }
        let (root, Ghost(u)) = b.build_subtree(&mut z, &map, false);
        proof {
            if unshared(zipper.trie(), zipper.shares()) {
                assert forall|p: Seq<u8>| u.has(p) implies zipper.trie().has(p) by {
                    lemma_mapped_at(zipper.trie(), map, u, p);
                }
                lemma_unshared_layout(u, zipper.shares());
            }
        }
        let ghost a = b.w.arena();
        proof {
            reveal(node_wf);
            assert(a.bytes.subrange(0, 8) =~= Arena::start().bytes.subrange(0, 8));
            b.w.lemma_len();
            lemma_push_node(a.bytes, root@, u);
        }
        let r = b.w.finish(&root);
        proof {
            let d = push_node(a.bytes, root@);
            lemma_with_root(d, a.bytes.len(), zeros(8));
            assert(r.bytes().subrange(r.bytes().len() - 8, r.bytes().len() as int) =~= zeros(8));
            lemma_no_trailer(r.bytes());
            assert(roots_of(r.bytes()) =~= seq![root_of(r.bytes())]);
        }
        r
    }
}

} // verus!

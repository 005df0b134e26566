//! Building a compact trie from a zipper.

use vstd::prelude::*;

use crate::arena_compact::counters::Counters;
use crate::arena_compact::file::{history_wf, lemma_layout};
use crate::arena_compact::layout::{
    build, build_kids, denotes, layout, lemma_build, lemma_build_chain, lemma_build_grows,
    lemma_build_kids, lemma_build_kids_agree, lemma_build_kids_gap, magic, make_node, Arena,
};
use crate::arena_compact::meaning::{extends, node_wf};
use crate::arena_compact::node::{Node, NodeView};
use crate::arena_compact::tree::{ACTVec, ArenaCompactTree};
use crate::arena_compact::writer::{node_views, ArenaWriter};
use crate::mapped::{lemma_mapped_chain, mapped};
use crate::trie::{chain, lemma_at_push, lemma_chain_concat, lemma_link, Trie};
use crate::utils::bits::{lemma_members, lemma_rank_is_len, members, rank};
use crate::utils::byte_mask::BitMask;
use crate::zipper::Zipper;

verus! {

/// The place at the focus.
pub open spec fn place<V, Z: Zipper<V>>(z: &Z) -> Trie<V> {
    z.trie().at(z.focus())->Some_0
}

/// Moves down over bytes that lead on without a choice and without a value, and returns them.
pub(crate) fn descend_links<V, Z: Zipper<V>>(z: &mut Z) -> (prefix: Vec<u8>)
    requires
        old(z).wf(),
        old(z).trie().has(old(z).focus()),
    ensures
        final(z).wf(),
        final(z).trie() == old(z).trie(),
        final(z).shares() == old(z).shares(),
        final(z).focus() == old(z).focus() + prefix@,
        final(z).trie().has(final(z).focus()),
        place::<V, Z>(old(z)) == chain(prefix@, place::<V, Z>(final(z))),
        !place::<V, Z>(final(z)).is_link(),
        place::<V, Z>(old(z)) == place::<V, Z>(final(z)) || decreases_to!(place::<V, Z>(old(z)) => place::<V, Z>(final(z))),
{
    let ghost top = place::<V, Z>(z);
    let mut prefix: Vec<u8> = Vec::new();
    assert(old(z).focus() + prefix@ =~= old(z).focus());
    loop
        invariant
            z.wf(),
            z.trie() == old(z).trie(),
            z.shares() == old(z).shares(),
            z.focus() == old(z).focus() + prefix@,
            z.trie().has(z.focus()),
            top == place::<V, Z>(old(z)),
            top == chain(prefix@, place::<V, Z>(z)),
            top == place::<V, Z>(z) || decreases_to!(top => place::<V, Z>(z)),
        decreases place::<V, Z>(z),
    {
        let ghost here = place::<V, Z>(z);
        let mask = z.child_mask();
        let single = mask.count_bits() == 1;
        let linked = single && z.val().is_none();
        proof {
            lemma_members(mask@);
            if single {
                let b = members(mask@)[0];
                assert forall|c: u8| mask@.contains(c) == Set::<u8>::empty().insert(b).contains(
                    c,
                ) by {
                    if mask@.contains(c) {
                        assert(members(mask@)[rank(mask@, c as nat) as int] == c);
                    }
                }
                assert(mask@ =~= Set::<u8>::empty().insert(b));
            }
            if here.is_link() {
                lemma_link(here);
                lemma_rank_is_len(mask@);
                assert(mask@.len() == 1);
            }
        }
        if !linked {
            return prefix;
        }
        let byte = mask.indexed_bit::<true>(0).unwrap();
        proof {
            assert(here.is_link());
            lemma_link(here);
            assert(Set::<u8>::empty().insert(here.link_byte()).contains(byte));
            lemma_at_push(z.trie(), z.focus(), byte);
            lemma_chain_concat(prefix@, seq![byte], here.kids[byte]);
            assert(prefix@ + seq![byte] =~= prefix@.push(byte));
        }
        z.descend_to_byte(byte);
        prefix.push(byte);
        assert(z.focus() =~= old(z).focus() + prefix@);
    }
}

/// Once the nodes for the children with bytes below that of rank `i` are built, so are those for
/// the bytes in the gap up to it.
pub(crate) proof fn lemma_kids_step(
    a: Arena,
    mask: Set<u8>,
    i: int,
    kids: Map<u8, Trie<u64>>,
    val: Option<u64>,
    kid: Trie<u64>,
)
    requires
        0 <= i < members(mask).len(),
        kids.dom() =~= mask.filter(|b: u8| b < members(mask)[i]),
    ensures
        ({
            let byte = members(mask)[i];
            let next = kids.insert(byte, kid);
            let before = build_kids(a, Trie { val, kids }, 256);
            let (a2, c) = build(before.0, kid, Seq::empty());
            &&& build_kids(a, Trie { val, kids: next }, 256) == (a2, before.1.push(c))
            &&& next.dom() =~= if i + 1 < members(mask).len() {
                mask.filter(|b: u8| b < members(mask)[i + 1])
            } else {
                mask
            }
        }),
{
    lemma_members(mask);
    let byte = members(mask)[i];
    let next = kids.insert(byte, kid);
    let t = Trie { val, kids };
    let u = Trie { val, kids: next };
    lemma_build_kids_gap(a, t, byte as nat, 256);
    lemma_build_kids_agree(a, t, u, byte as nat);
    assert(u.kids.contains_key(byte));
    lemma_build_kids_gap(a, u, (byte + 1) as nat, 256);
    assert forall|b: u8| #[trigger] next.dom().contains(b) == (if i + 1 < members(mask).len() {
        mask.filter(|b: u8| b < members(mask)[i + 1])
    } else {
        mask
    }).contains(b) by {
        if mask.contains(b) {
            let k = rank(mask, b as nat) as int;
            assert(members(mask)[k] == b);
            if k > i + 1 {
                assert(members(mask)[i + 1] < members(mask)[k]);
            } else if k < i {
                assert(members(mask)[k] < members(mask)[i]);
            }
        }
    }
}

/// Writes all that is below the focus, and returns the node for it.
fn build_subtree<V, Z: Zipper<V>, M: Fn(&V) -> u64>(w: &mut ArenaWriter, z: &mut Z, map: &M) -> (r:
    (Node, Ghost<Trie<u64>>))
    requires
        old(w).arena().wf(),
        old(z).wf(),
        old(z).trie().has(old(z).focus()),
        forall|v: &V| call_requires(*map, (v,)),
    ensures
        final(z).wf(),
        final(z).trie() == old(z).trie(),
        final(z).shares() == old(z).shares(),
        final(z).focus() == old(z).focus(),
        mapped(place::<V, Z>(old(z)), *map, r.1@),
        (final(w).arena(), r.0@) == build(old(w).arena(), r.1@, Seq::empty()),
        final(w).arena().wf(),
        extends(old(w).arena().bytes, final(w).arena().bytes),
        final(w).arena().bytes.len() <= u64::MAX,
        final(w).counted() == old(w).counted(),
        denotes(final(w).arena().bytes, r.0@, r.1@),
    decreases place::<V, Z>(old(z)),
{
    let ghost a = w.arena();
    let ghost top = place::<V, Z>(z);
    let prefix = descend_links::<V, Z>(z);
    let ghost here = place::<V, Z>(z);
    let ghost at = z.focus();
    let mask = z.child_mask();
    let value = match z.val() {
        Some(v) => Some(map(v)),
        None => None,
    };
    let bytes = mask.to_vec();
    let mut children: Vec<Node> = Vec::new();
    let mut i: usize = 0;
    let ghost mut kids: Map<u8, Trie<u64>> = Map::empty();
    proof {
        w.lemma_len();
        lemma_members(mask@);
        if bytes@.len() > 0 {
            assert forall|b: u8| #[trigger] mask@.contains(b) implies b >= members(mask@)[0] by {
                assert(members(mask@)[rank(mask@, b as nat) as int] == b);
            }
            assert(kids.dom() =~= mask@.filter(|b: u8| b < members(mask@)[0]));
        } else {
            lemma_rank_is_len(mask@);
            assert(kids.dom() =~= mask@);
        }
        lemma_build_kids_gap(a, Trie { val: value, kids }, 0, 256);
        assert(node_views(children@) =~= Seq::<NodeView>::empty());
    }
    while i < bytes.len()
        invariant
            i <= bytes@.len(),
            bytes@ == members(mask@),
            mask@ == here.kids.dom(),
            z.wf(),
            z.trie() == old(z).trie(),
            z.shares() == old(z).shares(),
            z.focus() == at,
            z.trie().at(at) == Some(here),
            top == here || decreases_to!(top => here),
            top == place::<V, Z>(old(z)),
            forall|v: &V| call_requires(*map, (v,)),
            a.wf(),
            w.arena().wf(),
            extends(a.bytes, w.arena().bytes),
            w.arena().bytes.len() <= u64::MAX,
            w.counted() == old(w).counted(),
            kids.dom() =~= if i < bytes@.len() {
                mask@.filter(|b: u8| b < members(mask@)[i as int])
            } else {
                mask@
            },
            forall|b: u8| #[trigger]
                kids.contains_key(b) ==> mapped(here.kids[b], *map, kids[b]),
            (w.arena(), node_views(children@)) == build_kids(a, Trie { val: value, kids }, 256),
            children@.len() == i,
        decreases bytes@.len() - i,
    {
        let byte = bytes[i];
        proof {
            lemma_members(mask@);
            assert(mask@.contains(byte));
            lemma_at_push(z.trie(), at, byte);
        }
        let ghost before = w.arena();
        z.descend_to_byte(byte);
        let (child, Ghost(kid)) = build_subtree(w, z, map);
        z.ascend(1);
        proof {
            assert(z.focus() =~= at);
            lemma_kids_step(a, mask@, i as int, kids, value, kid);
            kids = kids.insert(byte, kid);
            assert(node_views(children@.push(child)) =~= node_views(children@).push(child@));
            crate::arena_compact::meaning::lemma_extends_trans(
                a.bytes,
                before.bytes,
                w.arena().bytes,
            );
        }
        children.push(child);
        i = i + 1;
    }
    let ghost u = Trie { val: value, kids };
    proof {
        lemma_build_kids(a, u, 256);
        assert(rank(mask@, 256) == children@.len());
        assert forall|j: int| 0 <= j < children@.len() implies node_wf(
            w.arena().bytes,
            (#[trigger] children@[j])@,
            w.arena().bytes.len(),
        ) by {
            lemma_members(mask@);
            let b = members(mask@)[j];
            assert(u.kids.dom().contains(b));
            assert(node_views(children@)[j] == children@[j]@);
        }
    }
    let node = w.make_node(mask, &children, prefix.as_slice(), value);
    z.ascend(prefix.len());
    proof {
        assert(z.focus() =~= old(z).focus());
        assert(mapped(here, *map, u));
        lemma_mapped_chain(prefix@, here, *map, u);
        lemma_build_chain(a, prefix@, u, Seq::empty());
        assert(Seq::<u8>::empty() + prefix@ =~= prefix@);
        assert(!u.is_link());
        assert((w.arena(), node@) == build(a, u, prefix@));
        lemma_build(a, u, prefix@);
    }
    (node, Ghost(chain(prefix@, u)))
}

impl ArenaCompactTree<Vec<u8>> {
    /// Construct [ArenaCompactTree] from a read zipper.
    ///
    /// The file is the one that the layout prescribes for the trie below the zipper's root, with
    /// each value mapped to an integer.
    pub fn from_zipper<V, Z: Zipper<V>, M: Fn(&V) -> u64>(zipper: Z, map: M) -> (r: ACTVec)
        requires
            zipper.wf(),
            forall|v: &V| call_requires(map, (v,)),
        ensures
            r.wf(),
            history_wf(r.bytes()),
            mapped(zipper.trie(), map, r.view()),
            r.bytes() == layout(r.view()),
            r.counters_view() == Counters::zero(),
    {
        let mut z = zipper;
        z.reset();
        let mut w = ArenaWriter::new();
        proof {
            assert(z.trie().at(Seq::empty()) == Some(z.trie()));
            assert(Arena::start().wf());
            assert(Arena::start().bytes.subrange(0, 8) =~= magic());
        }
        let (root, Ghost(u)) = build_subtree(&mut w, &mut z, &map);
        proof {
            reveal(node_wf);
            lemma_build_grows(Arena::start(), u, Seq::empty());
            assert(w.arena().bytes.subrange(0, 8) =~= Arena::start().bytes.subrange(0, 8));
        }
        let r = w.finish(&root);
        proof {
            assert(r.bytes() == layout(u));
            lemma_layout(u);
        }
        r
    }
}

} // verus!

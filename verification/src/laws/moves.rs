//! How the moves of a zipper go together.

use vstd::prelude::*;

use crate::arena_compact::act_iter::any_place;
use crate::arena_compact::act_moves::{is_sibling_move, sibling_path};
use crate::arena_compact::act_zipper::{is_neighbour, ACTZipper};
use crate::arena_compact::tree::Storage;
use crate::harness::trace::in_order;
use crate::slices::begins_with;
use crate::trie::Trie;
use crate::trie_order::{is_next, lemma_less_irreflexive, lemma_less_total, less, picked};
use crate::trie_walk::{kids_of, lemma_look_push, look};
use crate::zipper::up;

verus! {

/// Going up by as many bytes as a zipper went down leads back to where it was.
pub proof fn law_ascend_undoes_descend<S: Storage, Value>(
    a: &ACTZipper<S, Value>,
    b: &ACTZipper<S, Value>,
    c: &ACTZipper<S, Value>,
    path: Seq<u8>,
)
    requires
        b.moved(a, a.rel() + path),
        c.moved(b, up(b.rel(), path.len() as int)),
    ensures
        c.moved(a, a.rel()),
        c.here() == a.here(),
{
    assert(up(a.rel() + path, path.len() as int) =~= a.rel());
}

/// From a place that exists, the sibling before the next sibling is the place itself.
pub proof fn law_siblings_undo_each_other(
    r: Option<Trie<u64>>,
    rel: Seq<u8>,
    next: bool,
    there: u8,
    back: Option<u8>,
)
    requires
        look(r, rel) is Some,
        is_sibling_move(r, rel, next, Some(there)),
        is_sibling_move(r, sibling_path(rel, Some(there)), !next, back),
    ensures
        back == Some(rel.last()),
        sibling_path(sibling_path(rel, Some(there)), back) == rel,
{
    let above = up(rel, 1);
    let other = sibling_path(rel, Some(there));
    let kids = kids_of(look(r, above));
    assert(up(other, 1) =~= above);
    assert(other.last() == there);
    assert(above.push(rel.last()) =~= rel);
    lemma_look_push(r, above, rel.last());
    assert(kids.contains(rel.last()));
    assert(is_neighbour(kids, rel.last(), next, Some(there)));
    assert(is_neighbour(kids, there, !next, back));
    match back {
        None => {},
        Some(c) => {
            assert(kids.contains(c));
        },
    }
}

/// The places that a zipper visits step by step from its root on, until there is no next, are all
/// the places there are.
pub proof fn law_steps_visit_every_place(root: Option<Trie<u64>>, l: Seq<Seq<u8>>, x: Seq<u8>)
    requires
        in_order(root, l),
        is_next(root, Seq::empty(), l.last(), any_place(), None),
        look(root, x) is Some,
    ensures
        l.contains(x),
{
    if !l.contains(x) {
        lemma_all_before(root, l, x, l.len() - 1);
        lemma_picked(root, l.last(), x);
    }
}

/// No place is visited twice.
pub proof fn law_steps_visit_no_place_twice(root: Option<Trie<u64>>, l: Seq<Seq<u8>>, i: int, j: int)
    requires
        in_order(root, l),
        0 <= i < j < l.len(),
    ensures
        l[i] != l[j],
{
    lemma_ascending(root, l, i, j);
    lemma_less_irreflexive(l[i]);
}

proof fn lemma_ascending(root: Option<Trie<u64>>, l: Seq<Seq<u8>>, i: int, j: int)
    requires
        in_order(root, l),
        0 <= i < j < l.len(),
    ensures
        less(l[i], l[j]),
    decreases j - i,
{
    let k = j - 1;
    assert(is_next(root, Seq::empty(), l[k], any_place(), Some(l[j])));
    assert(picked(root, Seq::empty(), l[k], any_place(), l[j]));
    if i < k {
        lemma_ascending(root, l, i, k);
        crate::trie_order::lemma_less_transitive(l[i], l[k], l[j]);
    }
}

proof fn lemma_picked(root: Option<Trie<u64>>, p: Seq<u8>, x: Seq<u8>)
    requires
        less(p, x),
        look(root, x) is Some,
    ensures
        picked(root, Seq::empty(), p, any_place(), x),
{
    assert(x.subrange(0, 0) =~= Seq::<u8>::empty());
    assert(begins_with(x, Seq::empty()));
}

/// A place that is not visited comes after those that are.
proof fn lemma_all_before(root: Option<Trie<u64>>, l: Seq<Seq<u8>>, x: Seq<u8>, i: int)
    requires
        in_order(root, l),
        look(root, x) is Some,
        !l.contains(x),
        0 <= i < l.len(),
    ensures
        less(l[i], x),
    decreases i,
{
    assert(l.contains(l[i]));
    lemma_less_total(l[i], x);
    if i == 0 {
        assert(crate::slices::overlap(l[0], x) == 0);
        if x.len() == 0 {
            assert(x =~= l[0]);
        }
    } else {
        let k = i - 1;
        lemma_all_before(root, l, x, k);
        assert(is_next(root, Seq::empty(), l[k], any_place(), Some(l[i])));
        lemma_picked(root, l[k], x);
    }
}

} // verus!

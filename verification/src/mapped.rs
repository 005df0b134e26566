//! Tries that have the same paths and other values.

use vstd::prelude::*;

use crate::trie::{chain, Trie};

verus! {

/// `u` has the places of `t`, and for each value of `t` what `map` may give for it.
pub open spec fn mapped<V, M: Fn(&V) -> u64>(t: Trie<V>, map: M, u: Trie<u64>) -> bool
    decreases t,
{
    &&& match t.val {
        Some(v) => u.val matches Some(w) && call_ensures(map, (&v,), w),
        None => u.val is None,
    }
    &&& u.kids.dom() == t.kids.dom()
    &&& forall|b: u8| #[trigger]
        t.kids.contains_key(b) ==> mapped(t.kids[b], map, u.kids[b])
}

pub proof fn lemma_mapped_chain<V, M: Fn(&V) -> u64>(
    line: Seq<u8>,
    t: Trie<V>,
    map: M,
    u: Trie<u64>,
)
    requires
        mapped(t, map, u),
    ensures
        mapped(chain(line, t), map, chain(line, u)),
    decreases line.len(),
{
    if line.len() > 0 {
        lemma_mapped_chain(line.drop_first(), t, map, u);
        let a = chain(line, t);
        let b = chain(line, u);
        assert(a.kids.dom() =~= b.kids.dom());
    }
}

/// A map that gives each value back leaves the trie as it is.
pub proof fn lemma_mapped_identity<M: Fn(&u64) -> u64>(t: Trie<u64>, map: M, u: Trie<u64>)
    requires
        mapped(t, map, u),
        forall|v: u64, w: u64| call_ensures(map, (&v,), w) ==> v == w,
    ensures
        u == t,
    decreases t,
{
    assert forall|b: u8| t.kids.contains_key(b) implies u.kids[b] == t.kids[b] by {
        lemma_mapped_identity(t.kids[b], map, u.kids[b]);
    }
    assert(u.kids =~= t.kids);
}

/// A path leads on in the mapped trie where it leads on in the other, to the mapped place.
pub proof fn lemma_mapped_at<V, M: Fn(&V) -> u64>(t: Trie<V>, map: M, u: Trie<u64>, p: Seq<u8>)
    requires
        mapped(t, map, u),
    ensures
        u.has(p) == t.has(p),
        t.has(p) ==> mapped(t.at(p)->Some_0, map, u.at(p)->Some_0),
    decreases p.len(),
{
    if p.len() > 0 && t.kids.contains_key(p[0]) {
        assert(u.kids.dom().contains(p[0]));
        lemma_mapped_at(t.kids[p[0]], map, u.kids[p[0]], p.drop_first());
    }
}

} // verus!

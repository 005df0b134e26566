//! What a fold depends on.

use vstd::prelude::*;

use crate::arena_compact::act_zipper::ACTZipper;
use crate::arena_compact::tree::Storage;
use crate::morphisms::{
    folded, holds, masks, outcome, passed_on, some_thing, summary, Algebra, CatamorphismDebug, Site,
};
use crate::path_map::map::PathMap;
use crate::path_map::map_zipper::ReadZipper;
use crate::trie::{lemma_at_concat, Trie};
use crate::utils::bits::members;
use crate::utils::byte_mask::ByteMask;
use crate::zipper::Zipper;

verus! {

/// The functions give one result for the same arguments, whatever path they are told, and a clone
/// is as good as what it was made from.
pub open spec fn ignores_paths<
    V,
    Acc,
    W: Clone,
    E,
    N: Fn(&ByteMask) -> Result<Acc, E>,
    F: Fn(&ByteMask, W, Acc) -> Result<Acc, E>,
    M: Fn(&V, &[u8], &[u8]) -> Result<W, E>,
    S: Fn(&ByteMask, Option<Acc>, &[u8], &[u8]) -> Result<W, E>,
    C: Fn(&V, W, &[u8]) -> Result<W, E>,
>(a: &Algebra<N, F, M, S, C>) -> bool {
    &&& forall|m: &ByteMask, n: &ByteMask, r: Result<Acc, E>, s: Result<Acc, E>|
        m@ == n@ && #[trigger] call_ensures(a.new_acc, (m,), r) && #[trigger] call_ensures(
            a.new_acc,
            (n,),
            s,
        ) ==> r == s
    &&& forall|m: &ByteMask, n: &ByteMask, w: W, acc: Acc, r: Result<Acc, E>, s: Result<Acc, E>|
        m@ == n@ && #[trigger] call_ensures(a.fold_child, (m, w, acc), r)
            && #[trigger] call_ensures(a.fold_child, (n, w, acc), s) ==> r == s
    &&& forall|
        v: &V,
        p: &[u8],
        q: &[u8],
        p2: &[u8],
        q2: &[u8],
        r: Result<W, E>,
        s: Result<W, E>,
    |
        p@ == p2@ && #[trigger] call_ensures(a.map, (v, p, q), r) && #[trigger] call_ensures(
            a.map,
            (v, p2, q2),
            s,
        ) ==> r == s
    &&& forall|
        m: &ByteMask,
        n: &ByteMask,
        acc: Option<Acc>,
        p: &[u8],
        q: &[u8],
        p2: &[u8],
        q2: &[u8],
        r: Result<W, E>,
        s: Result<W, E>,
    |
        m@ == n@ && p@ == p2@ && #[trigger] call_ensures(a.summarize, (m, acc, p, q), r)
            && #[trigger] call_ensures(a.summarize, (n, acc, p2, q2), s) ==> r == s
    &&& forall|v: &V, w: W, q: &[u8], q2: &[u8], r: Result<W, E>, s: Result<W, E>| #[trigger]
        call_ensures(a.collapse, (v, w, q), r) && #[trigger] call_ensures(a.collapse, (v, w, q2), s)
            ==> r == s
    &&& forall|w: W, x: W| #[trigger] cloned(w, x) ==> w == x
}

/// There is one result for a trie, whichever of its places are shared and wherever it is, for
/// functions that ignore the path they are told.
pub proof fn law_fold_has_one_result<
    V,
    Acc,
    W: Clone,
    E,
    N: Fn(&ByteMask) -> Result<Acc, E>,
    F: Fn(&ByteMask, W, Acc) -> Result<Acc, E>,
    M: Fn(&V, &[u8], &[u8]) -> Result<W, E>,
    S: Fn(&ByteMask, Option<Acc>, &[u8], &[u8]) -> Result<W, E>,
    C: Fn(&V, W, &[u8]) -> Result<W, E>,
>(
    site: Site<V>,
    p: Seq<u8>,
    other: Site<V>,
    p2: Seq<u8>,
    t: Trie<V>,
    prefix: Seq<u8>,
    a: &Algebra<N, F, M, S, C>,
    r: Result<W, E>,
    s: Result<W, E>,
)
    requires
        ignores_paths::<V, Acc, W, E, N, F, M, S, C>(a),
        outcome(site, p, t, prefix, a, r),
        outcome(other, p2, t, prefix, a, s),
    ensures
        r == s,
    decreases t, members(t.kids.dom()).len() + 2,
{
    if t.is_link() {
        let b = t.link_byte();
        law_fold_has_one_result(
            site,
            p.push(b),
            other,
            p2.push(b),
            t.kids[b],
            prefix.push(b),
            a,
            r,
            s,
        );
    } else if t.kids.dom() == Set::<u8>::empty() && t.val is Some {
    } else {
        let x = choose|x: Result<W, E>| #[trigger]
            some_thing(x) && summary(site, p, t, prefix, a, x) && match (t.val, x) {
                (Some(v), Ok(w)) => exists|q: &[u8]| #[trigger]
                    holds(q, site.base + p) && call_ensures(a.collapse, (&v, w, q), r),
                _ => r == x,
            };
        let y = choose|y: Result<W, E>| #[trigger]
            some_thing(y) && summary(other, p2, t, prefix, a, y) && match (t.val, y) {
                (Some(v), Ok(w)) => exists|q: &[u8]| #[trigger]
                    holds(q, other.base + p2) && call_ensures(
                        a.collapse,
                        (&v, w, q),
                        s,
                    ),
                _ => s == y,
            };
        lemma_one_summary(site, p, other, p2, t, prefix, a, x, y);
    }
}

proof fn lemma_one_summary<
    V,
    Acc,
    W: Clone,
    E,
    N: Fn(&ByteMask) -> Result<Acc, E>,
    F: Fn(&ByteMask, W, Acc) -> Result<Acc, E>,
    M: Fn(&V, &[u8], &[u8]) -> Result<W, E>,
    S: Fn(&ByteMask, Option<Acc>, &[u8], &[u8]) -> Result<W, E>,
    C: Fn(&V, W, &[u8]) -> Result<W, E>,
>(
    site: Site<V>,
    p: Seq<u8>,
    other: Site<V>,
    p2: Seq<u8>,
    t: Trie<V>,
    prefix: Seq<u8>,
    a: &Algebra<N, F, M, S, C>,
    r: Result<W, E>,
    s: Result<W, E>,
)
    requires
        ignores_paths::<V, Acc, W, E, N, F, M, S, C>(a),
        summary(site, p, t, prefix, a, r),
        summary(other, p2, t, prefix, a, s),
    ensures
        r == s,
    decreases t, members(t.kids.dom()).len() + 1,
{
    let kids = t.kids.dom();
    let n = members(kids).len();
    if kids != Set::<u8>::empty() {
        let (m, l, q) = choose|m: ByteMask, l: &[u8], q: &[u8]| #[trigger]
            masks(m, kids) && #[trigger] holds(l, prefix) && #[trigger] holds(q, site.base + p)
                && exists|acc: Result<Acc, E>| #[trigger]
                some_thing(acc) && folded(site, p, t, n, a, acc) && match acc {
                    Ok(acc) => call_ensures(a.summarize, (&m, Some(acc), l, q), r),
                    Err(e) => r == Err::<W, E>(e),
                };
        let (m2, l2, q2) = choose|m: ByteMask, l: &[u8], q: &[u8]| #[trigger]
            masks(m, kids) && #[trigger] holds(l, prefix) && #[trigger] holds(q, other.base + p2) && exists|acc: Result<Acc, E>| #[trigger]
                some_thing(acc) && folded(other, p2, t, n, a, acc) && match acc {
                    Ok(acc) => call_ensures(a.summarize, (&m, Some(acc), l, q), s),
                    Err(e) => s == Err::<W, E>(e),
                };
        let x = choose|acc: Result<Acc, E>| #[trigger]
            some_thing(acc) && folded(site, p, t, n, a, acc) && match acc {
                Ok(acc) => call_ensures(a.summarize, (&m, Some(acc), l, q), r),
                Err(e) => r == Err::<W, E>(e),
            };
        let y = choose|acc: Result<Acc, E>| #[trigger]
            some_thing(acc) && folded(other, p2, t, n, a, acc) && match acc {
                Ok(acc) => call_ensures(a.summarize, (&m2, Some(acc), l2, q2), s),
                Err(e) => s == Err::<W, E>(e),
            };
        lemma_one_folded::<V, Acc, W, E, N, F, M, S, C>(
            site,
            p,
            other,
            p2,
            t,
            n,
            a,
            x,
            y,
        );
    }
}

spec fn step_to<
    V,
    Acc,
    W: Clone,
    E,
    N: Fn(&ByteMask) -> Result<Acc, E>,
    F: Fn(&ByteMask, W, Acc) -> Result<Acc, E>,
    M: Fn(&V, &[u8], &[u8]) -> Result<W, E>,
    S: Fn(&ByteMask, Option<Acc>, &[u8], &[u8]) -> Result<W, E>,
    C: Fn(&V, W, &[u8]) -> Result<W, E>,
>(
    site: Site<V>,
    p: Seq<u8>,
    t: Trie<V>,
    n: nat,
    a: &Algebra<N, F, M, S, C>,
    before: Result<Acc, E>,
    r: Result<Acc, E>,
) -> bool {
    let kids = t.kids.dom();
    let b = members(kids)[n - 1];
    match before {
        Err(e) => r == Err::<Acc, E>(e),
        Ok(acc) => t.kids.contains_key(b) && exists|
            q: Seq<u8>,
            w: Result<W, E>,
            w2: Result<W, E>,
        | #[trigger]
            site.counts_for(q, p.push(b)) && #[trigger] passed_on(w, w2) && outcome(
                site,
                q,
                t.kids[b],
                Seq::empty(),
                a,
                w,
            ) && match w2 {
                Err(e) => r == Err::<Acc, E>(e),
                Ok(w2) => exists|m: ByteMask| #[trigger]
                    masks(m, kids) && call_ensures(a.fold_child, (&m, w2, acc), r),
            },
    }
}

proof fn lemma_one_folded<
    V,
    Acc,
    W: Clone,
    E,
    N: Fn(&ByteMask) -> Result<Acc, E>,
    F: Fn(&ByteMask, W, Acc) -> Result<Acc, E>,
    M: Fn(&V, &[u8], &[u8]) -> Result<W, E>,
    S: Fn(&ByteMask, Option<Acc>, &[u8], &[u8]) -> Result<W, E>,
    C: Fn(&V, W, &[u8]) -> Result<W, E>,
>(
    site: Site<V>,
    p: Seq<u8>,
    other: Site<V>,
    p2: Seq<u8>,
    t: Trie<V>,
    n: nat,
    a: &Algebra<N, F, M, S, C>,
    r: Result<Acc, E>,
    s: Result<Acc, E>,
)
    requires
        ignores_paths::<V, Acc, W, E, N, F, M, S, C>(a),
        folded(site, p, t, n, a, r),
        folded(other, p2, t, n, a, s),
    ensures
        r == s,
    decreases t, n,
{
    if n > 0 {
        let k = (n - 1) as nat;
        let b = members(t.kids.dom())[n - 1];
        let x = choose|x: Result<Acc, E>| #[trigger]
            some_thing(x) && folded(site, p, t, k, a, x) && step_to(
                site,
                p,
                t,
                n,
                a,
                x,
                r,
            );
        let y = choose|y: Result<Acc, E>| #[trigger]
            some_thing(y) && folded(other, p2, t, k, a, y) && step_to(
                other,
                p2,
                t,
                n,
                a,
                y,
                s,
            );
        lemma_one_folded::<V, Acc, W, E, N, F, M, S, C>(
            site,
            p,
            other,
            p2,
            t,
            k,
            a,
            x,
            y,
        );
        if let Ok(acc) = x {
            let kids = t.kids.dom();
            let (q, w, w2) = choose|q: Seq<u8>, w: Result<W, E>, w2: Result<W, E>| #[trigger]
                site.counts_for(q, p.push(b)) && #[trigger] passed_on(w, w2) && outcome(
                    site,
                    q,
                    t.kids[b],
                    Seq::empty(),
                    a,
                    w,
                ) && match w2 {
                    Err(e) => r == Err::<Acc, E>(e),
                    Ok(w2) => exists|m: ByteMask| #[trigger]
                        masks(m, kids) && call_ensures(a.fold_child, (&m, w2, acc), r),
                };
            let (q2, v, v2) = choose|q: Seq<u8>, w: Result<W, E>, w2: Result<W, E>| #[trigger]
                other.counts_for(q, p2.push(b)) && #[trigger] passed_on(w, w2) && outcome(
                    other,
                    q,
                    t.kids[b],
                    Seq::empty(),
                    a,
                    w,
                ) && match w2 {
                    Err(e) => s == Err::<Acc, E>(e),
                    Ok(w2) => exists|m: ByteMask| #[trigger]
                        masks(m, kids) && call_ensures(a.fold_child, (&m, w2, acc), s),
                };
            law_fold_has_one_result(
                site,
                q,
                other,
                q2,
                t.kids[b],
                Seq::empty(),
                a,
                w,
                v,
            );
        }
    }
}

/// Where no two places have the same number, what counts for a path is what was folded along it:
/// the functions are told of each place the path that leads to it.
pub proof fn law_unshared_is_told_its_path<V>(site: Site<V>, p2: Seq<u8>, p: Seq<u8>)
    requires
        forall|q: Seq<u8>, q2: Seq<u8>| #[trigger]
            (site.shares)(q) is Some && #[trigger] (site.shares)(q2) == (site.shares)(q) ==> q
                == q2,
        site.counts_for(p2, p),
    ensures
        p2 == p,
{
}

/// What is folded is what is below where one stands, and the functions are told the path from the root
/// of the whole trie.
pub proof fn law_folded_from_where_one_stands<V, S: Storage>(
    map: &PathMap<V>,
    z: &ReadZipper<V>,
    a: &ACTZipper<S, u64>,
    p: Seq<u8>,
)
    ensures
        map.cata_trie() == map.trie(),
        map.cata_path() == Seq::<u8>::empty(),
        (map.cata_shares())(p) == map.share(p),
        z.cata_trie().get(p) == Zipper::trie(z).get(Zipper::focus(z) + p),
        z.cata_path() == Zipper::focus(z),
        (z.cata_shares())(p) == (Zipper::shares(z))(Zipper::focus(z) + p),
        a.cata_trie().get(p) == (match a.here() {
            Some(t) => t.get(p),
            None => None,
        }),
        a.cata_path() == a.origin() + a.rel(),
        (a.cata_shares())(p) is None,
{
    lemma_at_concat(Zipper::trie(z), Zipper::focus(z), p);
    assert(Trie::<V>::empty().get(p) is None);
    assert(Trie::<u64>::empty().get(p) is None);
}

} // verus!

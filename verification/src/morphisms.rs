//! Folding a trie from its leaves to its root.

use vstd::prelude::*;
use std::collections::HashMap;
use vstd::std_specs::hash::group_hash_axioms;

use crate::arena_compact::act_zipper::ACTZipper;
use crate::arena_compact::builder::{descend_links, place};
use crate::arena_compact::readers::below;
use crate::arena_compact::tree::Storage;
use crate::path_map::map::PathMap;
use crate::path_map::map_zipper::ReadZipper;
use crate::slices::push_slice;
use crate::trie::{chain, lemma_at_concat, lemma_at_push, or_empty, Trie};
use crate::utils::bits::{lemma_members, members};
use crate::utils::byte_mask::{BitMask, ByteMask};
use crate::zipper::Zipper;

verus! {

/// The functions of a fold.
pub struct Algebra<N, F, M, S, C> {
    /// Makes what the children of a place are put into.
    pub new_acc: N,
    /// Puts a child into it.
    pub fold_child: F,
    /// Gives the result for a value with nothing below it.
    pub map: M,
    /// Gives the result for a place of whose children something was made.
    pub summarize: S,
    /// Adds the value of a place to the result for what is below it.
    pub collapse: C,
}

/// The slice holds the bytes `s`.
pub open spec fn holds(p: &[u8], s: Seq<u8>) -> bool {
    p@ == s
}

/// Holds of everything, and so tells nothing but that there is such a thing.
pub open spec fn some_thing<T>(x: T) -> bool {
    true
}

/// The mask is that of the bytes in `s`.
pub open spec fn masks(m: ByteMask, s: Set<u8>) -> bool {
    m@ == s
}

/// What is folded.
#[verifier::reject_recursive_types(V)]
pub struct Site<V> {
    /// The trie below the root of the fold.
    pub whole: Trie<V>,
    /// Under which number its places are known that are shared.
    pub shares: spec_fn(Seq<u8>) -> Option<u64>,
    /// The path to the root of the fold.
    pub base: Seq<u8>,
}

impl<V> Site<V> {
    /// What is folded along `p2` counts for `p`: the two are the same, or lead to one place that is
    /// shared between them.
    pub open spec fn counts_for(self, p2: Seq<u8>, p: Seq<u8>) -> bool {
        p2 == p || {
            &&& (self.shares)(p) is Some
            &&& (self.shares)(p2) == (self.shares)(p)
            &&& self.whole.has(p)
            &&& self.whole.at(p2) == self.whole.at(p)
        }
    }
}

/// The two results are the same, or one is a clone of the other.
pub open spec fn passed_on<W: Clone, E>(a: Result<W, E>, b: Result<W, E>) -> bool {
    match (a, b) {
        (Ok(a), Ok(b)) => cloned(a, b),
        (Err(a), Err(b)) => a == b,
        _ => false,
    }
}

/// What the fold may give for the place `t` along the path `p` to it, above which `prefix` was
/// passed over.
///
/// Bytes that lead on without a choice and without a value are passed over. The functions are told
/// the full path. A child that is shared between several paths may have been folded along another of
/// them; every other child is folded along its own.
pub open spec fn outcome<
    V,
    Acc,
    W: Clone,
    E,
    N: Fn(&ByteMask) -> Result<Acc, E>,
    F: Fn(&ByteMask, W, Acc) -> Result<Acc, E>,
    M: Fn(&V, &[u8], &[u8]) -> Result<W, E>,
    S: Fn(&ByteMask, Option<Acc>, &[u8], &[u8]) -> Result<W, E>,
    C: Fn(&V, W, &[u8]) -> Result<W, E>,
>(
    site: Site<V>,
    p: Seq<u8>,
    t: Trie<V>,
    prefix: Seq<u8>,
    a: &Algebra<N, F, M, S, C>,
    r: Result<W, E>,
) -> bool
    decreases t, members(t.kids.dom()).len() + 2,
{
    if t.is_link() {
        t.kids.contains_key(t.link_byte()) && outcome(
            site,
            p.push(t.link_byte()),
            t.kids[t.link_byte()],
            prefix.push(t.link_byte()),
            a,
            r,
        )
    } else if t.kids.dom() == Set::<u8>::empty() && t.val is Some {
        exists|l: &[u8], q: &[u8]| #[trigger]
            holds(l, prefix) && #[trigger] holds(q, site.base + p) && call_ensures(
                a.map,
                (&t.val->Some_0, l, q),
                r,
            )
    } else {
        exists|s: Result<W, E>| #[trigger]
            some_thing(s) && summary(site, p, t, prefix, a, s) && match (t.val, s) {
                (Some(v), Ok(w)) => exists|q: &[u8]| #[trigger]
                    holds(q, site.base + p) && call_ensures(a.collapse, (&v, w, q), r),
                _ => r == s,
            }
    }
}

/// What may be made of the children of `t`.
pub open spec fn summary<
    V,
    Acc,
    W: Clone,
    E,
    N: Fn(&ByteMask) -> Result<Acc, E>,
    F: Fn(&ByteMask, W, Acc) -> Result<Acc, E>,
    M: Fn(&V, &[u8], &[u8]) -> Result<W, E>,
    S: Fn(&ByteMask, Option<Acc>, &[u8], &[u8]) -> Result<W, E>,
    C: Fn(&V, W, &[u8]) -> Result<W, E>,
>(
    site: Site<V>,
    p: Seq<u8>,
    t: Trie<V>,
    prefix: Seq<u8>,
    a: &Algebra<N, F, M, S, C>,
    r: Result<W, E>,
) -> bool
    decreases t, members(t.kids.dom()).len() + 1,
{
    let kids = t.kids.dom();
    exists|m: ByteMask, l: &[u8], q: &[u8]| #[trigger]
        masks(m, kids) && #[trigger] holds(l, prefix) && #[trigger] holds(q, site.base + p)
            && if kids == Set::<u8>::empty() {
            call_ensures(a.summarize, (&m, None, l, q), r)
        } else {
            exists|acc: Result<Acc, E>| #[trigger]
                some_thing(acc) && folded(site, p, t, members(kids).len(), a, acc) && match acc {
                    Ok(acc) => call_ensures(a.summarize, (&m, Some(acc), l, q), r),
                    Err(e) => r == Err::<W, E>(e),
                }
        }
}

/// What the first `n` children of `t` may be put into.
pub open spec fn folded<
    V,
    Acc,
    W: Clone,
    E,
    N: Fn(&ByteMask) -> Result<Acc, E>,
    F: Fn(&ByteMask, W, Acc) -> Result<Acc, E>,
    M: Fn(&V, &[u8], &[u8]) -> Result<W, E>,
    S: Fn(&ByteMask, Option<Acc>, &[u8], &[u8]) -> Result<W, E>,
    C: Fn(&V, W, &[u8]) -> Result<W, E>,
>(
    site: Site<V>,
    p: Seq<u8>,
    t: Trie<V>,
    n: nat,
    a: &Algebra<N, F, M, S, C>,
    r: Result<Acc, E>,
) -> bool
    decreases t, n,
{
    let kids = t.kids.dom();
    if n == 0 {
        exists|m: ByteMask| #[trigger] masks(m, kids) && call_ensures(a.new_acc, (&m,), r)
    } else {
        let b = members(kids)[n - 1];
        exists|before: Result<Acc, E>| #[trigger]
            some_thing(before) && folded(site, p, t, (n - 1) as nat, a, before) && match before {
                Err(e) => r == Err::<Acc, E>(e),
                Ok(acc) => t.kids.contains_key(b) && exists|
                    p2: Seq<u8>,
                    w: Result<W, E>,
                    w2: Result<W, E>,
                |
                    #[trigger] site.counts_for(p2, p.push(b)) && #[trigger] passed_on(w, w2)
                        && outcome(
                        site,
                        p2,
                        t.kids[b],
                        Seq::empty(),
                        a,
                        w,
                    ) && match w2 {
                        Err(e) => r == Err::<Acc, E>(e),
                        Ok(w2) => exists|m: ByteMask| #[trigger]
                            masks(m, kids) && call_ensures(a.fold_child, (&m, w2, acc), r),
                    },
            }
    }
}

/// The functions can be called on anything.
pub open spec fn total<
    V,
    Acc,
    W: Clone,
    E,
    N: Fn(&ByteMask) -> Result<Acc, E>,
    F: Fn(&ByteMask, W, Acc) -> Result<Acc, E>,
    M: Fn(&V, &[u8], &[u8]) -> Result<W, E>,
    S: Fn(&ByteMask, Option<Acc>, &[u8], &[u8]) -> Result<W, E>,
    C: Fn(&V, W, &[u8]) -> Result<W, E>,
>(a: &Algebra<N, F, M, S, C>) -> bool {
    &&& forall|m: &ByteMask| call_requires(a.new_acc, (m,))
    &&& forall|m: &ByteMask, w: W, acc: Acc| call_requires(a.fold_child, (m, w, acc))
    &&& forall|v: &V, p: &[u8], q: &[u8]| call_requires(a.map, (v, p, q))
    &&& forall|m: &ByteMask, acc: Option<Acc>, p: &[u8], q: &[u8]|
        call_requires(a.summarize, (m, acc, p, q))
    &&& forall|v: &V, w: W, q: &[u8]| call_requires(a.collapse, (v, w, q))
}

/// What the fold may give for a place is what it may give for the end of the bytes that are passed
/// over.
proof fn lemma_outcome_chain<
    V,
    Acc,
    W: Clone,
    E,
    N: Fn(&ByteMask) -> Result<Acc, E>,
    F: Fn(&ByteMask, W, Acc) -> Result<Acc, E>,
    M: Fn(&V, &[u8], &[u8]) -> Result<W, E>,
    S: Fn(&ByteMask, Option<Acc>, &[u8], &[u8]) -> Result<W, E>,
    C: Fn(&V, W, &[u8]) -> Result<W, E>,
>(
    site: Site<V>,
    p: Seq<u8>,
    line: Seq<u8>,
    t: Trie<V>,
    prefix: Seq<u8>,
    a: &Algebra<N, F, M, S, C>,
    r: Result<W, E>,
)
    requires
        outcome(site, p + line, t, prefix + line, a, r),
    ensures
        outcome(site, p, chain(line, t), prefix, a, r),
    decreases line.len(),
{
    if line.len() == 0 {
        assert(prefix + line =~= prefix);
        assert(p + line =~= p);
    } else {
        let c = chain(line, t);
        let b = line[0];
        assert(c.kids.dom() =~= Set::<u8>::empty().insert(b));
        assert(c.is_link());
        assert(c.kids.dom().contains(c.link_byte()));
        assert(c.link_byte() == b);
        assert(prefix + line =~= prefix.push(b) + line.drop_first());
        assert(p + line =~= p.push(b) + line.drop_first());
        lemma_outcome_chain(site, p.push(b), line.drop_first(), t, prefix.push(b), a, r);
    }
}

/// What is kept for a number was made of a place of that number.
spec fn kept<
    V,
    Acc,
    W: Clone,
    E,
    N: Fn(&ByteMask) -> Result<Acc, E>,
    F: Fn(&ByteMask, W, Acc) -> Result<Acc, E>,
    M: Fn(&V, &[u8], &[u8]) -> Result<W, E>,
    S: Fn(&ByteMask, Option<Acc>, &[u8], &[u8]) -> Result<W, E>,
    C: Fn(&V, W, &[u8]) -> Result<W, E>,>(
    site: Site<V>,
    a: &Algebra<N, F, M, S, C>,
    cache: Map<u64, W>,
) -> bool {
    forall|id: u64| #[trigger]
        cache.contains_key(id) ==> exists|p: Seq<u8>| #[trigger]
            made_at::<V, Acc, W, E, N, F, M, S, C>(site, a, id, p, cache[id])
}

/// `w` was made of the place `p`, whose number is `id`.
spec fn made_at<
    V,
    Acc,
    W: Clone,
    E,
    N: Fn(&ByteMask) -> Result<Acc, E>,
    F: Fn(&ByteMask, W, Acc) -> Result<Acc, E>,
    M: Fn(&V, &[u8], &[u8]) -> Result<W, E>,
    S: Fn(&ByteMask, Option<Acc>, &[u8], &[u8]) -> Result<W, E>,
    C: Fn(&V, W, &[u8]) -> Result<W, E>,>(
    site: Site<V>,
    a: &Algebra<N, F, M, S, C>,
    id: u64,
    p: Seq<u8>,
    w: W,
) -> bool {
    &&& (site.shares)(p) == Some(id)
    &&& site.whole.has(p)
    &&& outcome(site, p, site.whole.at(p)->Some_0, Seq::empty(), a, Ok::<W, E>(w))
}

/// The zipper and the path in `at` stand at the place `p` of what is folded, which begins at `start`.
spec fn stands_at<V, Z: Zipper<V>>(
    z: &Z,
    at: Seq<u8>,
    site: Site<V>,
    start: Seq<u8>,
    p: Seq<u8>,
) -> bool {
    &&& z.wf()
    &&& z.trie().at(start) == Some(site.whole)
    &&& z.focus() == start + p
    &&& at == site.base + p
    &&& site.whole.has(p)
    &&& forall|q: Seq<u8>| #[trigger] (site.shares)(q) == (z.shares())(start + q)
}

/// Where the zipper stands there is the place of the trie.
proof fn lemma_stands<V, Z: Zipper<V>>(
    z: &Z,
    at: Seq<u8>,
    site: Site<V>,
    start: Seq<u8>,
    p: Seq<u8>,
)
    requires
        stands_at::<V, Z>(z, at, site, start, p),
    ensures
        z.trie().at(z.focus()) == site.whole.at(p),
        place::<V, Z>(z) == site.whole.at(p)->Some_0,
{
    lemma_at_concat(z.trie(), start, p);
}

/// Places of one number are equal.
proof fn lemma_counts<V, Z: Zipper<V>>(
    z: &Z,
    at: Seq<u8>,
    site: Site<V>,
    start: Seq<u8>,
    p: Seq<u8>,
    p2: Seq<u8>,
)
    requires
        stands_at::<V, Z>(z, at, site, start, p),
        (site.shares)(p) is Some,
        (site.shares)(p2) == (site.shares)(p),
        site.whole.has(p2),
    ensures
        site.counts_for(p2, p),
{
    lemma_at_concat(z.trie(), start, p);
    lemma_at_concat(z.trie(), start, p2);
    z.lemma_shares(start + p, start + p2);
}

/// The fold of what is at and below the focus, which is the end of the bytes in `at`.
///
/// A place below a branch is folded once, and its result is cloned for the other paths to it.
fn fold_place<
    V,
    Acc,
    W: Clone,
    E,
    Z: Zipper<V>,
    N: Fn(&ByteMask) -> Result<Acc, E>,
    F: Fn(&ByteMask, W, Acc) -> Result<Acc, E>,
    M: Fn(&V, &[u8], &[u8]) -> Result<W, E>,
    S: Fn(&ByteMask, Option<Acc>, &[u8], &[u8]) -> Result<W, E>,
    C: Fn(&V, W, &[u8]) -> Result<W, E>,
>(
    z: &mut Z,
    at: &mut Vec<u8>,
    below_branch: bool,
    cache: &mut HashMap<u64, W>,
    a: &Algebra<N, F, M, S, C>,
    Ghost(site): Ghost<Site<V>>,
    Ghost(start): Ghost<Seq<u8>>,
    Ghost(p): Ghost<Seq<u8>>,
) -> (r: Result<W, E>)
    requires
        stands_at::<V, Z>(old(z), old(at)@, site, start, p),
        total::<V, Acc, W, E, N, F, M, S, C>(a),
        kept::<V, Acc, W, E, N, F, M, S, C>(site, a, old(cache)@),
    ensures
        exists|p2: Seq<u8>, w: Result<W, E>| #[trigger]
            site.counts_for(p2, p) && #[trigger] passed_on(w, r) && outcome(
                site,
                p2,
                site.whole.at(p)->Some_0,
                Seq::empty(),
                a,
                w,
            ),
        !below_branch ==> outcome(site, p, site.whole.at(p)->Some_0, Seq::empty(), a, r),
        r is Ok ==> {
            &&& stands_at::<V, Z>(final(z), final(at)@, site, start, p)
            &&& final(z).trie() == old(z).trie()
            &&& final(z).shares() == old(z).shares()
            &&& kept::<V, Acc, W, E, N, F, M, S, C>(site, a, final(cache)@)
        },
    decreases place::<V, Z>(old(z)), 1nat,
{
    broadcast use group_hash_axioms;

    let ghost top = site.whole.at(p)->Some_0;
    proof {
        lemma_stands::<V, Z>(z, at@, site, start, p);
        assert(site.counts_for(p, p));
    }
    let id = if below_branch {
        z.shared_node_id()
    } else {
        None
    };
    assert(id is Some ==> id == (site.shares)(p));
    if let Some(n) = id {
        if let Some(w) = cache.get(&n) {
            let r = w.clone();
            proof {
                assert(cache@.contains_key(n));
                let p2 = choose|p2: Seq<u8>| #[trigger]
                    made_at::<V, Acc, W, E, N, F, M, S, C>(site, a, n, p2, cache@[n]);
                lemma_counts::<V, Z>(z, at@, site, start, p, p2);
                let found = Ok::<W, E>(cache@[n]);
                assert(outcome(site, p2, top, Seq::empty(), a, found));
                assert(passed_on(found, Ok::<W, E>(r)));
            }
            return Ok(r);
        }
    }
    let prefix = descend_links::<V, Z>(z);
    push_slice(at, prefix.as_slice());
    let ghost here = place::<V, Z>(z);
    let ghost end = p + prefix@;
    let ghost none = Seq::<u8>::empty();
    proof {
        assert(start + end =~= (start + p) + prefix@);
        assert(site.base + end =~= (site.base + p) + prefix@);
        lemma_at_concat(z.trie(), start, end);
        assert(site.whole.has(end));
        assert(stands_at::<V, Z>(z, at@, site, start, end));
        lemma_stands::<V, Z>(z, at@, site, start, end);
        assert(none + prefix@ =~= prefix@);
    }
    let w = match fold_stop(
        z,
        at,
        prefix.as_slice(),
        cache,
        a,
        Ghost(site),
        Ghost(start),
        Ghost(end),
    ) {
        Err(e) => {
            proof {
                let r = Err::<W, E>(e);
                lemma_outcome_chain(site, p, prefix@, here, none, a, r);
                assert(passed_on(r, r));
            }
            return Err(e);
        },
        Ok(w) => w,
    };
    z.ascend(prefix.len());
    at.truncate(at.len() - prefix.len());
    let ghost given = Ok::<W, E>(w);
    proof {
        assert(z.focus() =~= start + p);
        assert(at@ =~= site.base + p);
        lemma_outcome_chain(site, p, prefix@, here, none, a, given);
    }
    match id {
        None => {
            assert(passed_on(given, Ok::<W, E>(w)));
            Ok(w)
        },
        Some(n) => {
            let r = w.clone();
            let ghost before = cache@;
            cache.insert(n, w);
            proof {
                assert forall|k: u64| #[trigger] cache@.contains_key(k) implies exists|q: Seq<u8>|
                    #[trigger]
                    made_at::<V, Acc, W, E, N, F, M, S, C>(site, a, k, q, cache@[k]) by {
                    if k == n {
                        assert(made_at::<V, Acc, W, E, N, F, M, S, C>(site, a, k, p, cache@[k]));
                    } else {
                        assert(before.contains_key(k));
                    }
                }
                assert(passed_on(given, Ok::<W, E>(r)));
            }
            Ok(r)
        },
    }
}

/// An error stays what it is, however many children are left.
proof fn lemma_folded_err<
    V,
    Acc,
    W: Clone,
    E,
    N: Fn(&ByteMask) -> Result<Acc, E>,
    F: Fn(&ByteMask, W, Acc) -> Result<Acc, E>,
    M: Fn(&V, &[u8], &[u8]) -> Result<W, E>,
    S: Fn(&ByteMask, Option<Acc>, &[u8], &[u8]) -> Result<W, E>,
    C: Fn(&V, W, &[u8]) -> Result<W, E>,
>(
    site: Site<V>,
    p: Seq<u8>,
    t: Trie<V>,
    i: nat,
    n: nat,
    a: &Algebra<N, F, M, S, C>,
    e: E,
)
    requires
        i <= n,
        folded(site, p, t, i, a, Err::<Acc, E>(e)),
    ensures
        folded(site, p, t, n, a, Err::<Acc, E>(e)),
    decreases n,
{
    if i < n {
        lemma_folded_err(site, p, t, i, (n - 1) as nat, a, e);
        assert(some_thing(Err::<Acc, E>(e)));
    }
}

/// An error on the way is the result.
proof fn lemma_outcome_err<
    V,
    Acc,
    W: Clone,
    E,
    N: Fn(&ByteMask) -> Result<Acc, E>,
    F: Fn(&ByteMask, W, Acc) -> Result<Acc, E>,
    M: Fn(&V, &[u8], &[u8]) -> Result<W, E>,
    S: Fn(&ByteMask, Option<Acc>, &[u8], &[u8]) -> Result<W, E>,
    C: Fn(&V, W, &[u8]) -> Result<W, E>,
>(
    site: Site<V>,
    p: Seq<u8>,
    t: Trie<V>,
    prefix: Seq<u8>,
    i: nat,
    a: &Algebra<N, F, M, S, C>,
    e: E,
    m: ByteMask,
    l: &[u8],
    q: &[u8],
)
    requires
        i <= members(t.kids.dom()).len(),
        folded(site, p, t, i, a, Err::<Acc, E>(e)),
        !t.is_link(),
        t.kids.dom() != Set::<u8>::empty(),
        masks(m, t.kids.dom()),
        holds(l, prefix),
        holds(q, site.base + p),
    ensures
        outcome(site, p, t, prefix, a, Err::<W, E>(e)),
{
    let n = members(t.kids.dom()).len();
    lemma_folded_err(site, p, t, i, n, a, e);
    assert(some_thing(Err::<Acc, E>(e)));
    assert(some_thing(Err::<W, E>(e)));
    assert(summary(site, p, t, prefix, a, Err::<W, E>(e)));
}

/// One child more is put in.
proof fn lemma_folded_step<
    V,
    Acc,
    W: Clone,
    E,
    N: Fn(&ByteMask) -> Result<Acc, E>,
    F: Fn(&ByteMask, W, Acc) -> Result<Acc, E>,
    M: Fn(&V, &[u8], &[u8]) -> Result<W, E>,
    S: Fn(&ByteMask, Option<Acc>, &[u8], &[u8]) -> Result<W, E>,
    C: Fn(&V, W, &[u8]) -> Result<W, E>,
>(
    site: Site<V>,
    p: Seq<u8>,
    t: Trie<V>,
    i: nat,
    a: &Algebra<N, F, M, S, C>,
    acc: Acc,
    p2: Seq<u8>,
    w: Result<W, E>,
    w2: Result<W, E>,
    m: ByteMask,
    r: Result<Acc, E>,
)
    requires
        i < members(t.kids.dom()).len(),
        folded(site, p, t, i, a, Ok::<Acc, E>(acc)),
        t.kids.contains_key(members(t.kids.dom())[i as int]),
        site.counts_for(p2, p.push(members(t.kids.dom())[i as int])),
        passed_on(w, w2),
        outcome(site, p2, t.kids[members(t.kids.dom())[i as int]], Seq::empty(), a, w),
        masks(m, t.kids.dom()),
        match w2 {
            Err(e) => r == Err::<Acc, E>(e),
            Ok(w2) => call_ensures(a.fold_child, (&m, w2, acc), r),
        },
    ensures
        folded(site, p, t, i + 1, a, r),
{
    assert(some_thing(Ok::<Acc, E>(acc)));
}

/// The fold of a focus that is not passed over.
#[verifier::rlimit(40)]
fn fold_stop<
    V,
    Acc,
    W: Clone,
    E,
    Z: Zipper<V>,
    N: Fn(&ByteMask) -> Result<Acc, E>,
    F: Fn(&ByteMask, W, Acc) -> Result<Acc, E>,
    M: Fn(&V, &[u8], &[u8]) -> Result<W, E>,
    S: Fn(&ByteMask, Option<Acc>, &[u8], &[u8]) -> Result<W, E>,
    C: Fn(&V, W, &[u8]) -> Result<W, E>,
>(
    z: &mut Z,
    at: &mut Vec<u8>,
    prefix: &[u8],
    cache: &mut HashMap<u64, W>,
    a: &Algebra<N, F, M, S, C>,
    Ghost(site): Ghost<Site<V>>,
    Ghost(start): Ghost<Seq<u8>>,
    Ghost(p): Ghost<Seq<u8>>,
) -> (r: Result<W, E>)
    requires
        stands_at::<V, Z>(old(z), old(at)@, site, start, p),
        !site.whole.at(p)->Some_0.is_link(),
        total::<V, Acc, W, E, N, F, M, S, C>(a),
        kept::<V, Acc, W, E, N, F, M, S, C>(site, a, old(cache)@),
    ensures
        outcome(site, p, site.whole.at(p)->Some_0, prefix@, a, r),
        r is Ok ==> {
            &&& stands_at::<V, Z>(final(z), final(at)@, site, start, p)
            &&& final(z).trie() == old(z).trie()
            &&& final(z).shares() == old(z).shares()
            &&& kept::<V, Acc, W, E, N, F, M, S, C>(site, a, final(cache)@)
        },
    decreases place::<V, Z>(old(z)), 0nat,
{
    let ghost here = site.whole.at(p)->Some_0;
    let ghost path = site.base + p;
    let mask = z.child_mask();
    let mut copy: Vec<u8> = Vec::new();
    push_slice(&mut copy, at.as_slice());
    assert(copy@ =~= at@);
    let q0 = copy.as_slice();
    proof {
        lemma_stands::<V, Z>(z, at@, site, start, p);
        assert(masks(mask, here.kids.dom()));
        assert(holds(prefix, prefix@));
        assert(holds(q0, path));
    }
    if mask.is_empty_mask() {
        let r = match z.val() {
            Some(v) => (a.map)(v, prefix, q0),
            None => {
                let r = (a.summarize)(&mask, None, prefix, q0);
                assert(some_thing(r));
                assert(summary(site, p, here, prefix@, a, r));
                r
            },
        };
        return r;
    }
    let bytes = mask.to_vec();
    let mut i: usize = 0;
    let first = (a.new_acc)(&mask);
    assert(folded(site, p, here, 0, a, first));
    let mut acc = match first {
        Err(e) => {
            proof {
                lemma_outcome_err(site, p, here, prefix@, 0, a, e, mask, prefix, q0);
            }
            return Err(e);
        },
        Ok(acc) => acc,
    };
    while i < bytes.len()
        invariant
            i <= bytes@.len(),
            bytes@ == members(here.kids.dom()),
            mask@ == here.kids.dom(),
            here.kids.dom() != Set::<u8>::empty(),
            !here.is_link(),
            here == site.whole.at(p)->Some_0,
            here == place::<V, Z>(old(z)),
            path == site.base + p,
            stands_at::<V, Z>(z, at@, site, start, p),
            z.trie() == old(z).trie(),
            z.shares() == old(z).shares(),
            q0@ == path,
            masks(mask, here.kids.dom()),
            holds(prefix, prefix@),
            holds(q0, path),
            total::<V, Acc, W, E, N, F, M, S, C>(a),
            kept::<V, Acc, W, E, N, F, M, S, C>(site, a, cache@),
            folded(site, p, here, i as nat, a, Ok::<Acc, E>(acc)),
        decreases bytes@.len() - i,
    {
        let byte = bytes[i];
        let ghost acc0 = acc;
        let ghost next_p = p.push(byte);
        proof {
            lemma_members(mask@);
            assert(mask@.contains(byte));
            lemma_at_push(site.whole, p, byte);
            assert(start + next_p =~= (start + p).push(byte));
            assert(site.base + next_p =~= (site.base + p).push(byte));
        }
        z.descend_to_byte(byte);
        at.push(byte);
        proof {
            assert(stands_at::<V, Z>(z, at@, site, start, next_p));
            lemma_stands::<V, Z>(z, at@, site, start, next_p);
            assert(place::<V, Z>(z) == here.kids[byte]);
        }
        let below = fold_place(
            z,
            at,
            true,
            cache,
            a,
            Ghost(site),
            Ghost(start),
            Ghost(next_p),
        );
        let ghost (p2, w0) = choose|p2: Seq<u8>, w: Result<W, E>| #[trigger]
            site.counts_for(p2, next_p) && #[trigger] passed_on(w, below) && outcome(
                site,
                p2,
                here.kids[byte],
                Seq::empty(),
                a,
                w,
            );
        let w = match below {
            Err(e) => {
                proof {
                    let r = Err::<Acc, E>(e);
                    lemma_folded_step(site, p, here, i as nat, a, acc0, p2, w0, below, mask, r);
                    lemma_outcome_err(
                        site,
                        p,
                        here,
                        prefix@,
                        (i + 1) as nat,
                        a,
                        e,
                        mask,
                        prefix,
                        q0,
                    );
                }
                return Err(e);
            },
            Ok(w) => w,
        };
        let ghost below2 = Ok::<W, E>(w);
        let _ = at.pop();
        z.ascend(1);
        proof {
            assert(z.focus() =~= start + p);
            assert(at@ =~= path);
        }
        let next = (a.fold_child)(&mask, w, acc);
        proof {
            lemma_folded_step(site, p, here, i as nat, a, acc0, p2, w0, below2, mask, next);
        }
        acc = match next {
            Err(e) => {
                proof {
                    lemma_outcome_err(
                        site,
                        p,
                        here,
                        prefix@,
                        (i + 1) as nat,
                        a,
                        e,
                        mask,
                        prefix,
                        q0,
                    );
                }
                return Err(e);
            },
            Ok(acc) => acc,
        };
        i = i + 1;
    }
    let ghost acc0 = acc;
    let s = (a.summarize)(&mask, Some(acc), prefix, q0);
    proof {
        assert(some_thing(Ok::<Acc, E>(acc0)));
        assert(some_thing(s));
        assert(summary(site, p, here, prefix@, a, s));
        lemma_stands::<V, Z>(z, at@, site, start, p);
    }
    let ghost s0 = s;
    match (z.val(), s) {
        (Some(v), Ok(w)) => {
            let r = (a.collapse)(v, w, q0);
            assert(summary(site, p, here, prefix@, a, s0));
            r
        },
        (_, s) => s,
    }
}

/// The fold of what is at and below the focus of `z`, which is the end of the bytes in `at`. Where
/// the focus leads nowhere that is an empty trie.
fn fold_focus<
    V,
    Acc,
    W: Clone,
    E,
    Z: Zipper<V>,
    N: Fn(&ByteMask) -> Result<Acc, E>,
    F: Fn(&ByteMask, W, Acc) -> Result<Acc, E>,
    M: Fn(&V, &[u8], &[u8]) -> Result<W, E>,
    S: Fn(&ByteMask, Option<Acc>, &[u8], &[u8]) -> Result<W, E>,
    C: Fn(&V, W, &[u8]) -> Result<W, E>,
>(
    z: Z,
    at: Vec<u8>,
    exists: bool,
    a: &Algebra<N, F, M, S, C>,
    Ghost(site): Ghost<Site<V>>,
) -> (r: Result<W, E>)
    requires
        z.wf(),
        exists == z.trie().has(z.focus()),
        site.whole == or_empty(z.trie().at(z.focus())),
        site.base == at@,
        forall|q: Seq<u8>| #[trigger] (site.shares)(q) == (z.shares())(z.focus() + q),
        total::<V, Acc, W, E, N, F, M, S, C>(a),
    ensures
        outcome(site, Seq::empty(), site.whole, Seq::empty(), a, r),
{
    broadcast use group_hash_axioms;

    let ghost none = Seq::<u8>::empty();
    let ghost t = site.whole;
    let ghost start = z.focus();
    proof {
        assert(t.at(none) == Some(t));
        assert(start + none =~= start);
        assert(site.base + none =~= site.base);
    }
    if exists {
        let mut z = z;
        let mut at = at;
        let mut cache: HashMap<u64, W> = HashMap::new();
        assert(stands_at::<V, Z>(&z, at@, site, start, none));
        fold_place(&mut z, &mut at, false, &mut cache, a, Ghost(site), Ghost(start), Ghost(none))
    } else {
        let mask = ByteMask::new();
        let prefix: Vec<u8> = Vec::new();
        let (l, q) = (prefix.as_slice(), at.as_slice());
        let r = (a.summarize)(&mask, None, l, q);
        proof {
            assert(t.kids.dom() =~= Set::<u8>::empty());
            assert forall|b: u8| t.kids.dom() != Set::<u8>::empty().insert(b) by {
                assert(Set::<u8>::empty().insert(b).contains(b));
            }
            assert(prefix@ =~= none);
            assert(masks(mask, t.kids.dom()));
            assert(holds(l, none));
            assert(holds(q, site.base + none));
            assert(some_thing(r));
            assert(summary(site, none, t, none, a, r));
        }
        r
    }
}

/// Debug extension trait for catamorphisms.
///
/// This trait provides debug-only catamorphism methods that may expose additional information
/// useful for debugging and development.
pub trait CatamorphismDebug<V> {
    spec fn cata_wf(&self) -> bool;

    /// The trie that is folded.
    spec fn cata_trie(&self) -> Trie<V>;

    /// The path to it.
    spec fn cata_path(&self) -> Seq<u8>;

    /// Under which number its places are known that are shared.
    spec fn cata_shares(&self) -> spec_fn(Seq<u8>) -> Option<u64>;

    /// Folds what is at and below the focus, jumping over bytes that lead on without a choice and
    /// without a value. The full absolute path is available to `map_f`, `summarize_f` and
    /// `collapse_f` as a trailing argument.
    ///
    /// Using data from the full path for your algorithm **will** lead to incorrect behavior: a place
    /// that is shared between several paths is folded along one of them.
    fn factored_cata_jumping_debug<
        Acc,
        W: Clone,
        E,
        NewAccF: Fn(&ByteMask) -> Result<Acc, E>,
        FoldChildF: Fn(&ByteMask, W, Acc) -> Result<Acc, E>,
        MapF: Fn(&V, &[u8], &[u8]) -> Result<W, E>,
        SummarizeF: Fn(&ByteMask, Option<Acc>, &[u8], &[u8]) -> Result<W, E>,
        CollapseF: Fn(&V, W, &[u8]) -> Result<W, E>,
    >(
        &self,
        new_acc_f: NewAccF,
        fold_child_f: FoldChildF,
        map_f: MapF,
        summarize_f: SummarizeF,
        collapse_f: CollapseF,
    ) -> (r: Result<W, E>)
        requires
            self.cata_wf(),
            total::<V, Acc, W, E, NewAccF, FoldChildF, MapF, SummarizeF, CollapseF>(
                &(Algebra {
                    new_acc: new_acc_f,
                    fold_child: fold_child_f,
                    map: map_f,
                    summarize: summarize_f,
                    collapse: collapse_f,
                }),
            ),
        ensures
            outcome(
                (Site {
                    whole: self.cata_trie(),
                    shares: self.cata_shares(),
                    base: self.cata_path(),
                }),
                Seq::empty(),
                self.cata_trie(),
                Seq::empty(),
                &(Algebra {
                    new_acc: new_acc_f,
                    fold_child: fold_child_f,
                    map: map_f,
                    summarize: summarize_f,
                    collapse: collapse_f,
                }),
                r,
            ),
    ;
}

impl<V> CatamorphismDebug<V> for PathMap<V> {
    open spec fn cata_wf(&self) -> bool {
        self.wf()
    }

    open spec fn cata_trie(&self) -> Trie<V> {
        self.trie()
    }

    open spec fn cata_path(&self) -> Seq<u8> {
        Seq::empty()
    }

    open spec fn cata_shares(&self) -> spec_fn(Seq<u8>) -> Option<u64> {
        |p: Seq<u8>| self.share(p)
    }

    fn factored_cata_jumping_debug<
        Acc,
        W: Clone,
        E,
        NewAccF: Fn(&ByteMask) -> Result<Acc, E>,
        FoldChildF: Fn(&ByteMask, W, Acc) -> Result<Acc, E>,
        MapF: Fn(&V, &[u8], &[u8]) -> Result<W, E>,
        SummarizeF: Fn(&ByteMask, Option<Acc>, &[u8], &[u8]) -> Result<W, E>,
        CollapseF: Fn(&V, W, &[u8]) -> Result<W, E>,
    >(
        &self,
        new_acc_f: NewAccF,
        fold_child_f: FoldChildF,
        map_f: MapF,
        summarize_f: SummarizeF,
        collapse_f: CollapseF,
    ) -> (r: Result<W, E>) {
        let a = Algebra {
            new_acc: new_acc_f,
            fold_child: fold_child_f,
            map: map_f,
            summarize: summarize_f,
            collapse: collapse_f,
        };
        let z = self.read_zipper();
        assert(Zipper::trie(&z).at(Seq::empty()) == Some(self.trie()));
        let at: Vec<u8> = Vec::new();
        assert(at@ =~= Seq::<u8>::empty());
        let ghost site = Site {
            whole: self.cata_trie(),
            shares: self.cata_shares(),
            base: self.cata_path(),
        };
        assert(forall|q: Seq<u8>| #[trigger] (Seq::<u8>::empty() + q) =~= q);
        fold_focus(z, at, true, &a, Ghost(site))
    }
}

impl<'a, V> CatamorphismDebug<V> for ReadZipper<'a, V> {
    open spec fn cata_wf(&self) -> bool {
        Zipper::wf(self)
    }

    open spec fn cata_trie(&self) -> Trie<V> {
        or_empty(Zipper::trie(self).at(Zipper::focus(self)))
    }

    open spec fn cata_path(&self) -> Seq<u8> {
        Zipper::focus(self)
    }

    open spec fn cata_shares(&self) -> spec_fn(Seq<u8>) -> Option<u64> {
        |p: Seq<u8>| (Zipper::shares(self))(Zipper::focus(self) + p)
    }

    fn factored_cata_jumping_debug<
        Acc,
        W: Clone,
        E,
        NewAccF: Fn(&ByteMask) -> Result<Acc, E>,
        FoldChildF: Fn(&ByteMask, W, Acc) -> Result<Acc, E>,
        MapF: Fn(&V, &[u8], &[u8]) -> Result<W, E>,
        SummarizeF: Fn(&ByteMask, Option<Acc>, &[u8], &[u8]) -> Result<W, E>,
        CollapseF: Fn(&V, W, &[u8]) -> Result<W, E>,
    >(
        &self,
        new_acc_f: NewAccF,
        fold_child_f: FoldChildF,
        map_f: MapF,
        summarize_f: SummarizeF,
        collapse_f: CollapseF,
    ) -> (r: Result<W, E>) {
        let a = Algebra {
            new_acc: new_acc_f,
            fold_child: fold_child_f,
            map: map_f,
            summarize: summarize_f,
            collapse: collapse_f,
        };
        let mut at: Vec<u8> = Vec::new();
        push_slice(&mut at, self.path());
        assert(at@ =~= Zipper::focus(self));
        let exists = self.path_exists();
        let ghost site = Site {
            whole: self.cata_trie(),
            shares: self.cata_shares(),
            base: self.cata_path(),
        };
        fold_focus(self.clone(), at, exists, &a, Ghost(site))
    }
}

impl<'tree, S: Storage> CatamorphismDebug<u64> for ACTZipper<'tree, S, u64> {
    open spec fn cata_wf(&self) -> bool {
        ACTZipper::wf(self)
    }

    open spec fn cata_trie(&self) -> Trie<u64> {
        or_empty(self.here())
    }

    open spec fn cata_path(&self) -> Seq<u8> {
        self.origin() + self.rel()
    }

    open spec fn cata_shares(&self) -> spec_fn(Seq<u8>) -> Option<u64> {
        |p: Seq<u8>| (Zipper::shares(self))(Zipper::focus(self) + p)
    }

    fn factored_cata_jumping_debug<
        Acc,
        W: Clone,
        E,
        NewAccF: Fn(&ByteMask) -> Result<Acc, E>,
        FoldChildF: Fn(&ByteMask, W, Acc) -> Result<Acc, E>,
        MapF: Fn(&u64, &[u8], &[u8]) -> Result<W, E>,
        SummarizeF: Fn(&ByteMask, Option<Acc>, &[u8], &[u8]) -> Result<W, E>,
        CollapseF: Fn(&u64, W, &[u8]) -> Result<W, E>,
    >(
        &self,
        new_acc_f: NewAccF,
        fold_child_f: FoldChildF,
        map_f: MapF,
        summarize_f: SummarizeF,
        collapse_f: CollapseF,
    ) -> (r: Result<W, E>) {
        let a = Algebra {
            new_acc: new_acc_f,
            fold_child: fold_child_f,
            map: map_f,
            summarize: summarize_f,
            collapse: collapse_f,
        };
        let mut at: Vec<u8> = Vec::new();
        push_slice(&mut at, self.origin_path());
        assert(at@ =~= self.origin() + self.rel());
        // A zipper without a root reads an empty trie, and that has a root.
        let exists = self.path_exists() || self.at_root();
        let ghost site = Site {
            whole: self.cata_trie(),
            shares: self.cata_shares(),
            base: self.cata_path(),
        };
        fold_focus(self.clone(), at, exists, &a, Ghost(site))
    }
}

} // verus!

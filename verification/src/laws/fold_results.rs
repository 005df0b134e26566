//! What folds give for functions that can be told by their results.

use vstd::prelude::*;

use crate::laws::counting::{
    below_byte, lemma_valued, lemma_valued_ascends, valued, valued_kids,
};
use crate::laws::paths::{law_members_in_order, law_rank_counts_smaller};
use crate::morphisms::{
    folded, holds, masks, outcome, passed_on, some_thing, summary, Algebra, Site,
};
use crate::trie::{chain, lemma_chain_concat, lemma_link, Trie};
use crate::trie_order::{count_vals, kids_vals, less};
use crate::utils::bits::{lemma_members, members, rank};
use crate::utils::byte_mask::ByteMask;

verus! {

/// What holds of the result for a place and of what its first children are put into.
#[verifier::reject_recursive_types(V)]
#[verifier::reject_recursive_types(Acc)]
#[verifier::reject_recursive_types(W)]
struct Claim<V, Acc, W> {
    /// Of the result for the place along a path, below bytes that were passed over.
    place: spec_fn(Seq<u8>, Trie<V>, Seq<u8>, W) -> bool,
    /// Of the result before the value of the place is added to it.
    bare: spec_fn(Seq<u8>, Trie<V>, Seq<u8>, W) -> bool,
    /// Of what the first children of the place are put into.
    part: spec_fn(Seq<u8>, Trie<V>, nat, Acc) -> bool,
}

/// The functions make results of which the claim holds of those of which it does.
spec fn keeps_claim<
    V,
    Acc,
    W: Clone,
    E,
    N: Fn(&ByteMask) -> Result<Acc, E>,
    F: Fn(&ByteMask, W, Acc) -> Result<Acc, E>,
    M: Fn(&V, &[u8], &[u8]) -> Result<W, E>,
    S: Fn(&ByteMask, Option<Acc>, &[u8], &[u8]) -> Result<W, E>,
    C: Fn(&V, W, &[u8]) -> Result<W, E>,
>(site: Site<V>, a: &Algebra<N, F, M, S, C>, c: Claim<V, Acc, W>) -> bool {
    &&& forall|p: Seq<u8>, t: Trie<V>, m: &ByteMask, acc: Acc|
        m@ == t.kids.dom() && #[trigger] call_ensures(a.new_acc, (m,), Ok::<Acc, E>(acc))
            ==> #[trigger] (c.part)(p, t, 0, acc)
    &&& forall|
        p: Seq<u8>,
        t: Trie<V>,
        n: nat,
        m: &ByteMask,
        p2: Seq<u8>,
        w: W,
        w2: W,
        acc: Acc,
        more: Acc,
    |
        n < members(t.kids.dom()).len() && m@ == t.kids.dom() && (c.part)(p, t, n, acc)
            && #[trigger] site.counts_for(p2, p.push(members(t.kids.dom())[n as int]))
            && #[trigger] (c.place)(
            p2,
            t.kids[members(t.kids.dom())[n as int]],
            Seq::empty(),
            w,
        ) && #[trigger] cloned(w, w2) && #[trigger] call_ensures(
            a.fold_child,
            (m, w2, acc),
            Ok::<Acc, E>(more),
        ) ==> #[trigger] (c.part)(p, t, n + 1, more)
    &&& forall|p: Seq<u8>, t: Trie<V>, v: V, l: &[u8], q: &[u8], w: W|
        t.kids.dom() == Set::<u8>::empty() && t.val == Some(v) && q@ == site.base + p
            && #[trigger] call_ensures(a.map, (&v, l, q), Ok::<W, E>(w)) ==> #[trigger] (c.place)(
            p,
            t,
            l@,
            w,
        )
    &&& forall|p: Seq<u8>, t: Trie<V>, m: &ByteMask, l: &[u8], q: &[u8], w: W|
        t.kids.dom() == Set::<u8>::empty() && m@ == t.kids.dom() && q@ == site.base + p
            && #[trigger] call_ensures(a.summarize, (m, None, l, q), Ok::<W, E>(w))
            ==> #[trigger] (c.bare)(p, t, l@, w)
    &&& forall|p: Seq<u8>, t: Trie<V>, m: &ByteMask, l: &[u8], q: &[u8], acc: Acc, w: W|
        m@ == t.kids.dom() && q@ == site.base + p && #[trigger] (c.part)(
            p,
            t,
            members(t.kids.dom()).len(),
            acc,
        ) && #[trigger] call_ensures(a.summarize, (m, Some(acc), l, q), Ok::<W, E>(w)) ==> (c.bare)(
            p,
            t,
            l@,
            w,
        )
    &&& forall|p: Seq<u8>, t: Trie<V>, prefix: Seq<u8>, v: V, q: &[u8], w: W, more: W|
        t.val == Some(v) && !t.is_link() && q@ == site.base + p && #[trigger] (c.bare)(
            p,
            t,
            prefix,
            w,
        ) && #[trigger] call_ensures(a.collapse, (&v, w, q), Ok::<W, E>(more)) ==> (c.place)(
            p,
            t,
            prefix,
            more,
        )
    &&& forall|p: Seq<u8>, t: Trie<V>, prefix: Seq<u8>, w: W|
        t.val is None && !t.is_link() && #[trigger] (c.bare)(p, t, prefix, w) ==> (c.place)(
            p,
            t,
            prefix,
            w,
        )
    &&& forall|p: Seq<u8>, t: Trie<V>, prefix: Seq<u8>, b: u8, w: W|
        t.is_link() && b == t.link_byte() && #[trigger] (c.place)(
            p.push(b),
            t.kids[b],
            prefix.push(b),
            w,
        ) ==> (c.place)(p, t, prefix, w)
}

/// A claim that the functions keep holds of the result for every place.
proof fn lemma_claim<
    V,
    Acc,
    W: Clone,
    E,
    N: Fn(&ByteMask) -> Result<Acc, E>,
    F: Fn(&ByteMask, W, Acc) -> Result<Acc, E>,
    M: Fn(&V, &[u8], &[u8]) -> Result<W, E>,
    S: Fn(&ByteMask, Option<Acc>, &[u8], &[u8]) -> Result<W, E>,
    C: Fn(&V, W, &[u8]) -> Result<W, E>,
>(
    site: Site<V>,
    p: Seq<u8>,
    t: Trie<V>,
    prefix: Seq<u8>,
    a: &Algebra<N, F, M, S, C>,
    c: Claim<V, Acc, W>,
    w: W,
)
    requires
        keeps_claim::<V, Acc, W, E, N, F, M, S, C>(site, a, c),
        outcome(site, p, t, prefix, a, Ok::<W, E>(w)),
    ensures
        (c.place)(p, t, prefix, w),
    decreases t, members(t.kids.dom()).len() + 2,
{
    let r = Ok::<W, E>(w);
    if t.is_link() {
        let b = t.link_byte();
        lemma_claim::<V, Acc, W, E, N, F, M, S, C>(site, p.push(b), t.kids[b], prefix.push(b), a, c, w);
    } else if t.kids.dom() == Set::<u8>::empty() && t.val is Some {
        let v = t.val->Some_0;
        let (l, q) = choose|l: &[u8], q: &[u8]| #[trigger]
            holds(l, prefix) && #[trigger] holds(q, site.base + p) && call_ensures(
                a.map,
                (&v, l, q),
                r,
            );
        assert((c.place)(p, t, l@, w));
    } else {
        let s = choose|s: Result<W, E>| #[trigger]
            some_thing(s) && summary(site, p, t, prefix, a, s) && match (t.val, s) {
                (Some(v), Ok(w)) => exists|q: &[u8]| #[trigger]
                    holds(q, site.base + p) && call_ensures(a.collapse, (&v, w, q), r),
                _ => r == s,
            };
        let x = s->Ok_0;
        lemma_claim_bare::<V, Acc, W, E, N, F, M, S, C>(site, p, t, prefix, a, c, x);
        if let Some(v) = t.val {
            let q = choose|q: &[u8]| #[trigger]
                holds(q, site.base + p) && call_ensures(a.collapse, (&v, x, q), r);
            assert(call_ensures(a.collapse, (&v, x, q), Ok::<W, E>(w)));
        }
    }
}

proof fn lemma_claim_bare<
    V,
    Acc,
    W: Clone,
    E,
    N: Fn(&ByteMask) -> Result<Acc, E>,
    F: Fn(&ByteMask, W, Acc) -> Result<Acc, E>,
    M: Fn(&V, &[u8], &[u8]) -> Result<W, E>,
    S: Fn(&ByteMask, Option<Acc>, &[u8], &[u8]) -> Result<W, E>,
    C: Fn(&V, W, &[u8]) -> Result<W, E>,
>(
    site: Site<V>,
    p: Seq<u8>,
    t: Trie<V>,
    prefix: Seq<u8>,
    a: &Algebra<N, F, M, S, C>,
    c: Claim<V, Acc, W>,
    w: W,
)
    requires
        keeps_claim::<V, Acc, W, E, N, F, M, S, C>(site, a, c),
        summary(site, p, t, prefix, a, Ok::<W, E>(w)),
    ensures
        (c.bare)(p, t, prefix, w),
    decreases t, members(t.kids.dom()).len() + 1,
{
    let kids = t.kids.dom();
    let r = Ok::<W, E>(w);
    let n = members(kids).len();
    let (m, l, q) = choose|m: ByteMask, l: &[u8], q: &[u8]| #[trigger]
        masks(m, kids) && #[trigger] holds(l, prefix) && #[trigger] holds(q, site.base + p)
            && if kids == Set::<u8>::empty() {
            call_ensures(a.summarize, (&m, None, l, q), r)
        } else {
            exists|acc: Result<Acc, E>| #[trigger]
                some_thing(acc) && folded(site, p, t, n, a, acc) && match acc {
                    Ok(acc) => call_ensures(a.summarize, (&m, Some(acc), l, q), r),
                    Err(e) => r == Err::<W, E>(e),
                }
        };
    if kids == Set::<u8>::empty() {
        assert((c.bare)(p, t, l@, w));
    } else {
        let acc = choose|acc: Result<Acc, E>| #[trigger]
            some_thing(acc) && folded(site, p, t, n, a, acc) && match acc {
                Ok(acc) => call_ensures(a.summarize, (&m, Some(acc), l, q), r),
                Err(e) => r == Err::<W, E>(e),
            };
        let x = acc->Ok_0;
        lemma_claim_part::<V, Acc, W, E, N, F, M, S, C>(site, p, t, n, a, c, x);
        assert((c.bare)(p, t, l@, w));
    }
}

proof fn lemma_claim_part<
    V,
    Acc,
    W: Clone,
    E,
    N: Fn(&ByteMask) -> Result<Acc, E>,
    F: Fn(&ByteMask, W, Acc) -> Result<Acc, E>,
    M: Fn(&V, &[u8], &[u8]) -> Result<W, E>,
    S: Fn(&ByteMask, Option<Acc>, &[u8], &[u8]) -> Result<W, E>,
    C: Fn(&V, W, &[u8]) -> Result<W, E>,
>(
    site: Site<V>,
    p: Seq<u8>,
    t: Trie<V>,
    n: nat,
    a: &Algebra<N, F, M, S, C>,
    c: Claim<V, Acc, W>,
    acc: Acc,
)
    requires
        keeps_claim::<V, Acc, W, E, N, F, M, S, C>(site, a, c),
        folded(site, p, t, n, a, Ok::<Acc, E>(acc)),
        n <= members(t.kids.dom()).len(),
    ensures
        (c.part)(p, t, n, acc),
    decreases t, n,
{
    let kids = t.kids.dom();
    let r = Ok::<Acc, E>(acc);
    if n == 0 {
        let m = choose|m: ByteMask| #[trigger] masks(m, kids) && call_ensures(a.new_acc, (&m,), r);
        assert((c.part)(p, t, 0, acc));
    } else {
        let k = (n - 1) as nat;
        let b = members(kids)[n - 1];
        let before = choose|before: Result<Acc, E>| #[trigger]
            some_thing(before) && folded(site, p, t, k, a, before) && step_from(
                site,
                p,
                t,
                n,
                a,
                before,
                r,
            );
        let x = before->Ok_0;
        lemma_claim_part::<V, Acc, W, E, N, F, M, S, C>(site, p, t, k, a, c, x);
        let (p2, w, w2) = choose|p2: Seq<u8>, w: Result<W, E>, w2: Result<W, E>|
            #[trigger] site.counts_for(p2, p.push(b)) && #[trigger] passed_on(w, w2) && outcome(
                site,
                p2,
                t.kids[b],
                Seq::empty(),
                a,
                w,
            ) && match w2 {
                Err(e) => r == Err::<Acc, E>(e),
                Ok(w2) => exists|m: ByteMask| #[trigger]
                    masks(m, kids) && call_ensures(a.fold_child, (&m, w2, x), r),
            };
        let (y, y2) = (w->Ok_0, w2->Ok_0);
        lemma_claim::<V, Acc, W, E, N, F, M, S, C>(site, p2, t.kids[b], Seq::empty(), a, c, y);
        let m = choose|m: ByteMask| #[trigger]
            masks(m, kids) && call_ensures(a.fold_child, (&m, y2, x), r);
        assert(cloned(y, y2));
        assert(b == members(kids)[k as int]);
        assert((c.part)(p, t, k + 1, acc));
    }
}

spec fn step_from<
    V,
    Acc,
    W: Clone,
    E,
    N: Fn(&ByteMask) -> Result<Acc, E>,
    F: Fn(&ByteMask, W, Acc) -> Result<Acc, E>,
    M: Fn(&V, &[u8], &[u8]) -> Result<W, E>,
    S: Fn(&ByteMask, Option<Acc>, &[u8], &[u8]) -> Result<W, E>,
    C: Fn(&V, W, &[u8]) -> Result<W, E>,
>(
    site: Site<V>,
    p: Seq<u8>,
    t: Trie<V>,
    n: nat,
    a: &Algebra<N, F, M, S, C>,
    before: Result<Acc, E>,
    r: Result<Acc, E>,
) -> bool {
    let kids = t.kids.dom();
    let b = members(kids)[n - 1];
    match before {
        Err(e) => r == Err::<Acc, E>(e),
        Ok(acc) => t.kids.contains_key(b) && exists|
            p2: Seq<u8>,
            w: Result<W, E>,
            w2: Result<W, E>,
        |
            #[trigger] site.counts_for(p2, p.push(b)) && #[trigger] passed_on(w, w2) && outcome(
                site,
                p2,
                t.kids[b],
                Seq::empty(),
                a,
                w,
            ) && match w2 {
                Err(e) => r == Err::<Acc, E>(e),
                Ok(w2) => exists|m: ByteMask| #[trigger]
                    masks(m, kids) && call_ensures(a.fold_child, (&m, w2, acc), r),
            },
    }
}

/// The functions count values: each gives one more for a value, and the sum for children.
pub open spec fn counts_values<
    V,
    Acc,
    W: Clone,
    E,
    N: Fn(&ByteMask) -> Result<Acc, E>,
    F: Fn(&ByteMask, W, Acc) -> Result<Acc, E>,
    M: Fn(&V, &[u8], &[u8]) -> Result<W, E>,
    S: Fn(&ByteMask, Option<Acc>, &[u8], &[u8]) -> Result<W, E>,
    C: Fn(&V, W, &[u8]) -> Result<W, E>,
>(
    a: &Algebra<N, F, M, S, C>,
    of: spec_fn(W) -> nat,
    of_acc: spec_fn(Acc) -> nat,
) -> bool {
    &&& forall|m: &ByteMask, acc: Acc| #[trigger]
        call_ensures(a.new_acc, (m,), Ok::<Acc, E>(acc)) ==> of_acc(acc) == 0
    &&& forall|m: &ByteMask, w: W, acc: Acc, more: Acc| #[trigger]
        call_ensures(a.fold_child, (m, w, acc), Ok::<Acc, E>(more)) ==> of_acc(more) == of_acc(acc)
            + of(w)
    &&& forall|v: &V, l: &[u8], q: &[u8], w: W| #[trigger]
        call_ensures(a.map, (v, l, q), Ok::<W, E>(w)) ==> of(w) == 1
    &&& forall|m: &ByteMask, acc: Option<Acc>, l: &[u8], q: &[u8], w: W| #[trigger]
        call_ensures(a.summarize, (m, acc, l, q), Ok::<W, E>(w)) ==> of(w) == match acc {
            Some(acc) => of_acc(acc),
            None => 0,
        }
    &&& forall|v: &V, w: W, q: &[u8], more: W| #[trigger]
        call_ensures(a.collapse, (v, w, q), Ok::<W, E>(more)) ==> of(more) == 1 + of(w)
    &&& forall|w: W, x: W| #[trigger] cloned(w, x) ==> of(w) == of(x)
}

/// A fold by functions that count gives the number of values: each is passed to `map` or to
/// `collapse`, and to one of them once, also below places that are shared.
pub proof fn law_fold_counts_values<
    V,
    Acc,
    W: Clone,
    E,
    N: Fn(&ByteMask) -> Result<Acc, E>,
    F: Fn(&ByteMask, W, Acc) -> Result<Acc, E>,
    M: Fn(&V, &[u8], &[u8]) -> Result<W, E>,
    S: Fn(&ByteMask, Option<Acc>, &[u8], &[u8]) -> Result<W, E>,
    C: Fn(&V, W, &[u8]) -> Result<W, E>,
>(
    site: Site<V>,
    p: Seq<u8>,
    t: Trie<V>,
    prefix: Seq<u8>,
    a: &Algebra<N, F, M, S, C>,
    of: spec_fn(W) -> nat,
    of_acc: spec_fn(Acc) -> nat,
    w: W,
)
    requires
        counts_values::<V, Acc, W, E, N, F, M, S, C>(a, of, of_acc),
        outcome(site, p, t, prefix, a, Ok::<W, E>(w)),
    ensures
        of(w) == count_vals(t),
{
    let c = Claim::<V, Acc, W> {
        place: |p: Seq<u8>, t: Trie<V>, l: Seq<u8>, w: W| of(w) == count_vals(t),
        bare: |p: Seq<u8>, t: Trie<V>, l: Seq<u8>, w: W| of(w) == kids_vals(t, 256),
        part: |p: Seq<u8>, t: Trie<V>, n: nat, acc: Acc| of_acc(acc) == vals_of_first(t, n),
    };
    assert forall|
        p: Seq<u8>,
        t: Trie<V>,
        n: nat,
        m: &ByteMask,
        p2: Seq<u8>,
        w: W,
        w2: W,
        acc: Acc,
        more: Acc,
    |
        n < members(t.kids.dom()).len() && m@ == t.kids.dom() && (c.part)(p, t, n, acc)
            && #[trigger] site.counts_for(p2, p.push(members(t.kids.dom())[n as int]))
            && #[trigger] (c.place)(
            p2,
            t.kids[members(t.kids.dom())[n as int]],
            Seq::empty(),
            w,
        ) && #[trigger] cloned(w, w2) && #[trigger] call_ensures(
            a.fold_child,
            (m, w2, acc),
            Ok::<Acc, E>(more),
        ) implies #[trigger] (c.part)(p, t, n + 1, more) by {
        lemma_first_vals(t, n);
    }
    assert forall|p: Seq<u8>, t: Trie<V>, v: V, l: &[u8], q: &[u8], w: W|
        t.kids.dom() == Set::<u8>::empty() && t.val == Some(v) && q@ == site.base + p
            && #[trigger] call_ensures(a.map, (&v, l, q), Ok::<W, E>(w)) implies #[trigger] (
    c.place)(p, t, l@, w) by {
        lemma_vals_gap(t, 0, 256);
    }
    assert forall|p: Seq<u8>, t: Trie<V>, m: &ByteMask, l: &[u8], q: &[u8], w: W|
        t.kids.dom() == Set::<u8>::empty() && m@ == t.kids.dom() && q@ == site.base + p
            && #[trigger] call_ensures(a.summarize, (m, None, l, q), Ok::<W, E>(w)) implies
        #[trigger] (c.bare)(p, t, l@, w) by {
        lemma_vals_gap(t, 0, 256);
    }
    assert forall|p: Seq<u8>, t: Trie<V>, m: &ByteMask, l: &[u8], q: &[u8], acc: Acc, w: W|
        m@ == t.kids.dom() && q@ == site.base + p && #[trigger] (c.part)(
            p,
            t,
            members(t.kids.dom()).len(),
            acc,
        ) && #[trigger] call_ensures(
            a.summarize,
            (m, Some(acc), l, q),
            Ok::<W, E>(w),
        ) implies (c.bare)(p, t, l@, w) by {
        lemma_all_vals(t);
    }
    assert forall|p: Seq<u8>, t: Trie<V>, prefix: Seq<u8>, b: u8, w: W|
        t.is_link() && b == t.link_byte() && #[trigger] (c.place)(
            p.push(b),
            t.kids[b],
            prefix.push(b),
            w,
        ) implies (c.place)(p, t, prefix, w) by {
        lemma_link(t);
        lemma_vals_gap(t, 0, b as nat);
        lemma_vals_gap(t, (b + 1) as nat, 256);
    }
    lemma_claim::<V, Acc, W, E, N, F, M, S, C>(site, p, t, prefix, a, c, w);
}

/// How many values are below the first `n` of the bytes that lead on.
spec fn vals_of_first<V>(t: Trie<V>, n: nat) -> nat {
    if n == 0 {
        0
    } else {
        kids_vals(t, (members(t.kids.dom())[n - 1] + 1) as nat)
    }
}

proof fn lemma_vals_gap<V>(t: Trie<V>, m: nat, n: nat)
    requires
        m <= n <= 256,
        forall|b: u8| m <= b < n ==> !#[trigger] t.kids.contains_key(b),
    ensures
        kids_vals(t, n) == kids_vals(t, m),
    decreases n,
{
    if m < n {
        lemma_vals_gap(t, m, (n - 1) as nat);
        assert(!t.kids.contains_key((n - 1) as u8));
    }
}

/// Between two members that are listed one behind the other there is none.
proof fn lemma_no_member_between(s: Set<u8>, n: nat, c: u8)
    requires
        n <= members(s).len(),
        n > 0 ==> members(s)[n - 1] < c,
        n < members(s).len() ==> c < members(s)[n as int],
    ensures
        !s.contains(c),
{
    law_members_in_order(s);
    if s.contains(c) {
        assert(members(s).contains(c));
        let i = choose|i: int| 0 <= i < members(s).len() && members(s)[i] == c;
    }
}

proof fn lemma_first_vals<V>(t: Trie<V>, n: nat)
    requires
        n < members(t.kids.dom()).len(),
    ensures
        vals_of_first(t, n + 1) == vals_of_first(t, n) + count_vals(
            t.kids[members(t.kids.dom())[n as int]],
        ),
{
    let s = t.kids.dom();
    let b = members(s)[n as int];
    law_members_in_order(s);
    assert(members(s).contains(b));
    let from: nat = if n == 0 {
        0
    } else {
        (members(s)[n - 1] + 1) as nat
    };
    assert forall|c: u8| from <= c < b implies !#[trigger] t.kids.contains_key(c) by {
        lemma_no_member_between(s, n, c);
    }
    lemma_vals_gap(t, from, b as nat);
    assert(s.contains(b));
}

proof fn lemma_all_vals<V>(t: Trie<V>)
    ensures
        vals_of_first(t, members(t.kids.dom()).len()) == kids_vals(t, 256),
{
    let s = t.kids.dom();
    let n = members(s).len();
    law_members_in_order(s);
    let from: nat = if n == 0 {
        0
    } else {
        (members(s)[n - 1] + 1) as nat
    };
    assert forall|c: u8| from <= c < 256 implies !#[trigger] t.kids.contains_key(c) by {
        lemma_no_member_between(s, n, c);
    }
    lemma_vals_gap(t, from, 256);
}

/// The paths `l` are those of the values of `t`, in order.
pub open spec fn lists_paths<V>(l: Seq<Seq<u8>>, t: Trie<V>) -> bool {
    &&& forall|i: int, j: int| 0 <= i < j < l.len() ==> less(#[trigger] l[i], #[trigger] l[j])
    &&& forall|x: Seq<u8>| #[trigger] l.contains(x) <==> t.get(x) is Some
}

/// The functions list what `see` makes of each value and of the path they are told with it: a value
/// before those below it, and the children one after the other.
pub open spec fn lists_values<
    V,
    X,
    Acc,
    W: Clone,
    E,
    N: Fn(&ByteMask) -> Result<Acc, E>,
    F: Fn(&ByteMask, W, Acc) -> Result<Acc, E>,
    M: Fn(&V, &[u8], &[u8]) -> Result<W, E>,
    S: Fn(&ByteMask, Option<Acc>, &[u8], &[u8]) -> Result<W, E>,
    C: Fn(&V, W, &[u8]) -> Result<W, E>,
>(
    a: &Algebra<N, F, M, S, C>,
    see: spec_fn(Seq<u8>, V) -> X,
    of: spec_fn(W) -> Seq<X>,
    of_acc: spec_fn(Acc) -> Seq<X>,
) -> bool {
    &&& forall|m: &ByteMask, acc: Acc| #[trigger]
        call_ensures(a.new_acc, (m,), Ok::<Acc, E>(acc)) ==> of_acc(acc) == Seq::<X>::empty()
    &&& forall|m: &ByteMask, w: W, acc: Acc, more: Acc| #[trigger]
        call_ensures(a.fold_child, (m, w, acc), Ok::<Acc, E>(more)) ==> of_acc(more) == of_acc(acc)
            + of(w)
    &&& forall|v: &V, l: &[u8], q: &[u8], w: W| #[trigger]
        call_ensures(a.map, (v, l, q), Ok::<W, E>(w)) ==> of(w) == seq![see(q@, *v)]
    &&& forall|m: &ByteMask, acc: Option<Acc>, l: &[u8], q: &[u8], w: W| #[trigger]
        call_ensures(a.summarize, (m, acc, l, q), Ok::<W, E>(w)) ==> of(w) == match acc {
            Some(acc) => of_acc(acc),
            None => Seq::<X>::empty(),
        }
    &&& forall|v: &V, w: W, q: &[u8], more: W| #[trigger]
        call_ensures(a.collapse, (v, w, q), Ok::<W, E>(more)) ==> of(more) == seq![see(q@, *v)]
            + of(w)
    &&& forall|w: W, x: W| #[trigger] cloned(w, x) ==> of(w) == of(x)
}

/// What `see` makes of a value does not depend on along which of the paths that share a place it was
/// found.
pub open spec fn sees_same<V, X>(site: Site<V>, see: spec_fn(Seq<u8>, V) -> X) -> bool {
    forall|p2: Seq<u8>, p: Seq<u8>, x: Seq<u8>, v: V| #[trigger]
        site.counts_for(p2, p) ==> #[trigger] see(site.base + p2 + x, v) == see(
            site.base + p + x,
            v,
        )
}

/// What is seen of the values at the ends of `l`.
spec fn seen<V, X>(see: spec_fn(Seq<u8>, V) -> X, base: Seq<u8>, t: Trie<V>, l: Seq<Seq<u8>>) -> Seq<
    X,
> {
    Seq::new(l.len(), |i: int| see(base + l[i], t.get(l[i])->Some_0))
}

/// A fold by functions that list gives all the values, each once, in the order of their paths, and
/// tells of each the path that leads to it.
pub proof fn law_fold_lists_values<
    V,
    X,
    Acc,
    W: Clone,
    E,
    N: Fn(&ByteMask) -> Result<Acc, E>,
    F: Fn(&ByteMask, W, Acc) -> Result<Acc, E>,
    M: Fn(&V, &[u8], &[u8]) -> Result<W, E>,
    S: Fn(&ByteMask, Option<Acc>, &[u8], &[u8]) -> Result<W, E>,
    C: Fn(&V, W, &[u8]) -> Result<W, E>,
>(
    site: Site<V>,
    p: Seq<u8>,
    t: Trie<V>,
    prefix: Seq<u8>,
    a: &Algebra<N, F, M, S, C>,
    see: spec_fn(Seq<u8>, V) -> X,
    of: spec_fn(W) -> Seq<X>,
    of_acc: spec_fn(Acc) -> Seq<X>,
    w: W,
)
    requires
        lists_values::<V, X, Acc, W, E, N, F, M, S, C>(a, see, of, of_acc),
        sees_same(site, see),
        outcome(site, p, t, prefix, a, Ok::<W, E>(w)),
    ensures
        exists|l: Seq<Seq<u8>>| #[trigger]
            lists_paths(l, t) && of(w).len() == l.len() && forall|i: int|
                0 <= i < l.len() ==> #[trigger] of(w)[i] == see(
                    site.base + p + l[i],
                    t.get(l[i])->Some_0,
                ),
{
    let base = site.base;
    let c = Claim::<V, Acc, W> {
        place: |p: Seq<u8>, t: Trie<V>, l: Seq<u8>, w: W|
            of(w) == seen(see, base + p, t, valued(t)),
        bare: |p: Seq<u8>, t: Trie<V>, l: Seq<u8>, w: W|
            of(w) == seen(see, base + p, t, valued_kids(t, 256)),
        part: |p: Seq<u8>, t: Trie<V>, n: nat, acc: Acc|
            of_acc(acc) == seen(see, base + p, t, paths_of_first(t, n)),
    };
    assert forall|p: Seq<u8>, t: Trie<V>, m: &ByteMask, acc: Acc|
        m@ == t.kids.dom() && #[trigger] call_ensures(
            a.new_acc,
            (m,),
            Ok::<Acc, E>(acc),
        ) implies #[trigger] (c.part)(p, t, 0, acc) by {
        assert(seen(see, base + p, t, paths_of_first(t, 0)) =~= Seq::empty());
    }
    assert forall|
        p: Seq<u8>,
        t: Trie<V>,
        n: nat,
        m: &ByteMask,
        p2: Seq<u8>,
        w: W,
        w2: W,
        acc: Acc,
        more: Acc,
    |
        n < members(t.kids.dom()).len() && m@ == t.kids.dom() && (c.part)(p, t, n, acc)
            && #[trigger] site.counts_for(p2, p.push(members(t.kids.dom())[n as int]))
            && #[trigger] (c.place)(
            p2,
            t.kids[members(t.kids.dom())[n as int]],
            Seq::empty(),
            w,
        ) && #[trigger] cloned(w, w2) && #[trigger] call_ensures(
            a.fold_child,
            (m, w2, acc),
            Ok::<Acc, E>(more),
        ) implies #[trigger] (c.part)(p, t, n + 1, more) by {
        let b = members(t.kids.dom())[n as int];
        lemma_first_paths(t, n);
        lemma_seen_below(site, see, p2, p, t, b);
        let (x, y) = (paths_of_first(t, n), below_byte(b, valued(t.kids[b])));
        assert(seen(see, base + p, t, x + y) =~= seen(see, base + p, t, x) + seen(
            see,
            base + p,
            t,
            y,
        ));
    }
    assert forall|p: Seq<u8>, t: Trie<V>, v: V, l: &[u8], q: &[u8], w: W|
        t.kids.dom() == Set::<u8>::empty() && t.val == Some(v) && q@ == site.base + p
            && #[trigger] call_ensures(a.map, (&v, l, q), Ok::<W, E>(w)) implies #[trigger] (
    c.place)(p, t, l@, w) by {
        lemma_paths_gap(t, 0, 256);
        assert(base + p + Seq::<u8>::empty() =~= base + p);
        assert(t.at(Seq::empty()) == Some(t));
        assert(of(w) =~= seen(see, base + p, t, valued(t)));
    }
    assert forall|p: Seq<u8>, t: Trie<V>, m: &ByteMask, l: &[u8], q: &[u8], w: W|
        t.kids.dom() == Set::<u8>::empty() && m@ == t.kids.dom() && q@ == site.base + p
            && #[trigger] call_ensures(a.summarize, (m, None, l, q), Ok::<W, E>(w)) implies
        #[trigger] (c.bare)(p, t, l@, w) by {
        lemma_paths_gap(t, 0, 256);
        assert(of(w) =~= seen(see, base + p, t, valued_kids(t, 256)));
    }
    assert forall|p: Seq<u8>, t: Trie<V>, m: &ByteMask, l: &[u8], q: &[u8], acc: Acc, w: W|
        m@ == t.kids.dom() && q@ == site.base + p && #[trigger] (c.part)(
            p,
            t,
            members(t.kids.dom()).len(),
            acc,
        ) && #[trigger] call_ensures(
            a.summarize,
            (m, Some(acc), l, q),
            Ok::<W, E>(w),
        ) implies (c.bare)(p, t, l@, w) by {
        lemma_all_paths(t);
    }
    assert forall|p: Seq<u8>, t: Trie<V>, prefix: Seq<u8>, v: V, q: &[u8], w: W, more: W|
        t.val == Some(v) && !t.is_link() && q@ == site.base + p && #[trigger] (c.bare)(
            p,
            t,
            prefix,
            w,
        ) && #[trigger] call_ensures(a.collapse, (&v, w, q), Ok::<W, E>(more)) implies (c.place)(
        p,
        t,
        prefix,
        more,
    ) by {
        assert(base + p + Seq::<u8>::empty() =~= base + p);
        assert(t.at(Seq::empty()) == Some(t));
        assert(of(more) =~= seen(see, base + p, t, valued(t)));
    }
    assert forall|p: Seq<u8>, t: Trie<V>, prefix: Seq<u8>, w: W|
        t.val is None && !t.is_link() && #[trigger] (c.bare)(p, t, prefix, w) implies (c.place)(
        p,
        t,
        prefix,
        w,
    ) by {
        assert(valued(t) =~= valued_kids(t, 256));
    }
    assert forall|p: Seq<u8>, t: Trie<V>, prefix: Seq<u8>, b: u8, w: W|
        t.is_link() && b == t.link_byte() && #[trigger] (c.place)(
            p.push(b),
            t.kids[b],
            prefix.push(b),
            w,
        ) implies (c.place)(p, t, prefix, w) by {
        lemma_link(t);
        lemma_paths_gap(t, 0, b as nat);
        lemma_paths_gap(t, (b + 1) as nat, 256);
        assert(valued(t) =~= below_byte(b, valued(t.kids[b])));
        lemma_seen_below(site, see, p.push(b), p, t, b);
    }
    lemma_claim::<V, Acc, W, E, N, F, M, S, C>(site, p, t, prefix, a, c, w);
    let l = valued(t);
    lemma_valued(t);
    lemma_valued_ascends(t);
    assert(lists_paths(l, t));
    assert(of(w) == seen(see, base + p, t, l));
}

/// What is seen of a child along a path that counts for its own is what is seen of its values.
proof fn lemma_seen_below<V, X>(
    site: Site<V>,
    see: spec_fn(Seq<u8>, V) -> X,
    p2: Seq<u8>,
    p: Seq<u8>,
    t: Trie<V>,
    b: u8,
)
    requires
        sees_same(site, see),
        site.counts_for(p2, p.push(b)),
        t.kids.contains_key(b),
    ensures
        seen(see, site.base + p2, t.kids[b], valued(t.kids[b])) == seen(
            see,
            site.base + p,
            t,
            below_byte(b, valued(t.kids[b])),
        ),
{
    let l = valued(t.kids[b]);
    let k = below_byte(b, l);
    assert forall|i: int| 0 <= i < l.len() implies see(
        site.base + p2 + l[i],
        t.kids[b].get(l[i])->Some_0,
    ) == see(site.base + p + k[i], t.get(k[i])->Some_0) by {
        let v = t.kids[b].get(l[i])->Some_0;
        assert(k[i].drop_first() =~= l[i]);
        assert(t.get(k[i]) == t.kids[b].get(l[i]));
        assert(site.base + p + k[i] =~= site.base + p.push(b) + l[i]);
        assert(see(site.base + p2 + l[i], v) == see(site.base + p.push(b) + l[i], v));
    }
    assert(seen(see, site.base + p2, t.kids[b], l) =~= seen(see, site.base + p, t, k));
}

/// The paths of the values below the first `n` of the bytes that lead on.
spec fn paths_of_first<V>(t: Trie<V>, n: nat) -> Seq<Seq<u8>> {
    if n == 0 {
        Seq::empty()
    } else {
        valued_kids(t, (members(t.kids.dom())[n - 1] + 1) as nat)
    }
}

proof fn lemma_paths_gap<V>(t: Trie<V>, m: nat, n: nat)
    requires
        m <= n <= 256,
        forall|b: u8| m <= b < n ==> !#[trigger] t.kids.contains_key(b),
    ensures
        valued_kids(t, n) == valued_kids(t, m),
    decreases n,
{
    if m < n {
        lemma_paths_gap(t, m, (n - 1) as nat);
        assert(!t.kids.contains_key((n - 1) as u8));
        assert(valued_kids(t, n) =~= valued_kids(t, (n - 1) as nat));
    }
}

proof fn lemma_first_paths<V>(t: Trie<V>, n: nat)
    requires
        n < members(t.kids.dom()).len(),
    ensures
        t.kids.contains_key(members(t.kids.dom())[n as int]),
        paths_of_first(t, n + 1) == paths_of_first(t, n) + below_byte(
            members(t.kids.dom())[n as int],
            valued(t.kids[members(t.kids.dom())[n as int]]),
        ),
{
    let s = t.kids.dom();
    let b = members(s)[n as int];
    law_members_in_order(s);
    assert(members(s).contains(b));
    let from: nat = if n == 0 {
        0
    } else {
        (members(s)[n - 1] + 1) as nat
    };
    assert forall|c: u8| from <= c < b implies !#[trigger] t.kids.contains_key(c) by {
        lemma_no_member_between(s, n, c);
    }
    lemma_paths_gap(t, from, b as nat);
    assert(s.contains(b));
}

proof fn lemma_all_paths<V>(t: Trie<V>)
    ensures
        paths_of_first(t, members(t.kids.dom()).len()) == valued_kids(t, 256),
{
    let s = t.kids.dom();
    let n = members(s).len();
    law_members_in_order(s);
    let from: nat = if n == 0 {
        0
    } else {
        (members(s)[n - 1] + 1) as nat
    };
    assert forall|c: u8| from <= c < 256 implies !#[trigger] t.kids.contains_key(c) by {
        lemma_no_member_between(s, n, c);
    }
    lemma_paths_gap(t, from, 256);
}

/// The functions put a trie together again: the result for a place is the bytes that were passed over
/// and the place below them.
pub open spec fn rebuilds<
    V,
    Acc,
    W: Clone,
    E,
    N: Fn(&ByteMask) -> Result<Acc, E>,
    F: Fn(&ByteMask, W, Acc) -> Result<Acc, E>,
    M: Fn(&V, &[u8], &[u8]) -> Result<W, E>,
    S: Fn(&ByteMask, Option<Acc>, &[u8], &[u8]) -> Result<W, E>,
    C: Fn(&V, W, &[u8]) -> Result<W, E>,
>(
    a: &Algebra<N, F, M, S, C>,
    of: spec_fn(W) -> (Seq<u8>, Trie<V>),
    of_acc: spec_fn(Acc) -> (Set<u8>, Seq<Trie<V>>),
) -> bool {
    &&& forall|m: &ByteMask, acc: Acc| #[trigger]
        call_ensures(a.new_acc, (m,), Ok::<Acc, E>(acc)) ==> of_acc(acc) == (
            m@,
            Seq::<Trie<V>>::empty(),
        )
    &&& forall|m: &ByteMask, w: W, acc: Acc, more: Acc| #[trigger]
        call_ensures(a.fold_child, (m, w, acc), Ok::<Acc, E>(more)) ==> (m@ == of_acc(acc).0
            ==> of_acc(more) == (m@, of_acc(acc).1.push(chain(of(w).0, of(w).1))))
    &&& forall|v: &V, l: &[u8], q: &[u8], w: W| #[trigger]
        call_ensures(a.map, (v, l, q), Ok::<W, E>(w)) ==> of(w) == (l@, Trie::leaf(Some(*v)))
    &&& forall|m: &ByteMask, l: &[u8], q: &[u8], w: W| #[trigger]
        call_ensures(a.summarize, (m, None, l, q), Ok::<W, E>(w)) ==> (m@ == Set::<u8>::empty()
            ==> of(w) == (l@, Trie::<V>::empty()))
    &&& forall|m: &ByteMask, acc: Acc, l: &[u8], q: &[u8], w: W| #[trigger]
        call_ensures(a.summarize, (m, Some(acc), l, q), Ok::<W, E>(w)) ==> (m@ == of_acc(acc).0
            ==> of(w) == (
            l@,
            Trie::<V> { val: None, kids: in_places(m@, of_acc(acc).1) },
        ))
    &&& forall|v: &V, w: W, q: &[u8], more: W| #[trigger]
        call_ensures(a.collapse, (v, w, q), Ok::<W, E>(more)) ==> of(more) == (
            of(w).0,
            Trie { val: Some(*v), kids: of(w).1.kids },
        )
    &&& forall|w: W, x: W| #[trigger] cloned(w, x) ==> of(w) == of(x)
}

/// The children in `l`, each at the byte that comes in its turn.
pub open spec fn in_places<V>(s: Set<u8>, l: Seq<Trie<V>>) -> Map<u8, Trie<V>> {
    Map::new(|b: u8| s.contains(b), |b: u8| l[s.filter(|c: u8| c < b).len() as int])
}

/// A fold by functions that put tries together again gives back the trie: they are told all that is
/// in it.
pub proof fn law_fold_rebuilds<
    V,
    Acc,
    W: Clone,
    E,
    N: Fn(&ByteMask) -> Result<Acc, E>,
    F: Fn(&ByteMask, W, Acc) -> Result<Acc, E>,
    M: Fn(&V, &[u8], &[u8]) -> Result<W, E>,
    S: Fn(&ByteMask, Option<Acc>, &[u8], &[u8]) -> Result<W, E>,
    C: Fn(&V, W, &[u8]) -> Result<W, E>,
>(
    site: Site<V>,
    p: Seq<u8>,
    t: Trie<V>,
    a: &Algebra<N, F, M, S, C>,
    of: spec_fn(W) -> (Seq<u8>, Trie<V>),
    of_acc: spec_fn(Acc) -> (Set<u8>, Seq<Trie<V>>),
    w: W,
)
    requires
        rebuilds::<V, Acc, W, E, N, F, M, S, C>(a, of, of_acc),
        outcome(site, p, t, Seq::empty(), a, Ok::<W, E>(w)),
    ensures
        chain(of(w).0, of(w).1) == t,
        !of(w).1.is_link(),
{
    let c = Claim::<V, Acc, W> {
        place: |p: Seq<u8>, t: Trie<V>, l: Seq<u8>, w: W|
            chain(of(w).0, of(w).1) == chain(l, t) && !of(w).1.is_link(),
        bare: |p: Seq<u8>, t: Trie<V>, l: Seq<u8>, w: W|
            of(w) == (l, Trie::<V> { val: None, kids: t.kids }),
        part: |p: Seq<u8>, t: Trie<V>, n: nat, acc: Acc| of_acc(acc) == (t.kids.dom(), first_kids(t, n)),
    };
    assert forall|p: Seq<u8>, t: Trie<V>, m: &ByteMask, acc: Acc|
        m@ == t.kids.dom() && #[trigger] call_ensures(
            a.new_acc,
            (m,),
            Ok::<Acc, E>(acc),
        ) implies #[trigger] (c.part)(p, t, 0, acc) by {
        assert(first_kids(t, 0) =~= Seq::empty());
    }
    assert forall|
        p: Seq<u8>,
        t: Trie<V>,
        n: nat,
        m: &ByteMask,
        p2: Seq<u8>,
        w: W,
        w2: W,
        acc: Acc,
        more: Acc,
    |
        n < members(t.kids.dom()).len() && m@ == t.kids.dom() && (c.part)(p, t, n, acc)
            && #[trigger] site.counts_for(p2, p.push(members(t.kids.dom())[n as int]))
            && #[trigger] (c.place)(
            p2,
            t.kids[members(t.kids.dom())[n as int]],
            Seq::empty(),
            w,
        ) && #[trigger] cloned(w, w2) && #[trigger] call_ensures(
            a.fold_child,
            (m, w2, acc),
            Ok::<Acc, E>(more),
        ) implies #[trigger] (c.part)(p, t, n + 1, more) by {
        let kid = t.kids[members(t.kids.dom())[n as int]];
        assert(first_kids(t, n + 1) =~= first_kids(t, n).push(kid));
    }
    assert forall|p: Seq<u8>, t: Trie<V>, v: V, l: &[u8], q: &[u8], w: W|
        t.kids.dom() == Set::<u8>::empty() && t.val == Some(v) && q@ == site.base + p
            && #[trigger] call_ensures(a.map, (&v, l, q), Ok::<W, E>(w)) implies #[trigger] (
    c.place)(p, t, l@, w) by {
        assert(t.kids =~= Map::empty());
        assert(t == Trie::leaf(Some(v)));
    }
    assert forall|p: Seq<u8>, t: Trie<V>, m: &ByteMask, l: &[u8], q: &[u8], w: W|
        t.kids.dom() == Set::<u8>::empty() && m@ == t.kids.dom() && q@ == site.base + p
            && #[trigger] call_ensures(a.summarize, (m, None, l, q), Ok::<W, E>(w)) implies
        #[trigger] (c.bare)(p, t, l@, w) by {
        assert(t.kids =~= Map::empty());
    }
    assert forall|p: Seq<u8>, t: Trie<V>, m: &ByteMask, l: &[u8], q: &[u8], acc: Acc, w: W|
        m@ == t.kids.dom() && q@ == site.base + p && #[trigger] (c.part)(
            p,
            t,
            members(t.kids.dom()).len(),
            acc,
        ) && #[trigger] call_ensures(
            a.summarize,
            (m, Some(acc), l, q),
            Ok::<W, E>(w),
        ) implies (c.bare)(p, t, l@, w) by {
        lemma_in_places(t);
    }
    assert forall|p: Seq<u8>, t: Trie<V>, prefix: Seq<u8>, b: u8, w: W|
        t.is_link() && b == t.link_byte() && #[trigger] (c.place)(
            p.push(b),
            t.kids[b],
            prefix.push(b),
            w,
        ) implies (c.place)(p, t, prefix, w) by {
        lemma_link(t);
        lemma_chain_concat(prefix, seq![b], t.kids[b]);
        assert(prefix + seq![b] =~= prefix.push(b));
    }
    lemma_claim::<V, Acc, W, E, N, F, M, S, C>(site, p, t, Seq::empty(), a, c, w);
}

/// The first `n` children.
spec fn first_kids<V>(t: Trie<V>, n: nat) -> Seq<Trie<V>> {
    Seq::new(n, |i: int| t.kids[members(t.kids.dom())[i]])
}

proof fn lemma_in_places<V>(t: Trie<V>)
    ensures
        in_places(t.kids.dom(), first_kids(t, members(t.kids.dom()).len())) == t.kids,
{
    let s = t.kids.dom();
    let l = first_kids(t, members(s).len());
    lemma_members(s);
    assert forall|b: u8| s.contains(b) implies #[trigger] in_places(s, l)[b] == t.kids[b] by {
        law_rank_counts_smaller(s, b);
        assert(rank(s, b as nat) < rank(s, 256));
    }
    assert(in_places(s, l) =~= t.kids);
}

/// All errors that the functions give are such as `told` tells.
pub open spec fn errors_are<
    V,
    Acc,
    W: Clone,
    E,
    N: Fn(&ByteMask) -> Result<Acc, E>,
    F: Fn(&ByteMask, W, Acc) -> Result<Acc, E>,
    M: Fn(&V, &[u8], &[u8]) -> Result<W, E>,
    S: Fn(&ByteMask, Option<Acc>, &[u8], &[u8]) -> Result<W, E>,
    C: Fn(&V, W, &[u8]) -> Result<W, E>,
>(a: &Algebra<N, F, M, S, C>, told: spec_fn(E) -> bool) -> bool {
    &&& forall|m: &ByteMask, e: E| #[trigger]
        call_ensures(a.new_acc, (m,), Err::<Acc, E>(e)) ==> told(e)
    &&& forall|m: &ByteMask, w: W, acc: Acc, e: E| #[trigger]
        call_ensures(a.fold_child, (m, w, acc), Err::<Acc, E>(e)) ==> told(e)
    &&& forall|v: &V, l: &[u8], q: &[u8], e: E| #[trigger]
        call_ensures(a.map, (v, l, q), Err::<W, E>(e)) ==> told(e)
    &&& forall|m: &ByteMask, acc: Option<Acc>, l: &[u8], q: &[u8], e: E| #[trigger]
        call_ensures(a.summarize, (m, acc, l, q), Err::<W, E>(e)) ==> told(e)
    &&& forall|v: &V, w: W, q: &[u8], e: E| #[trigger]
        call_ensures(a.collapse, (v, w, q), Err::<W, E>(e)) ==> told(e)
}

/// A fold fails only with an error that one of the functions gave. So it succeeds where none of them
/// fails.
pub proof fn law_errors_come_from_the_functions<
    V,
    Acc,
    W: Clone,
    E,
    N: Fn(&ByteMask) -> Result<Acc, E>,
    F: Fn(&ByteMask, W, Acc) -> Result<Acc, E>,
    M: Fn(&V, &[u8], &[u8]) -> Result<W, E>,
    S: Fn(&ByteMask, Option<Acc>, &[u8], &[u8]) -> Result<W, E>,
    C: Fn(&V, W, &[u8]) -> Result<W, E>,
>(
    site: Site<V>,
    p: Seq<u8>,
    t: Trie<V>,
    prefix: Seq<u8>,
    a: &Algebra<N, F, M, S, C>,
    told: spec_fn(E) -> bool,
    e: E,
)
    requires
        errors_are::<V, Acc, W, E, N, F, M, S, C>(a, told),
        outcome(site, p, t, prefix, a, Err::<W, E>(e)),
    ensures
        told(e),
    decreases t, members(t.kids.dom()).len() + 2,
{
    let r = Err::<W, E>(e);
    if t.is_link() {
        let b = t.link_byte();
        law_errors_come_from_the_functions::<V, Acc, W, E, N, F, M, S, C>(
            site,
            p.push(b),
            t.kids[b],
            prefix.push(b),
            a,
            told,
            e,
        );
    } else if t.kids.dom() == Set::<u8>::empty() && t.val is Some {
    } else {
        let s = choose|s: Result<W, E>| #[trigger]
            some_thing(s) && summary(site, p, t, prefix, a, s) && match (t.val, s) {
                (Some(v), Ok(w)) => exists|q: &[u8]| #[trigger]
                    holds(q, site.base + p) && call_ensures(a.collapse, (&v, w, q), r),
                _ => r == s,
            };
        if let Err(x) = s {
            lemma_error_of_summary::<V, Acc, W, E, N, F, M, S, C>(site, p, t, prefix, a, told, x);
        }
    }
}

proof fn lemma_error_of_summary<
    V,
    Acc,
    W: Clone,
    E,
    N: Fn(&ByteMask) -> Result<Acc, E>,
    F: Fn(&ByteMask, W, Acc) -> Result<Acc, E>,
    M: Fn(&V, &[u8], &[u8]) -> Result<W, E>,
    S: Fn(&ByteMask, Option<Acc>, &[u8], &[u8]) -> Result<W, E>,
    C: Fn(&V, W, &[u8]) -> Result<W, E>,
>(
    site: Site<V>,
    p: Seq<u8>,
    t: Trie<V>,
    prefix: Seq<u8>,
    a: &Algebra<N, F, M, S, C>,
    told: spec_fn(E) -> bool,
    e: E,
)
    requires
        errors_are::<V, Acc, W, E, N, F, M, S, C>(a, told),
        summary(site, p, t, prefix, a, Err::<W, E>(e)),
    ensures
        told(e),
    decreases t, members(t.kids.dom()).len() + 1,
{
    let kids = t.kids.dom();
    let r = Err::<W, E>(e);
    let n = members(kids).len();
    if kids != Set::<u8>::empty() {
        let (m, l, q) = choose|m: ByteMask, l: &[u8], q: &[u8]| #[trigger]
            masks(m, kids) && #[trigger] holds(l, prefix) && #[trigger] holds(q, site.base + p)
                && exists|acc: Result<Acc, E>| #[trigger]
                some_thing(acc) && folded(site, p, t, n, a, acc) && match acc {
                    Ok(acc) => call_ensures(a.summarize, (&m, Some(acc), l, q), r),
                    Err(e) => r == Err::<W, E>(e),
                };
        let acc = choose|acc: Result<Acc, E>| #[trigger]
            some_thing(acc) && folded(site, p, t, n, a, acc) && match acc {
                Ok(acc) => call_ensures(a.summarize, (&m, Some(acc), l, q), r),
                Err(e) => r == Err::<W, E>(e),
            };
        if let Err(x) = acc {
            lemma_error_of_children::<V, Acc, W, E, N, F, M, S, C>(site, p, t, n, a, told, x);
        }
    }
}

proof fn lemma_error_of_children<
    V,
    Acc,
    W: Clone,
    E,
    N: Fn(&ByteMask) -> Result<Acc, E>,
    F: Fn(&ByteMask, W, Acc) -> Result<Acc, E>,
    M: Fn(&V, &[u8], &[u8]) -> Result<W, E>,
    S: Fn(&ByteMask, Option<Acc>, &[u8], &[u8]) -> Result<W, E>,
    C: Fn(&V, W, &[u8]) -> Result<W, E>,
>(
    site: Site<V>,
    p: Seq<u8>,
    t: Trie<V>,
    n: nat,
    a: &Algebra<N, F, M, S, C>,
    told: spec_fn(E) -> bool,
    e: E,
)
    requires
        errors_are::<V, Acc, W, E, N, F, M, S, C>(a, told),
        folded(site, p, t, n, a, Err::<Acc, E>(e)),
    ensures
        told(e),
    decreases t, n,
{
    let kids = t.kids.dom();
    let r = Err::<Acc, E>(e);
    if n > 0 {
        let k = (n - 1) as nat;
        let b = members(kids)[n - 1];
        let before = choose|before: Result<Acc, E>| #[trigger]
            some_thing(before) && folded(site, p, t, k, a, before) && step_from(
                site,
                p,
                t,
                n,
                a,
                before,
                r,
            );
        match before {
            Err(x) => {
                lemma_error_of_children::<V, Acc, W, E, N, F, M, S, C>(site, p, t, k, a, told, x);
            },
            Ok(x) => {
                let (p2, w, w2) = choose|p2: Seq<u8>, w: Result<W, E>, w2: Result<W, E>|
                    #[trigger] site.counts_for(p2, p.push(b)) && #[trigger] passed_on(w, w2)
                        && outcome(site, p2, t.kids[b], Seq::empty(), a, w) && match w2 {
                        Err(e) => r == Err::<Acc, E>(e),
                        Ok(w2) => exists|m: ByteMask| #[trigger]
                            masks(m, kids) && call_ensures(a.fold_child, (&m, w2, x), r),
                    };
                if let Err(y) = w {
                    law_errors_come_from_the_functions::<V, Acc, W, E, N, F, M, S, C>(
                        site,
                        p2,
                        t.kids[b],
                        Seq::empty(),
                        a,
                        told,
                        y,
                    );
                }
            },
        }
    }
}

} // verus!

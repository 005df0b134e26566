//! Depth-first order of the places of a trie, which is the lexicographic order of their paths.

use vstd::prelude::*;

use crate::slices::{begins_with, lemma_overlap, overlap};
use crate::trie::{lemma_at_prefix, Trie};
use crate::trie_walk::{kids_of, lemma_look_push, look};
use crate::utils::bits::members;

verus! {

/// `a` comes before `b`: it is how `b` begins, or has the smaller byte where they first differ.
pub open spec fn less(a: Seq<u8>, b: Seq<u8>) -> bool {
    let k = overlap(a, b) as int;
    k < b.len() && (k == a.len() || a[k] < b[k])
}

/// Where two paths part is where they stop being equal.
pub proof fn lemma_overlap_at(a: Seq<u8>, b: Seq<u8>, k: int)
    requires
        0 <= k <= a.len(),
        k <= b.len(),
        forall|i: int| 0 <= i < k ==> a[i] == b[i],
        k < a.len() && k < b.len() ==> a[k] != b[k],
    ensures
        overlap(a, b) == k,
{
    lemma_overlap(a, b);
    let m = overlap(a, b) as int;
    if m < k {
        assert(a[m] == b[m]);
    } else if k < m {
        assert(a[k] == b[k]);
    }
}

pub proof fn lemma_less_irreflexive(a: Seq<u8>)
    ensures
        !less(a, a),
{
    lemma_overlap_at(a, a, a.len() as int);
}

/// Of two paths one comes before the other, or they are the same.
pub proof fn lemma_less_total(a: Seq<u8>, b: Seq<u8>)
    ensures
        less(a, b) || a == b || less(b, a),
        !(less(a, b) && less(b, a)),
{
    lemma_overlap(a, b);
    let k = overlap(a, b) as int;
    lemma_overlap_at(b, a, k);
    if k == a.len() && k == b.len() {
        assert(a =~= b);
    }
}

pub proof fn lemma_less_transitive(a: Seq<u8>, b: Seq<u8>, c: Seq<u8>)
    requires
        less(a, b),
        less(b, c),
    ensures
        less(a, c),
{
    lemma_overlap(a, b);
    lemma_overlap(b, c);
    let k = overlap(a, b) as int;
    let m = overlap(b, c) as int;
    let n = if k <= m {
        k
    } else {
        m
    };
    assert forall|i: int| 0 <= i < n implies a[i] == c[i] by {
        assert(a[i] == b[i]);
        assert(b[i] == c[i]);
    }
    if k < m {
        assert(b[k] == c[k]);
    }
    if m < k {
        assert(a[m] == b[m]);
    }
    lemma_overlap_at(a, c, n);
}

/// Paths between `p` and `p` with one more byte go on from `p` with a smaller byte.
pub proof fn lemma_between_child(p: Seq<u8>, b: u8, x: Seq<u8>)
    requires
        less(p, x),
        less(x, p.push(b)),
    ensures
        begins_with(x, p),
        x.len() > p.len(),
        x[p.len() as int] < b,
{
    lemma_overlap(p, x);
    lemma_overlap(x, p.push(b));
    let k = overlap(p, x) as int;
    if k < p.len() {
        assert forall|i: int| 0 <= i < k implies x[i] == p.push(b)[i] by {
            assert(p[i] == x[i]);
        }
        lemma_overlap_at(x, p.push(b), k);
    }
    assert(x.subrange(0, p.len() as int) =~= p);
    assert forall|i: int| 0 <= i < p.len() implies x[i] == p.push(b)[i] by {
        assert(p[i] == x[i]);
    }
    if x[p.len() as int] != b {
        lemma_overlap_at(x, p.push(b), p.len() as int);
    } else {
        let m = overlap(x, p.push(b)) as int;
        assert(m < p.push(b).len());
        if m < p.len() {
            assert(x[m] == p.push(b)[m]);
        } else {
            assert(x[m] == p.push(b)[m]);
        }
    }
}

/// A path with one more byte comes after.
pub proof fn lemma_less_push(p: Seq<u8>, b: u8)
    ensures
        less(p, p.push(b)),
{
    lemma_overlap_at(p, p.push(b), p.len() as int);
}

/// Where `p` goes on from `c` with byte `l`, a path after `p` that begins with `c` goes on with
/// `l` or a greater byte.
pub proof fn lemma_after_inside(p: Seq<u8>, c: Seq<u8>, x: Seq<u8>)
    requires
        begins_with(p, c),
        p.len() > c.len(),
        less(p, x),
        begins_with(x, c),
    ensures
        x.len() > c.len(),
        x[c.len() as int] >= p[c.len() as int],
{
    lemma_overlap(p, x);
    let k = overlap(p, x) as int;
    assert forall|i: int| 0 <= i < c.len() implies p[i] == x[i] by {
        assert(p.subrange(0, c.len() as int)[i] == c[i]);
        assert(x.subrange(0, c.len() as int)[i] == c[i]);
    }
    if k < c.len() {
        assert(p[k] == x[k]);
    }
    if k > c.len() {
        assert(p[c.len() as int] == x[c.len() as int]);
    }
}

/// Where `p` goes on from `c`, and `x` lies between `p` and `c` with a byte, `x` goes on from `c`
/// with a smaller byte.
pub proof fn lemma_between_sibling(p: Seq<u8>, c: Seq<u8>, s: u8, x: Seq<u8>)
    requires
        begins_with(p, c),
        p.len() > c.len(),
        less(p, x),
        less(x, c.push(s)),
    ensures
        begins_with(x, c),
        x.len() > c.len(),
        p[c.len() as int] <= x[c.len() as int] < s,
{
    let n = c.len() as int;
    lemma_overlap(p, x);
    lemma_overlap(x, c.push(s));
    assert forall|i: int| 0 <= i < n implies p[i] == c[i] by {
        assert(p.subrange(0, n)[i] == c[i]);
    }
    let k = overlap(p, x) as int;
    if k < n {
        assert forall|i: int| 0 <= i < k implies x[i] == c.push(s)[i] by {
            assert(p[i] == x[i]);
        }
        lemma_overlap_at(x, c.push(s), k);
    }
    assert(x.subrange(0, n) =~= c);
    lemma_after_inside(p, c, x);
    assert forall|i: int| 0 <= i < n implies x[i] == c.push(s)[i] by {}
    let m = overlap(x, c.push(s)) as int;
    if m < n {
        assert(x[m] == c.push(s)[m]);
    }
}

/// A later sibling comes after all that is below an earlier one.
pub proof fn lemma_less_sibling(p: Seq<u8>, c: Seq<u8>, s: u8)
    requires
        begins_with(p, c),
        p.len() > c.len(),
        p[c.len() as int] < s,
    ensures
        less(p, c.push(s)),
{
    let n = c.len() as int;
    assert forall|i: int| 0 <= i < n implies p[i] == c.push(s)[i] by {
        assert(p.subrange(0, n)[i] == c[i]);
    }
    lemma_overlap_at(p, c.push(s), n);
}

/// How many places a trie has.
pub open spec fn size<V>(t: Trie<V>) -> nat
    decreases t, 300nat,
{
    1 + kids_size(t, 256)
}

/// How many places are below those of its bytes that are smaller than `n`.
pub open spec fn kids_size<V>(t: Trie<V>, n: nat) -> nat
    decreases t, n,
{
    if n == 0 {
        0
    } else {
        let b = (n - 1) as u8;
        kids_size(t, (n - 1) as nat) + if t.kids.contains_key(b) {
            size(t.kids[b])
        } else {
            0
        }
    }
}

/// How many places of a trie come after `p`.
pub open spec fn places_after<V>(t: Trie<V>, p: Seq<u8>) -> int
    decreases p.len(),
{
    if p.len() == 0 {
        kids_size(t, 256) as int
    } else {
        kids_size(t, 256) - kids_size(t, (p[0] + 1) as nat) + if t.kids.contains_key(p[0]) {
            places_after(t.kids[p[0]], p.drop_first())
        } else {
            0
        }
    }
}

proof fn lemma_kids_size_mono<V>(t: Trie<V>, m: nat, n: nat)
    requires
        m <= n,
    ensures
        kids_size(t, m) <= kids_size(t, n),
    decreases n,
{
    if m < n {
        lemma_kids_size_mono(t, m, (n - 1) as nat);
    }
}

/// Not all places come after `p`.
pub proof fn lemma_places_after_bound<V>(t: Trie<V>, p: Seq<u8>)
    ensures
        0 <= places_after(t, p) < size(t),
    decreases p.len(),
{
    if p.len() > 0 {
        lemma_kids_size_mono(t, (p[0] + 1) as nat, 256);
        if t.kids.contains_key(p[0]) {
            lemma_places_after_bound(t.kids[p[0]], p.drop_first());
            assert(kids_size(t, (p[0] + 1) as nat) == kids_size(t, p[0] as nat) + size(
                t.kids[p[0]],
            ));
        }
    }
}

/// Going on to a later place leaves fewer places after it.
pub proof fn lemma_places_after_less<V>(t: Trie<V>, p: Seq<u8>, q: Seq<u8>)
    requires
        less(p, q),
        t.has(q),
    ensures
        places_after(t, q) < places_after(t, p),
    decreases q.len(),
{
    lemma_overlap(p, q);
    let b = q[0];
    let next = t.kids[b];
    let q1 = q.drop_first();
    lemma_places_after_bound(next, q1);
    assert(kids_size(t, (b + 1) as nat) == kids_size(t, b as nat) + size(next));
    lemma_kids_size_mono(t, (b + 1) as nat, 256);
    if p.len() > 0 {
        if p[0] == b {
            let p1 = p.drop_first();
            assert(overlap(p, q) == 1 + overlap(p1, q1));
            assert(less(p1, q1));
            lemma_places_after_less(next, p1, q1);
        } else {
            assert(overlap(p, q) == 0);
            lemma_kids_size_mono(t, (p[0] + 1) as nat, b as nat);
            if t.kids.contains_key(p[0]) {
                lemma_places_after_bound(t.kids[p[0]], p.drop_first());
            }
        }
    }
}

/// How many values a trie has.
pub open spec fn count_vals<V>(t: Trie<V>) -> nat
    decreases t, 300nat,
{
    kids_vals(t, 256) + if t.val is Some {
        1nat
    } else {
        0nat
    }
}

/// How many values are below those of its bytes that are smaller than `n`.
pub open spec fn kids_vals<V>(t: Trie<V>, n: nat) -> nat
    decreases t, n,
{
    if n == 0 {
        0
    } else {
        let b = (n - 1) as u8;
        kids_vals(t, (n - 1) as nat) + if t.kids.contains_key(b) {
            count_vals(t.kids[b])
        } else {
            0
        }
    }
}

/// The path to the last place below, by the last byte at each place on the way.
pub open spec fn last_below<V>(t: Trie<V>) -> Seq<u8>
    decreases t,
{
    let bytes = members(t.kids.dom());
    if bytes.len() > 0 && t.kids.contains_key(bytes.last()) {
        seq![bytes.last()] + last_below(t.kids[bytes.last()])
    } else {
        Seq::empty()
    }
}

/// `q` is the first place after `p` that begins with `base` and that `pick` picks. Where there is
/// none `q` is `None`.
pub open spec fn is_next<V>(
    r: Option<Trie<V>>,
    base: Seq<u8>,
    p: Seq<u8>,
    pick: spec_fn(Seq<u8>, Trie<V>) -> bool,
    q: Option<Seq<u8>>,
) -> bool {
    match q {
        Some(q) => {
            &&& picked(r, base, p, pick, q)
            &&& forall|x: Seq<u8>| #[trigger] picked(r, base, p, pick, x) ==> !less(x, q)
        },
        None => forall|x: Seq<u8>| !#[trigger] picked(r, base, p, pick, x),
    }
}

/// `x` leads to a place after `p` that begins with `base` and that `pick` picks.
pub open spec fn picked<V>(
    r: Option<Trie<V>>,
    base: Seq<u8>,
    p: Seq<u8>,
    pick: spec_fn(Seq<u8>, Trie<V>) -> bool,
    x: Seq<u8>,
) -> bool {
    &&& begins_with(x, base)
    &&& less(p, x)
    &&& look(r, x) matches Some(t) && pick(x, t)
}

/// Where a longer path leads somewhere, so do the bytes on the way.
pub proof fn lemma_look_prefix<V>(r: Option<Trie<V>>, x: Seq<u8>, n: int)
    requires
        look(r, x) is Some,
        0 <= n <= x.len(),
    ensures
        look(r, x.subrange(0, n)) is Some,
        n < x.len() ==> kids_of(look(r, x.subrange(0, n))).contains(x[n]),
{
    let t = r->Some_0;
    lemma_at_prefix(t, x, n);
    if n < x.len() {
        lemma_at_prefix(t, x, n + 1);
        lemma_look_push(r, x.subrange(0, n), x[n]);
        assert(x.subrange(0, n).push(x[n]) =~= x.subrange(0, n + 1));
    }
}

} // verus!

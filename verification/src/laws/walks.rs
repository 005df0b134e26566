//! Where the moves of a zipper lead.

use vstd::prelude::*;

use crate::arena_compact::act_iter::{any_place, common_root, of_held_length, of_length, with_value};
use crate::arena_compact::act_moves::{is_sibling_move, run_from, sibling_path, stops_after};
use crate::arena_compact::act_zipper::ACTZipper;
use crate::arena_compact::tree::Storage;
use crate::laws::paths::{law_begins_with, law_members_in_order};
use crate::slices::{begins_with, lemma_overlap, overlap};
use crate::trie::{lemma_at_concat, lemma_at_push, lemma_link, Trie};
use crate::trie_order::{is_next, last_below, lemma_less_total, lemma_overlap_at, less, picked};
use crate::trie_walk::{kids_of, lemma_look_push, lemma_reach_bound, look, reach, run_below, val_reach};
use crate::utils::bits::{lemma_rank_is_len, members};
use crate::zipper::up;

verus! {

/// A zipper that was moved reads the same trie from the same root, and stands where it was moved to.
pub proof fn law_moved_stands_there<S: Storage, Value>(
    a: &ACTZipper<S, Value>,
    b: &ACTZipper<S, Value>,
    rel: Seq<u8>,
)
    requires
        b.moved(a, rel),
    ensures
        b.wf(),
        b.whole() == a.whole(),
        b.origin() == a.origin(),
        b.rel() == rel,
        b.here() == b.whole().at(b.origin() + b.rel()),
        b.root() == b.whole().at(b.origin()),
{
    lemma_at_concat(b.whole(), b.origin(), b.rel());
}

/// The last path below a place leads to a place from which nothing leads on, and no path below the
/// place comes after it. It has no bytes only where nothing leads on.
pub proof fn law_last_path_is_last<V>(t: Trie<V>, x: Seq<u8>)
    ensures
        t.has(last_below(t)),
        forall|b: u8| !t.has(#[trigger] last_below(t).push(b)),
        t.has(x) ==> !less(last_below(t), x),
        t.has(x) && x.len() > 0 ==> last_below(t).len() > 0,
    decreases t,
{
    let bytes = members(t.kids.dom());
    let run = last_below(t);
    let none = Seq::<u8>::empty();
    law_members_in_order(t.kids.dom());
    if bytes.len() > 0 {
        let b = bytes.last();
        assert(bytes.contains(b));
        assert(t.kids.dom().contains(b));
        let next = t.kids[b];
        let rest = last_below(next);
        assert(run == seq![b] + rest);
        assert(run.drop_first() =~= rest);
        law_last_path_is_last(next, x.drop_first());
        assert(t.has(run));
        assert forall|c: u8| !t.has(#[trigger] run.push(c)) by {
            assert(run.push(c).drop_first() =~= rest.push(c));
            assert(!next.has(rest.push(c)));
        }
        if t.has(x) {
            if x.len() == 0 {
                assert(overlap(run, x) == 0);
            } else {
                assert(t.kids.dom().contains(x[0]));
                assert(bytes.contains(x[0]));
                let i = choose|i: int| 0 <= i < bytes.len() && bytes[i] == x[0];
                assert(x[0] <= b);
                if x[0] == b {
                    assert(overlap(run, x) == 1 + overlap(rest, x.drop_first()));
                    lemma_overlap(rest, x.drop_first());
                } else {
                    assert(overlap(run, x) == 0);
                }
            }
        }
    } else {
        assert(run =~= none);
        assert forall|b: u8| !t.has(#[trigger] run.push(b)) by {
            lemma_at_push(t, none, b);
            if t.kids.contains_key(b) {
                assert(t.kids.dom().contains(b));
                assert(bytes.contains(b));
            }
        }
        if t.has(x) && x.len() > 0 {
            assert(t.kids.dom().contains(x[0]));
            assert(bytes.contains(x[0]));
        }
        if t.has(x) {
            assert(x =~= none);
            crate::trie_order::lemma_less_irreflexive(x);
        }
    }
}

/// After going to the last path below it, a zipper that stood at a place stands at one from which
/// nothing leads on, and no place that begins with where it stood comes after.
pub proof fn law_descend_last_path<S: Storage>(
    a: &ACTZipper<S, u64>,
    b: &ACTZipper<S, u64>,
    t: Trie<u64>,
    x: Seq<u8>,
)
    requires
        a.here() == Some(t),
        b.moved(a, a.rel() + last_below(t)),
        look(a.root(), x) is Some,
        begins_with(x, a.rel()),
    ensures
        b.here() is Some,
        kids_of(b.here()) == Set::<u8>::empty(),
        begins_with(b.rel(), a.rel()),
        !less(b.rel(), x),
{
    let run = last_below(t);
    let n = a.rel().len() as int;
    let y = x.subrange(n, x.len() as int);
    law_begins_with(a.rel(), x);
    law_begins_with(a.rel(), run);
    crate::trie_walk::lemma_look_concat(a.root(), a.rel(), run);
    crate::trie_walk::lemma_look_concat(a.root(), a.rel(), y);
    law_last_path_is_last(t, y);
    assert forall|c: u8| !kids_of(b.here()).contains(c) by {
        lemma_at_push(t, run, c);
        assert(!t.has(run.push(c)));
    }
    assert(kids_of(b.here()) =~= Set::<u8>::empty());
    lemma_less_below(a.rel(), run, y);
}

/// What is common to two paths does not matter to their order.
proof fn lemma_less_below(p: Seq<u8>, a: Seq<u8>, b: Seq<u8>)
    ensures
        less(p + a, p + b) == less(a, b),
{
    lemma_overlap(a, b);
    let k = overlap(a, b) as int;
    let n = p.len() as int;
    assert forall|i: int| 0 <= i < n + k implies (p + a)[i] == (p + b)[i] by {
        if i >= n {
            assert(a[i - n] == b[i - n]);
        }
    }
    lemma_overlap_at(p + a, p + b, n + k);
}

/// A path leads on as far as there are places: to the last of its beginnings that leads to one.
pub proof fn law_reach_is_farthest<V>(t: Trie<V>, k: Seq<u8>, n: int)
    requires
        0 <= n <= k.len(),
    ensures
        n <= reach(Some(t), k) <==> t.has(k.subrange(0, n)),
        reach(Some(t), k) <= k.len(),
        reach::<V>(None, k) == 0,
{
    let r = Some(t);
    lemma_reach_bound(r, k);
    let m = reach(r, k) as int;
    if n <= m {
        crate::trie::lemma_at_prefix(t, k.subrange(0, m), n);
        assert(k.subrange(0, m).subrange(0, n) =~= k.subrange(0, n));
    } else if t.has(k.subrange(0, n)) {
        crate::trie::lemma_at_prefix(t, k.subrange(0, n), m + 1);
        assert(k.subrange(0, n).subrange(0, m + 1) =~= k.subrange(0, m + 1));
    }
}

/// Looking for a value, a path leads on as far as there are places, but not beyond the first of them
/// below the start that has a value.
pub proof fn law_reach_of_value<V>(t: Trie<V>, k: Seq<u8>)
    ensures
        ({
            let n = val_reach(Some(t), k) as int;
            &&& n <= k.len()
            &&& t.has(k.subrange(0, n))
            &&& forall|j: int| 0 < j < n ==> t.get(#[trigger] k.subrange(0, j)) is None
            &&& n < k.len() && t.has(k.subrange(0, n + 1)) ==> n > 0 && t.get(k.subrange(0, n))
                is Some
            &&& val_reach::<V>(None, k) == 0
        }),
    decreases k.len(),
{
    let r = Some(t);
    let n = val_reach(r, k) as int;
    let none = Seq::<u8>::empty();
    assert(k.subrange(0, 0) =~= none);
    if k.len() > 0 {
        let b = k[0];
        lemma_look_push(r, none, b);
        assert(none.push(b) =~= seq![b]);
        assert(k.subrange(0, 1) =~= seq![b]);
        if t.kids.contains_key(b) {
            let next = t.kids[b];
            let rest = k.drop_first();
            assert(look(r, seq![b]) == Some(next));
            law_reach_of_value(next, rest);
            assert forall|j: int| 0 <= j <= rest.len() implies t.at(
                #[trigger] k.subrange(0, j + 1),
            ) == next.at(rest.subrange(0, j)) by {
                assert(k.subrange(0, j + 1).drop_first() =~= rest.subrange(0, j));
            }
            assert(rest.subrange(0, 0) =~= none);
            if next.val is None {
                let m = n - 1;
                assert(t.at(k.subrange(0, m + 1)) == next.at(rest.subrange(0, m)));
                assert forall|j: int| 0 < j < n implies t.get(#[trigger] k.subrange(0, j))
                    is None by {
                    assert(t.at(k.subrange(0, (j - 1) + 1)) == next.at(rest.subrange(0, j - 1)));
                    if j > 1 {
                        assert(next.get(rest.subrange(0, j - 1)) is None);
                    }
                }
                if n < k.len() {
                    assert(t.at(k.subrange(0, (m + 1) + 1)) == next.at(rest.subrange(0, m + 1)));
                }
            } else {
                assert(t.at(k.subrange(0, 0int + 1)) == next.at(rest.subrange(0, 0)));
            }
        }
    }
}

/// Where a single byte leads on from a place, going down until there is a choice follows the bytes
/// that lead on alone: on the way there is no value and no choice, and at the end there is one of
/// them or nothing leads on. From any other place it goes nowhere.
pub proof fn law_run_goes_to_the_next_choice<V>(t: Trie<V>)
    ensures
        ({
            let run = run_below(t);
            &&& t.has(run)
            &&& run.len() > 0 <==> t.kids.dom().len() == 1
            &&& forall|j: int|
                0 <= j < run.len() ==> t.has(#[trigger] run.subrange(0, j)) && t.at(
                    run.subrange(0, j),
                )->Some_0.kids.dom() == Set::<u8>::empty().insert(run[j])
            &&& forall|j: int| 0 < j < run.len() ==> t.get(#[trigger] run.subrange(0, j)) is None
            &&& run.len() > 0 ==> t.get(run) is Some || t.at(run)->Some_0.kids.dom().len() != 1
        }),
    decreases t,
{
    let run = run_below(t);
    let none = Seq::<u8>::empty();
    let kids = t.kids.dom();
    lemma_rank_is_len(kids);
    let b = t.link_byte();
    if kids == Set::<u8>::empty().insert(b) {
        assert(kids.contains(b));
        let next = t.kids[b];
        lemma_at_push(t, none, b);
        assert(none.push(b) =~= seq![b]);
        assert(run.subrange(0, 0) =~= none);
        lemma_rank_is_len(next.kids.dom());
        if next.is_link() {
            let rest = run_below(next);
            law_run_goes_to_the_next_choice(next);
            lemma_link(next);
            assert(next.kids.dom().len() == 1);
            assert(run == seq![b] + rest);
            assert(run.drop_first() =~= rest);
            assert forall|j: int| 0 <= j <= rest.len() implies t.at(
                #[trigger] run.subrange(0, j + 1),
            ) == next.at(rest.subrange(0, j)) by {
                assert(run.subrange(0, j + 1).drop_first() =~= rest.subrange(0, j));
            }
            assert(rest.subrange(0, rest.len() as int) =~= rest);
            assert(rest.subrange(0, 0) =~= none);
            assert(run.subrange(0, rest.len() as int + 1) =~= run);
            assert(t.at(run.subrange(0, rest.len() as int + 1)) == next.at(rest));
            assert forall|j: int| 0 <= j < run.len() implies t.has(#[trigger] run.subrange(0, j))
                && t.at(run.subrange(0, j))->Some_0.kids.dom() == Set::<u8>::empty().insert(
                run[j],
            ) by {
                if j > 0 {
                    assert(t.at(run.subrange(0, (j - 1) + 1)) == next.at(rest.subrange(0, j - 1)));
                    assert(next.has(rest.subrange(0, j - 1)));
                    assert(run[j] == rest[j - 1]);
                }
            }
            assert forall|j: int| 0 < j < run.len() implies t.get(#[trigger] run.subrange(0, j))
                is None by {
                assert(t.at(run.subrange(0, (j - 1) + 1)) == next.at(rest.subrange(0, j - 1)));
                if j > 1 {
                    assert(next.get(rest.subrange(0, j - 1)) is None);
                }
            }
        } else {
            assert(run =~= seq![b]);
            if next.kids.dom().len() == 1 {
                lemma_only(next.kids.dom());
            }
        }
    } else {
        assert(run =~= none);
        assert(t.at(none) == Some(t));
        if kids.len() == 1 {
            lemma_only(kids);
            let c = choose|c: u8| kids == Set::<u8>::empty().insert(c);
            assert(kids == Set::<u8>::empty().insert(t.link_byte()));
        }
    }
}

/// A set of one member is made of it.
proof fn lemma_only(s: Set<u8>)
    requires
        s.finite(),
        s.len() == 1,
    ensures
        exists|b: u8| s == Set::<u8>::empty().insert(b),
{
    let b = s.choose();
    assert(s.contains(b));
    let rest = s.remove(b);
    assert(rest.len() == 0);
    assert(s =~= Set::<u8>::empty().insert(b));
}

/// Going up until there is a choice or, where it is asked for, a value stops at the first such place
/// above, or at the root where there is none. From the root it goes nowhere.
pub proof fn law_ascent_stops_at_first(
    t: Trie<u64>,
    rel: Seq<u8>,
    n: int,
    need_value: bool,
    j: int,
)
    requires
        stops_after(Some(t), rel, n, need_value),
        1 <= j <= rel.len(),
    ensures
        1 <= n <= rel.len(),
        j < n ==> ({
            let above = t.at(rel.subrange(0, rel.len() - j));
            above matches Some(u) ==> u.kids.dom().len() <= 1 && (need_value ==> u.val is None)
        }),
        n < rel.len() ==> (t.at(rel.subrange(0, rel.len() - n)) matches Some(u)
            && (u.kids.dom().len() >= 2 || (need_value && u.val is Some))),
{
    assert(up(rel, j) == rel.subrange(0, rel.len() - j));
    assert(up(rel, n) == rel.subrange(0, rel.len() - n));
    lemma_rank_is_len(kids_of(look(Some(t), up(rel, j))));
    lemma_rank_is_len(kids_of(look(Some(t), up(rel, n))));
    if n < rel.len() {
        lemma_rank_is_len(Set::<u8>::empty());
    }
}

pub proof fn law_no_ascent_from_root(r: Option<Trie<u64>>, n: int, need_value: bool)
    requires
        stops_after(r, Seq::empty(), n, need_value),
    ensures
        n == 0,
{
}

/// The next sibling is the first place after it that differs in the last byte alone, and the previous
/// one is the last before it. Where there is none the zipper stays, and so it does at the root.
pub proof fn law_sibling_is_nearest(
    t: Trie<u64>,
    above: Seq<u8>,
    last: u8,
    next: bool,
    b: Option<u8>,
    x: u8,
)
    requires
        is_sibling_move(Some(t), above.push(last), next, b),
    ensures
        b matches Some(c) ==> {
            &&& t.has(above.push(c))
            &&& sibling_path(above.push(last), b) == above.push(c)
            &&& next ==> last < c
            &&& !next ==> c < last
            &&& t.has(above.push(x)) && next && last < x ==> c <= x
            &&& t.has(above.push(x)) && !next && x < last ==> x <= c
        },
        b is None ==> {
            &&& sibling_path(above.push(last), b) == above.push(last)
            &&& t.has(above.push(x)) && next ==> x <= last
            &&& t.has(above.push(x)) && !next ==> last <= x
        },
        is_sibling_move(Some(t), Seq::empty(), next, b) ==> b is None,
{
    let rel = above.push(last);
    assert(up(rel, 1) =~= above);
    assert(rel.last() == last);
    lemma_at_push(t, above, x);
    if let Some(c) = b {
        lemma_at_push(t, above, c);
        assert(kids_of(look(Some(t), above)).contains(c));
    }
}

/// `x` is a place below `base`, after `p`.
pub open spec fn comes_after(t: Trie<u64>, base: Seq<u8>, p: Seq<u8>, x: Seq<u8>) -> bool {
    &&& t.has(x)
    &&& base.len() <= x.len()
    &&& x.subrange(0, base.len() as int) == base
    &&& less(p, x)
}

proof fn lemma_first_picked(
    t: Trie<u64>,
    base: Seq<u8>,
    p: Seq<u8>,
    pick: spec_fn(Seq<u8>, Trie<u64>) -> bool,
    q: Option<Seq<u8>>,
    x: Seq<u8>,
)
    requires
        is_next(Some(t), base, p, pick, q),
    ensures
        q matches Some(y) ==> comes_after(t, base, p, y) && pick(y, t.at(y)->Some_0),
        comes_after(t, base, p, x) && pick(x, t.at(x)->Some_0) ==> (q matches Some(y) && (x == y
            || less(y, x))),
{
    if let Some(y) = q {
        assert(picked(Some(t), base, p, pick, y));
        lemma_less_total(x, y);
    }
    if comes_after(t, base, p, x) && pick(x, t.at(x)->Some_0) {
        assert(begins_with(x, base));
        assert(picked(Some(t), base, p, pick, x));
    }
}

/// A step leads to the place that comes next in the order of paths, and none is left where there is
/// no next.
pub proof fn law_step_leads_to_the_next(
    t: Trie<u64>,
    p: Seq<u8>,
    q: Option<Seq<u8>>,
    x: Seq<u8>,
)
    requires
        is_next(Some(t), Seq::empty(), p, any_place(), q),
    ensures
        q matches Some(y) ==> t.has(y) && less(p, y),
        t.has(x) && less(p, x) ==> (q matches Some(y) && (x == y || less(y, x))),
{
    assert(x.subrange(0, 0) =~= Seq::<u8>::empty());
    lemma_first_picked(t, Seq::empty(), p, any_place(), q, x);
}

/// The next value is the first in the order of paths, and none is left where there is no next.
pub proof fn law_next_value_is_the_first_after(
    t: Trie<u64>,
    p: Seq<u8>,
    q: Option<Seq<u8>>,
    x: Seq<u8>,
)
    requires
        is_next(Some(t), Seq::empty(), p, with_value(), q),
    ensures
        q matches Some(y) ==> t.get(y) is Some && less(p, y),
        t.get(x) is Some && less(p, x) ==> (q matches Some(y) && (x == y || less(y, x))),
{
    assert(x.subrange(0, 0) =~= Seq::<u8>::empty());
    lemma_first_picked(t, Seq::empty(), p, with_value(), q, x);
}

/// The first path of `k` bytes from a place is the first of all the places so far below it.
pub proof fn law_first_path_of_length(
    t: Trie<u64>,
    p: Seq<u8>,
    k: nat,
    q: Option<Seq<u8>>,
    x: Seq<u8>,
)
    requires
        0 < k,
        p.len() + k <= usize::MAX,
        is_next(Some(t), p, p, of_held_length((p.len() + k) as int), q),
    ensures
        q matches Some(y) ==> t.has(p + y.subrange(p.len() as int, y.len() as int)) && y == p
            + y.subrange(p.len() as int, y.len() as int) && y.len() == p.len() + k,
        x.len() == k && t.has(p + x) ==> (q matches Some(y) && (p + x == y || less(y, p + x))),
{
    let n = p.len() as int;
    lemma_first_picked(t, p, p, of_held_length(n + k), q, p + x);
    if let Some(y) = q {
        assert(y =~= y.subrange(0, n) + y.subrange(n, y.len() as int));
    }
    if x.len() == k {
        assert((p + x).subrange(0, n) =~= p);
        lemma_overlap_at(p, p + x, n);
    }
}

/// The next path of as many bytes is the first that comes after among those that begin with all but
/// the last `k` bytes, and none is left where there is no next.
pub proof fn law_next_path_of_length(
    t: Trie<u64>,
    p: Seq<u8>,
    k: nat,
    q: Option<Seq<u8>>,
    x: Seq<u8>,
)
    requires
        is_next(Some(t), common_root(p, k as int), p, of_length(p.len() as int), q),
    ensures
        ({
            let n = if k <= p.len() {
                p.len() - k
            } else {
                0
            };
            &&& common_root(p, k as int) == p.subrange(0, n)
            &&& q matches Some(y) ==> t.has(y) && y.len() == p.len() && less(p, y) && y.subrange(
                0,
                n,
            ) == p.subrange(0, n)
            &&& t.has(x) && x.len() == p.len() && less(p, x) && x.subrange(0, n) == p.subrange(0, n)
                ==> (q matches Some(y) && (x == y || less(y, x)))
        }),
{
    lemma_first_picked(t, common_root(p, k as int), p, of_length(p.len() as int), q, x);
}

/// Where there is no place nothing is next, and nothing leads on.
pub proof fn law_nowhere_leads_nowhere(
    base: Seq<u8>,
    p: Seq<u8>,
    pick: spec_fn(Seq<u8>, Trie<u64>) -> bool,
    q: Option<Seq<u8>>,
)
    requires
        is_next(None, base, p, pick, q),
    ensures
        q is None,
        run_from(None) == Seq::<u8>::empty(),
{
    if let Some(y) = q {
        assert(picked(None::<Trie<u64>>, base, p, pick, y));
    }
}

/// No path is longer than can be held.
pub proof fn law_no_path_is_too_long(r: Option<Trie<u64>>, p: Seq<u8>, n: int, q: Option<Seq<u8>>)
    requires
        is_next(r, p, p, of_held_length(n), q),
        n > usize::MAX,
    ensures
        q is None,
{
    if let Some(y) = q {
        assert(picked(r, p, p, of_held_length(n), y));
    }
}

} // verus!

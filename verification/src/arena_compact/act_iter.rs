//! Visiting the places of a compact trie in depth-first order.

use vstd::prelude::*;

use crate::arena_compact::act_moves::is_sibling_move;
use crate::arena_compact::act_zipper::ACTZipper;
use crate::arena_compact::tree::Storage;
use crate::observer::PathObserver;
use crate::slices::begins_with;
use crate::trie::Trie;
use crate::trie_order::{
    count_vals, is_next, last_below, lemma_after_inside, lemma_between_child, lemma_between_sibling,
    lemma_less_irreflexive, lemma_less_push, lemma_less_sibling, lemma_less_total,
    lemma_less_transitive, lemma_look_prefix, lemma_places_after_bound, lemma_places_after_less,
    less, picked, places_after,
};
use crate::trie_walk::{kids_of, lemma_look_push, look, val_of};
use crate::utils::bits::{is_least, lemma_members, lemma_rank_is_len, members, rank};
use crate::utils::byte_mask::BitMask;
use crate::zipper::up;

verus! {

/// A path may have `n` bytes.
pub open spec fn allowed(max: Option<usize>, n: int) -> bool {
    max matches Some(m) ==> n <= m
}

/// Picks the places whose paths have at most as many bytes as are allowed.
pub open spec fn up_to(max: Option<usize>) -> spec_fn(Seq<u8>, Trie<u64>) -> bool {
    |x: Seq<u8>, t: Trie<u64>| allowed(max, x.len() as int)
}

/// Picks the places whose paths have `n` bytes.
pub open spec fn of_length(n: int) -> spec_fn(Seq<u8>, Trie<u64>) -> bool {
    |x: Seq<u8>, t: Trie<u64>| x.len() == n
}

/// Picks the paths of `n` bytes that can be held: there are none with more bytes than can be
/// addressed.
pub open spec fn of_held_length(n: int) -> spec_fn(Seq<u8>, Trie<u64>) -> bool {
    if n <= usize::MAX {
        of_length(n)
    } else {
        |p: Seq<u8>, t: Trie<u64>| false
    }
}

/// Picks every place.
pub open spec fn any_place() -> spec_fn(Seq<u8>, Trie<u64>) -> bool {
    |x: Seq<u8>, t: Trie<u64>| true
}

/// Picks the places with a value.
pub open spec fn with_value() -> spec_fn(Seq<u8>, Trie<u64>) -> bool {
    |x: Seq<u8>, t: Trie<u64>| t.val is Some
}

/// An observer that was at the end of `from`, behind any prefix, is at the end of `to`.
pub open spec fn follows<Obs: PathObserver>(
    before: &Obs,
    from: Seq<u8>,
    after: &Obs,
    to: Seq<u8>,
) -> bool {
    forall|pre: Seq<u8>| #[trigger] before.tracks(pre + from) ==> after.tracks(pre + to)
}

proof fn lemma_follows_down<Obs: PathObserver>(
    o0: &Obs,
    p0: Seq<u8>,
    o1: &Obs,
    p1: Seq<u8>,
    o2: &Obs,
    b: u8,
)
    requires
        follows(o0, p0, o1, p1),
        forall|p: Seq<u8>| #[trigger] o1.tracks(p) ==> o2.tracks(p.push(b)),
    ensures
        follows(o0, p0, o2, p1.push(b)),
{
    assert forall|pre: Seq<u8>| #[trigger] o0.tracks(pre + p0) implies o2.tracks(
        pre + p1.push(b),
    ) by {
        assert(o1.tracks(pre + p1));
        assert((pre + p1).push(b) =~= pre + p1.push(b));
    }
}

proof fn lemma_follows_up<Obs: PathObserver>(
    o0: &Obs,
    p0: Seq<u8>,
    o1: &Obs,
    p1: Seq<u8>,
    o2: &Obs,
    n: int,
)
    requires
        0 <= n <= p1.len(),
        follows(o0, p0, o1, p1),
        forall|p: Seq<u8>|
            n <= p.len() && #[trigger] o1.tracks(p) ==> o2.tracks(p.subrange(0, p.len() - n)),
    ensures
        follows(o0, p0, o2, up(p1, n)),
{
    assert forall|pre: Seq<u8>| #[trigger] o0.tracks(pre + p0) implies o2.tracks(
        pre + up(p1, n),
    ) by {
        assert(o1.tracks(pre + p1));
        assert((pre + p1).subrange(0, (pre + p1).len() - n) =~= pre + up(p1, n));
    }
}

/// The first byte that leads on from a place leads to the next place.
proof fn lemma_next_child(r: Option<Trie<u64>>, base: Seq<u8>, p: Seq<u8>, max: Option<usize>, b: u8)
    requires
        begins_with(p, base),
        allowed(max, p.len() as int + 1),
        is_least(kids_of(look(r, p)), b),
    ensures
        is_next(r, base, p, up_to(max), Some(p.push(b))),
{
    let q = p.push(b);
    lemma_look_push(r, p, b);
    lemma_less_push(p, b);
    assert(q.subrange(0, base.len() as int) =~= p.subrange(0, base.len() as int));
    assert forall|x: Seq<u8>| #[trigger] picked(r, base, p, up_to(max), x) implies !less(x, q) by {
        if less(x, q) {
            lemma_between_child(p, b, x);
            lemma_look_prefix(r, x, p.len() as int);
        }
    }
}

/// Nothing that is picked after `p` begins with `c`.
spec fn done_below(r: Option<Trie<u64>>, base: Seq<u8>, p: Seq<u8>, max: Option<usize>, c: Seq<u8>) -> bool {
    forall|x: Seq<u8>| #[trigger]
        picked(r, base, p, up_to(max), x) ==> !begins_with(x, c)
}

/// Where no byte leads on, or none may be followed, nothing below comes next.
proof fn lemma_done_here(r: Option<Trie<u64>>, base: Seq<u8>, p: Seq<u8>, max: Option<usize>)
    requires
        !allowed(max, p.len() as int + 1) || kids_of(look(r, p)) == Set::<u8>::empty(),
    ensures
        done_below(r, base, p, max, p),
{
    assert forall|x: Seq<u8>| #[trigger] picked(r, base, p, up_to(max), x) implies !begins_with(
        x,
        p,
    ) by {
        if begins_with(x, p) {
            if x.len() == p.len() {
                assert(x =~= p);
                lemma_less_irreflexive(p);
            } else {
                lemma_look_prefix(r, x, p.len() as int);
            }
        }
    }
}

/// Where there is no later sibling, nothing below the place above comes next.
proof fn lemma_done_above(
    r: Option<Trie<u64>>,
    base: Seq<u8>,
    p: Seq<u8>,
    max: Option<usize>,
    c: Seq<u8>,
)
    requires
        c.len() > 0,
        begins_with(p, c),
        done_below(r, base, p, max, c),
        is_sibling_move(r, c, true, None),
    ensures
        done_below(r, base, p, max, up(c, 1)),
{
    let a = up(c, 1);
    let n = a.len() as int;
    assert(p.subrange(0, n) =~= p.subrange(0, c.len() as int).subrange(0, n));
    assert(p[n] == p.subrange(0, c.len() as int)[n]);
    assert forall|x: Seq<u8>| #[trigger] picked(r, base, p, up_to(max), x) implies !begins_with(
        x,
        a,
    ) by {
        if begins_with(x, a) {
            lemma_after_inside(p, a, x);
            lemma_look_prefix(r, x, n);
            assert(x.subrange(0, n + 1) =~= a.push(x[n]));
            assert(c =~= a.push(c[n]));
        }
    }
}

/// A later sibling comes next where nothing below the place does.
proof fn lemma_next_sibling(
    r: Option<Trie<u64>>,
    base: Seq<u8>,
    p: Seq<u8>,
    max: Option<usize>,
    c: Seq<u8>,
    b: u8,
)
    requires
        base.len() < c.len(),
        allowed(max, c.len() as int),
        begins_with(p, c),
        begins_with(p, base),
        done_below(r, base, p, max, c),
        is_sibling_move(r, c, true, Some(b)),
    ensures
        is_next(r, base, p, up_to(max), Some(up(c, 1).push(b))),
{
    let a = up(c, 1);
    let n = a.len() as int;
    let q = a.push(b);
    assert(p.subrange(0, n) =~= p.subrange(0, c.len() as int).subrange(0, n));
    assert(p[n] == p.subrange(0, c.len() as int)[n]);
    lemma_less_sibling(p, a, b);
    lemma_look_push(r, a, b);
    assert(q.subrange(0, base.len() as int) =~= p.subrange(0, base.len() as int)) by {
        assert forall|i: int| 0 <= i < base.len() implies q[i] == p[i] by {
            assert(p.subrange(0, n)[i] == a[i]);
        }
    }
    assert forall|x: Seq<u8>| #[trigger] picked(r, base, p, up_to(max), x) implies !less(x, q) by {
        if less(x, q) {
            lemma_between_sibling(p, a, b, x);
            lemma_look_prefix(r, x, n);
            if x[n] == p[n] {
                assert(x.subrange(0, n + 1) =~= a.push(x[n]));
                assert(c =~= a.push(c[n]));
                assert(begins_with(x, c));
            }
        }
    }
}

impl<'tree, S: Storage, Value> ACTZipper<'tree, S, Value> {
    /// Advances to the next place whose path has at most `max` bytes, of which the first
    /// `base` are those of the focus. Where there is none, ascends until only those are left.
    fn next_within<Obs: PathObserver>(&mut self, base: usize, max: Option<usize>, obs: &mut Obs) -> (r:
        bool)
        requires
            old(self).wf(),
            base <= old(self).rel().len(),
            allowed(max, old(self).rel().len() as int),
        ensures
            ({
                let start = old(self).rel().subrange(0, base as int);
                is_next(
                    old(self).root(),
                    start,
                    old(self).rel(),
                    up_to(max),
                    if r {
                        Some(final(self).rel())
                    } else {
                        None
                    },
                ) && (!r ==> final(self).rel() == start)
            }),
            final(self).moved(old(self), final(self).rel()),
            base <= final(self).rel().len(),
            allowed(max, final(self).rel().len() as int),
            final(self).rel().subrange(0, base as int) == old(self).rel().subrange(0, base as int),
            r ==> final(self).here() is Some,
            follows(old(obs), old(self).rel(), final(obs), final(self).rel()),
    {
        let ghost r = self.root();
        let ghost p = self.rel();
        let ghost start = p.subrange(0, base as int);
        let depth = self.depth();
        assert(begins_with(p, start));
        let deeper = match max {
            Some(m) => depth < m,
            None => true,
        };
        if deeper {
            if let Some(b) = self.descend_first_byte() {
                obs.descend_to_byte(b);
                proof {
                    lemma_next_child(r, start, p, max, b);
                    lemma_follows_down(old(obs), p, old(obs), p, obs, b);
                    assert(p.push(b).subrange(0, base as int) =~= start);
                }
                return true;
            }
        }
        proof {
            lemma_done_here(r, start, p, max);
            assert(p.subrange(0, p.len() as int) =~= p);
        }
        let mut left = depth;
        while left > base
            invariant
                base <= left <= p.len(),
                allowed(max, p.len() as int),
                r == self.root(),
                p == old(self).rel(),
                r == old(self).root(),
                start == p.subrange(0, base as int),
                self.moved(old(self), p.subrange(0, left as int)),
                done_below(r, start, p, max, p.subrange(0, left as int)),
                follows(old(obs), p, obs, p.subrange(0, left as int)),
            decreases left,
        {
            let ghost c = p.subrange(0, left as int);
            let ghost watched = *obs;
            match self.to_next_sibling_byte() {
                Some(b) => {
                    obs.ascend(1);
                    let ghost mid = *obs;
                    obs.descend_to_byte(b);
                    proof {
                        lemma_next_sibling(r, start, p, max, c, b);
                        lemma_follows_up(old(obs), p, &watched, c, &mid, 1);
                        lemma_follows_down(old(obs), p, &mid, up(c, 1), obs, b);
                        assert(up(c, 1).push(b).subrange(0, base as int) =~= start);
                    }
                    return true;
                },
                None => {
                    self.ascend_byte();
                    obs.ascend(1);
                    left = left - 1;
                    proof {
                        lemma_done_above(r, start, p, max, c);
                        lemma_follows_up(old(obs), p, &watched, c, obs, 1);
                        assert(up(c, 1) =~= p.subrange(0, left as int));
                    }
                },
            }
        }
        assert(start.subrange(0, base as int) =~= start);
        false
    }

    /// Systematically advances to the next place accessible from the zipper, traversing in a
    /// depth-first order, and tells the observer. Where there is none the focus returns to the
    /// root and the result is `false`.
    pub fn to_next_step_observed<Obs: PathObserver>(&mut self, obs: &mut Obs) -> (r: bool)
        requires
            old(self).wf(),
        ensures
            is_next(
                old(self).root(),
                Seq::empty(),
                old(self).rel(),
                any_place(),
                if r {
                    Some(final(self).rel())
                } else {
                    None
                },
            ),
            !r ==> final(self).rel() == Seq::<u8>::empty(),
            final(self).moved(old(self), final(self).rel()),
            r ==> final(self).here() is Some,
            follows(old(obs), old(self).rel(), final(obs), final(self).rel()),
    {
        let moved = self.next_within(0, None, obs);
        proof {
            assert(old(self).rel().subrange(0, 0) =~= Seq::<u8>::empty());
            assert(up_to(None) =~= any_place());
        }
        moved
    }
}

/// How many places come after `p`.
spec fn left_after(r: Option<Trie<u64>>, p: Seq<u8>) -> int {
    match r {
        Some(t) => places_after(t, p),
        None => 0,
    }
}

/// Each step leaves fewer places to go on to.
proof fn lemma_step_shrinks(
    r: Option<Trie<u64>>,
    base: Seq<u8>,
    p: Seq<u8>,
    pick: spec_fn(Seq<u8>, Trie<u64>) -> bool,
    q: Seq<u8>,
)
    requires
        picked(r, base, p, pick, q),
    ensures
        0 <= left_after(r, q) < left_after(r, p),
{
    let t = r->Some_0;
    lemma_places_after_less(t, p, q);
    lemma_places_after_bound(t, q);
}

/// Nothing that `pick` picks after `p` comes before `c` or is `c`.
spec fn none_up_to(
    r: Option<Trie<u64>>,
    base: Seq<u8>,
    p: Seq<u8>,
    pick: spec_fn(Seq<u8>, Trie<u64>) -> bool,
    c: Seq<u8>,
) -> bool {
    &&& c == p || less(p, c)
    &&& forall|x: Seq<u8>| #[trigger] picked(r, base, p, pick, x) ==> less(c, x)
}

proof fn lemma_none_at_start(
    r: Option<Trie<u64>>,
    base: Seq<u8>,
    p: Seq<u8>,
    pick: spec_fn(Seq<u8>, Trie<u64>) -> bool,
)
    ensures
        none_up_to(r, base, p, pick, p),
{
}

/// After a step by a wider choice, either the place is picked and comes next, or nothing up to it
/// is picked. Where there is no step, nothing is picked.
proof fn lemma_narrow(
    r: Option<Trie<u64>>,
    base: Seq<u8>,
    p: Seq<u8>,
    pick: spec_fn(Seq<u8>, Trie<u64>) -> bool,
    wide: spec_fn(Seq<u8>, Trie<u64>) -> bool,
    c: Seq<u8>,
    q: Option<Seq<u8>>,
)
    requires
        none_up_to(r, base, p, pick, c),
        is_next(r, base, c, wide, q),
        forall|x: Seq<u8>, t: Trie<u64>| #[trigger] pick(x, t) ==> wide(x, t),
    ensures
        match q {
            None => is_next(r, base, p, pick, None),
            Some(q) => {
                &&& less(p, q)
                &&& pick(q, look(r, q)->Some_0) ==> is_next(r, base, p, pick, Some(q))
                &&& !pick(q, look(r, q)->Some_0) ==> none_up_to(r, base, p, pick, q)
            },
        },
{
    match q {
        None => {
            assert forall|x: Seq<u8>| !#[trigger] picked(r, base, p, pick, x) by {
                if picked(r, base, p, pick, x) {
                    assert(picked(r, base, c, wide, x));
                }
            }
        },
        Some(q) => {
            assert(picked(r, base, c, wide, q));
            if c != p {
                lemma_less_transitive(p, c, q);
            }
            assert forall|x: Seq<u8>| #[trigger] picked(r, base, p, pick, x) implies !less(x, q) && (
            x == q || less(q, x)) by {
                assert(picked(r, base, c, wide, x));
                lemma_less_total(x, q);
            }
            if pick(q, look(r, q)->Some_0) {
                assert(picked(r, base, p, pick, q));
            }
        },
    }
}

impl<'tree, S: Storage, Value> ACTZipper<'tree, S, Value> {
    /// Systematically advances to the next place accessible from the zipper, traversing in a
    /// depth-first order. Where there is none the focus returns to the root and the result is
    /// `false`.
    pub fn to_next_step(&mut self) -> (r: bool)
        requires
            old(self).wf(),
        ensures
            is_next(
                old(self).root(),
                Seq::empty(),
                old(self).rel(),
                any_place(),
                if r {
                    Some(final(self).rel())
                } else {
                    None
                },
            ),
            !r ==> final(self).rel() == Seq::<u8>::empty(),
            final(self).moved(old(self), final(self).rel()),
    {
        let mut nobody = ();
        self.to_next_step_observed(&mut nobody)
    }

    /// Systematically advances to the next value accessible from the zipper, traversing in a
    /// depth-first order, and tells the observer.
    ///
    /// Returns `false`, with the focus at the root, if there is no further value.
    pub fn to_next_val_observed<Obs: PathObserver>(&mut self, obs: &mut Obs) -> (r: bool)
        requires
            old(self).wf(),
        ensures
            is_next(
                old(self).root(),
                Seq::empty(),
                old(self).rel(),
                with_value(),
                if r {
                    Some(final(self).rel())
                } else {
                    None
                },
            ),
            !r ==> final(self).rel() == Seq::<u8>::empty(),
            final(self).moved(old(self), final(self).rel()),
            r ==> val_of(final(self).here()) is Some,
            follows(old(obs), old(self).rel(), final(obs), final(self).rel()),
    {
        let ghost r = self.root();
        let ghost p = self.rel();
        let ghost none = Seq::<u8>::empty();
        proof {
            lemma_none_at_start(r, none, p, with_value());
            if let Some(t) = r {
                lemma_places_after_bound(t, p);
            }
        }
        loop
            invariant
                self.wf(),
                r == self.root(),
                r == old(self).root(),
                p == old(self).rel(),
                none == Seq::<u8>::empty(),
                self.moved(old(self), self.rel()),
                none_up_to(r, none, p, with_value(), self.rel()),
                follows(old(obs), p, obs, self.rel()),
                left_after(r, self.rel()) >= 0,
            decreases left_after(r, self.rel()),
        {
            let ghost c = self.rel();
            let ghost watched = *obs;
            let stepped = self.to_next_step_observed(obs);
            proof {
                let q = if stepped {
                    Some(self.rel())
                } else {
                    None
                };
                lemma_narrow(r, none, p, with_value(), any_place(), c, q);
                lemma_follows_trans(old(obs), p, &watched, c, obs, self.rel());
                if stepped {
                    lemma_step_shrinks(r, none, c, any_place(), self.rel());
                }
            }
            if !stepped {
                return false;
            }
            if self.is_val() {
                return true;
            }
        }
    }

    /// Systematically advances to the next value accessible from the zipper, traversing in a
    /// depth-first order.
    ///
    /// Returns `false`, with the focus at the root, if there is no further value.
    pub fn to_next_val(&mut self) -> (r: bool)
        requires
            old(self).wf(),
        ensures
            is_next(
                old(self).root(),
                Seq::empty(),
                old(self).rel(),
                with_value(),
                if r {
                    Some(final(self).rel())
                } else {
                    None
                },
            ),
            !r ==> final(self).rel() == Seq::<u8>::empty(),
            final(self).moved(old(self), final(self).rel()),
            r ==> val_of(final(self).here()) is Some,
    {
        let mut nobody = ();
        self.to_next_val_observed(&mut nobody)
    }

    /// Advances to the next place whose path has `len` bytes, of which the first `base` are those
    /// of the focus. Where there is none, ascends until only those are left.
    fn to_length<Obs: PathObserver>(&mut self, base: usize, len: usize, obs: &mut Obs) -> (r: bool)
        requires
            old(self).wf(),
            base <= old(self).rel().len() <= len,
        ensures
            is_next(
                old(self).root(),
                old(self).rel().subrange(0, base as int),
                old(self).rel(),
                of_length(len as int),
                if r {
                    Some(final(self).rel())
                } else {
                    None
                },
            ),
            !r ==> final(self).rel() == old(self).rel().subrange(0, base as int),
            r ==> final(self).rel().len() == len,
            final(self).moved(old(self), final(self).rel()),
            follows(old(obs), old(self).rel(), final(obs), final(self).rel()),
    {
        let ghost r = self.root();
        let ghost p = self.rel();
        let ghost start = p.subrange(0, base as int);
        let ghost pick = of_length(len as int);
        proof {
            lemma_none_at_start(r, start, p, pick);
            if let Some(t) = r {
                lemma_places_after_bound(t, p);
            }
        }
        loop
            invariant
                self.wf(),
                r == self.root(),
                r == old(self).root(),
                p == old(self).rel(),
                start == p.subrange(0, base as int),
                pick == of_length(len as int),
                self.moved(old(self), self.rel()),
                base <= self.rel().len() <= len,
                self.rel().subrange(0, base as int) == start,
                none_up_to(r, start, p, pick, self.rel()),
                follows(old(obs), p, obs, self.rel()),
                left_after(r, self.rel()) >= 0,
            decreases left_after(r, self.rel()),
        {
            let ghost c = self.rel();
            let ghost watched = *obs;
            let stepped = self.next_within(base, Some(len), obs);
            proof {
                let q = if stepped {
                    Some(self.rel())
                } else {
                    None
                };
                lemma_narrow(r, start, p, pick, up_to(Some(len)), c, q);
                lemma_follows_trans(old(obs), p, &watched, c, obs, self.rel());
                if stepped {
                    lemma_step_shrinks(r, start, c, up_to(Some(len)), self.rel());
                }
            }
            if !stepped {
                return false;
            }
            if self.depth() == len {
                return true;
            }
        }
    }

    /// Descends the zipper's focus `k` bytes, following the first child at each branch, and
    /// continuing with depth-first exploration until a path that is `k` bytes from the focus has
    /// been found, and tells the observer.
    ///
    /// Returns `true` if the zipper has successfully descended `k` steps, or `false` otherwise. If
    /// this method returns `false` then the zipper will be in its original position. That is so also
    /// where the path would have more bytes than can be addressed.
    pub fn descend_first_k_path_observed<Obs: PathObserver>(&mut self, k: usize, obs: &mut Obs) -> (r:
        bool)
        requires
            old(self).wf(),
        ensures
            k == 0 ==> r && final(self).rel() == old(self).rel(),
            k > 0 ==> is_next(
                old(self).root(),
                old(self).rel(),
                old(self).rel(),
                of_held_length(old(self).rel().len() + k),
                if r {
                    Some(final(self).rel())
                } else {
                    None
                },
            ),
            !r ==> final(self).rel() == old(self).rel(),
            final(self).moved(old(self), final(self).rel()),
            follows(old(obs), old(self).rel(), final(obs), final(self).rel()),
    {
        if k == 0 {
            return true;
        }
        let base = self.depth();
        assert(self.rel().subrange(0, base as int) =~= self.rel());
        if k > usize::MAX - base {
            // No path is that long.
            return false;
        }
        self.to_length(base, base + k, obs)
    }

    /// The same as [descend_first_k_path_observed](Self::descend_first_k_path_observed), with
    /// nobody to tell.
    pub fn descend_first_k_path(&mut self, k: usize) -> (r: bool)
        requires
            old(self).wf(),
        ensures
            k == 0 ==> r && final(self).rel() == old(self).rel(),
            k > 0 ==> is_next(
                old(self).root(),
                old(self).rel(),
                old(self).rel(),
                of_held_length(old(self).rel().len() + k),
                if r {
                    Some(final(self).rel())
                } else {
                    None
                },
            ),
            !r ==> final(self).rel() == old(self).rel(),
            final(self).moved(old(self), final(self).rel()),
    {
        let mut nobody = ();
        self.descend_first_k_path_observed(k, &mut nobody)
    }

    /// Moves the zipper's focus to the next location with the same path length as the current
    /// focus, following a depth-first exploration from a common root `k` steps above the current
    /// focus, or from the zipper's root where that is closer, and tells the observer.
    ///
    /// Returns `true` if the zipper has successfully moved to a new location at the same level, or
    /// `false` if no further locations exist. If this method returns `false` then the zipper will
    /// be ascended to the common root.
    pub fn to_next_k_path_observed<Obs: PathObserver>(&mut self, k: usize, obs: &mut Obs) -> (r:
        bool)
        requires
            old(self).wf(),
        ensures
            is_next(
                old(self).root(),
                common_root(old(self).rel(), k as int),
                old(self).rel(),
                of_length(old(self).rel().len() as int),
                if r {
                    Some(final(self).rel())
                } else {
                    None
                },
            ),
            !r ==> final(self).rel() == common_root(old(self).rel(), k as int),
            final(self).moved(old(self), final(self).rel()),
            follows(old(obs), old(self).rel(), final(obs), final(self).rel()),
    {
        let len = self.depth();
        let base = if k <= len {
            len - k
        } else {
            0
        };
        self.to_length(base, len, obs)
    }

    /// The same as [to_next_k_path_observed](Self::to_next_k_path_observed), with nobody to tell.
    pub fn to_next_k_path(&mut self, k: usize) -> (r: bool)
        requires
            old(self).wf(),
        ensures
            is_next(
                old(self).root(),
                common_root(old(self).rel(), k as int),
                old(self).rel(),
                of_length(old(self).rel().len() as int),
                if r {
                    Some(final(self).rel())
                } else {
                    None
                },
            ),
            !r ==> final(self).rel() == common_root(old(self).rel(), k as int),
            final(self).moved(old(self), final(self).rel()),
    {
        let mut nobody = ();
        self.to_next_k_path_observed(k, &mut nobody)
    }

    /// Follows the last child to the end of the path that comes last of all below the focus.
    /// Returns `true` if the focus moved otherwise returns `false`.
    pub fn descend_last_path(&mut self) -> (r: bool)
        requires
            old(self).wf(),
        ensures
            ({
                let run = match old(self).here() {
                    Some(t) => last_below(t),
                    None => Seq::empty(),
                };
                &&& r == (run.len() > 0)
                &&& final(self).moved(old(self), old(self).rel() + run)
            }),
    {
        let ghost run = match self.here() {
            Some(t) => last_below(t),
            None => Seq::empty(),
        };
        let ghost mut done: Seq<u8> = Seq::empty();
        let mut moved = false;
        assert(old(self).rel() + done =~= old(self).rel());
        if !self.path_exists() {
            return false;
        }
        loop
            invariant
                self.wf(),
                self.here() is Some,
                self.moved(old(self), old(self).rel() + done),
                run =~= done + last_below(self.here()->Some_0),
                moved == (done.len() > 0),
                run == match old(self).here() {
                    Some(t) => last_below(t),
                    None => Seq::empty(),
                },
            decreases self.here()->Some_0,
        {
            let ghost t = self.here()->Some_0;
            let ghost before = *self;
            proof {
                lemma_members(t.kids.dom());
                lemma_rank_is_len(t.kids.dom());
            }
            match self.descend_last_byte() {
                None => {
                    return moved;
                },
                Some(b) => {
                    proof {
                        let bytes = members(t.kids.dom());
                        let k = rank(t.kids.dom(), b as nat) as int;
                        assert(bytes[k] == b);
                        assert(t.kids.dom().contains(bytes.last()));
                        assert(bytes.last() == b);
                        lemma_look_push(old(self).root(), before.rel(), b);
                        done = done.push(b);
                        assert(old(self).rel() + done =~= before.rel().push(b));
                    }
                    moved = true;
                },
            }
        }
    }

    /// Returns the total number of values contained at and below the zipper's focus, including
    /// the focus itself.
    pub fn val_count(&self) -> (n: usize)
        requires
            self.wf(),
            count_at(self.here()) <= usize::MAX,
        ensures
            n == count_at(self.here()),
    {
        match self.count_below() {
            Some(n) => n,
            None => 0,
        }
    }

    /// Returns the total number of values contained at and below the zipper's focus, or `None` if
    /// that is more than a machine word can tell. Paths that share their nodes are counted each.
    pub fn checked_val_count(&self) -> (r: Option<usize>)
        requires
            self.wf(),
        ensures
            match r {
                Some(n) => n == count_at(self.here()),
                None => count_at(self.here()) > usize::MAX,
            },
    {
        self.count_below()
    }
}

/// How many values are at and below a place.
pub open spec fn count_at(r: Option<Trie<u64>>) -> nat {
    match r {
        Some(t) => count_vals(t),
        None => 0,
    }
}

/// The path `k` bytes up from the end of `p`, or the root.
pub open spec fn common_root(p: Seq<u8>, k: int) -> Seq<u8> {
    if k <= p.len() {
        p.subrange(0, p.len() - k)
    } else {
        p.subrange(0, 0)
    }
}

proof fn lemma_follows_trans<Obs: PathObserver>(
    o0: &Obs,
    p0: Seq<u8>,
    o1: &Obs,
    p1: Seq<u8>,
    o2: &Obs,
    p2: Seq<u8>,
)
    requires
        follows(o0, p0, o1, p1),
        follows(o1, p1, o2, p2),
    ensures
        follows(o0, p0, o2, p2),
{
    assert forall|pre: Seq<u8>| #[trigger] o0.tracks(pre + p0) implies o2.tracks(pre + p2) by {
        assert(o1.tracks(pre + p1));
    }
}

} // verus!

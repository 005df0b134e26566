//! What the operations of a script do to a zipper that reads.

use vstd::prelude::*;

use crate::arena_compact::act_iter::follows;
use crate::arena_compact::act_moves::{is_sibling_move, run_from, sibling_path, stops_after};
use crate::arena_compact::act_zipper::ACTZipper;
use crate::arena_compact::tree::Storage;
use crate::harness::op::OpView;
use crate::harness::reply::Reply;
use crate::harness::script::{read_step, walk_text, walked};
use crate::harness::trace::{dump_text, is_dump};
use crate::laws::walks::{
    law_first_path_of_length, law_last_path_is_last, law_next_path_of_length,
    law_next_value_is_the_first_after, law_step_leads_to_the_next,
};
use crate::observer::PathObserver;
use crate::slices::overlap;
use crate::trie::Trie;
use crate::trie_order::{last_below, less};
use crate::trie_walk::{kids_of, look, reach, val_of, val_reach};
use crate::utils::bits::members;

verus! {

/// Whatever is done, a zipper reads the same trie from the same root afterwards.
pub proof fn law_reading_keeps_the_trie<S: Storage>(
    a: &ACTZipper<S, u64>,
    b: &ACTZipper<S, u64>,
    op: OpView,
    r: Option<Reply>,
)
    requires
        read_step(a, b, op, r),
    ensures
        b.wf(),
        b.whole() == a.whole(),
        b.origin() == a.origin(),
{
    if op.code == 16 && op.number > 0 {
        let l = choose|l: Seq<Seq<u8>>| #[trigger] walked(a, b, op.number, l);
    }
}

/// Moves to where they are told: down by a path or a byte, up by a number of bytes or one, to the
/// root, or to a path.
pub proof fn law_steps_to_where_told<S: Storage>(
    a: &ACTZipper<S, u64>,
    b: &ACTZipper<S, u64>,
    op: OpView,
    r: Option<Reply>,
)
    requires
        read_step(a, b, op, r),
    ensures
        op.code == 0 ==> r == Some(Reply::Done) && b.rel() == a.rel() + op.path,
        op.code == 1 ==> r == Some(Reply::Done) && b.rel() == a.rel().push(op.byte),
        op.code == 2 && op.number <= a.rel().len() <= usize::MAX ==> (r matches Some(Reply::Number(n)) && n as nat
            == op.number) && b.rel() == a.rel().subrange(0, a.rel().len() - op.number),
        op.code == 2 && op.number > a.rel().len() ==> b.rel() == Seq::<u8>::empty() && r == Some(
            Reply::Number(a.rel().len() as usize),
        ),
        op.code == 3 && a.rel().len() > 0 ==> r == Some(Reply::Bool(true)) && b.rel()
            == a.rel().drop_last(),
        op.code == 3 && a.rel().len() == 0 ==> r == Some(Reply::Bool(false)) && b.rel() == a.rel(),
        op.code == 4 ==> r == Some(Reply::Done) && b.rel() == Seq::<u8>::empty(),
        op.code == 18 && a.rel().len() <= usize::MAX ==> (r matches Some(Reply::Number(n)) && n
            as nat == overlap(op.path, a.rel())) && b.rel() == op.path,
        op.code == 23 ==> r == Some(Reply::Bool(look(a.here(), op.path) is Some)) && b.rel()
            == a.rel() + op.path,
        op.code == 24 ==> r == Some(Reply::Val(val_of(look(a.here(), op.path)))) && b.rel()
            == a.rel(),
        op.code == 51 ==> r == Some(
            Reply::Values(val_of(a.here()), val_of(look(a.here(), op.path)), true),
        ) && b.rel() == a.rel(),
{
    crate::slices::lemma_overlap(op.path, a.rel());
    if op.code == 2 && op.number > a.rel().len() {
        assert(a.rel().subrange(0, 0) =~= Seq::<u8>::empty());
    }
    if op.code == 3 {
        assert(a.rel().drop_last() =~= a.rel().subrange(0, a.rel().len() - 1));
        assert(a.rel().subrange(0, a.rel().len() as int) =~= a.rel());
    }
}

/// Moves to a child: the first, the last, the one in its turn, or the one for a byte. Where there is
/// none the zipper stays.
pub proof fn law_steps_to_a_child<S: Storage>(
    a: &ACTZipper<S, u64>,
    b: &ACTZipper<S, u64>,
    op: OpView,
    r: Option<Reply>,
    x: u8,
)
    requires
        read_step(a, b, op, r),
    ensures
        5 <= op.code <= 7 ==> (r matches Some(Reply::Byte(c)) && match c {
            Some(c) => kids_of(a.here()).contains(c) && b.rel() == a.rel().push(c),
            None => b.rel() == a.rel(),
        }),
        op.code == 5 && kids_of(a.here()).contains(x) ==> (r matches Some(Reply::Byte(Some(c))) && c
            <= x),
        op.code == 6 && kids_of(a.here()).contains(x) ==> (r matches Some(Reply::Byte(Some(c))) && x
            <= c),
        op.code == 7 ==> r == Some(
            Reply::Byte(
                if op.number < members(kids_of(a.here())).len() {
                    Some(members(kids_of(a.here()))[op.number as int])
                } else {
                    None
                },
            ),
        ),
        op.code == 21 ==> r == Some(Reply::Bool(kids_of(a.here()).contains(op.byte))),
        op.code == 21 && kids_of(a.here()).contains(op.byte) ==> b.rel() == a.rel().push(op.byte),
        op.code == 21 && !kids_of(a.here()).contains(op.byte) ==> b.rel() == a.rel(),
{
    crate::utils::bits::lemma_members(kids_of(a.here()));
}

/// Moves as far as places go: along a path, along it to a value, or to the next choice.
pub proof fn law_steps_as_far_as_places_go<S: Storage>(
    a: &ACTZipper<S, u64>,
    b: &ACTZipper<S, u64>,
    op: OpView,
    r: Option<Reply>,
)
    requires
        read_step(a, b, op, r),
        op.path.len() <= usize::MAX,
    ensures
        op.code == 19 ==> (r matches Some(Reply::Number(n)) && n as nat == reach(
            a.here(),
            op.path,
        ) && b.rel() == a.rel() + op.path.subrange(0, n as int)),
        op.code == 20 ==> (r matches Some(Reply::Number(n)) && n as nat == val_reach(
            a.here(),
            op.path,
        ) && b.rel() == a.rel() + op.path.subrange(0, n as int)),
        op.code == 8 || op.code == 47 ==> b.rel() == a.rel() + run_from(a.here()),
        op.code == 8 ==> r == Some(Reply::Bool(run_from(a.here()).len() > 0)),
        op.code == 47 ==> (r matches Some(Reply::Moved(m, run)) && run@ == run_from(a.here()) && (m
            <==> run@.len() > 0)),
        op.code == 22 && run_from(a.here()).len() <= op.number ==> b.rel() == a.rel() + run_from(
            a.here(),
        ),
        op.code == 22 && run_from(a.here()).len() > op.number ==> b.rel() == a.rel() + run_from(
            a.here(),
        ).subrange(0, op.number as int),
        op.code == 22 ==> (r matches Some(Reply::Bool(m)) && (m <==> b.rel() != a.rel())),
{
    crate::trie_walk::lemma_reach_bound(a.here(), op.path);
    let run = run_from(a.here());
    assert(run.subrange(0, run.len() as int) =~= run);
    if op.code == 22 {
        let n = if run.len() <= op.number {
            run.len() as int
        } else {
            op.number as int
        };
        let tail = run.subrange(0, n);
        assert((a.rel() + tail).len() == a.rel().len() + n);
        if n == 0 {
            assert(a.rel() + tail =~= a.rel());
        }
    }
}

/// Moves up to a choice or a value, and to siblings, are those of the zipper.
pub proof fn law_steps_up_and_aside<S: Storage>(
    a: &ACTZipper<S, u64>,
    b: &ACTZipper<S, u64>,
    op: OpView,
    r: Option<Reply>,
)
    requires
        read_step(a, b, op, r),
    ensures
        op.code == 9 ==> (r matches Some(Reply::Number(n)) && stops_after(
            a.root(),
            a.rel(),
            n as int,
            true,
        ) && b.rel() == a.rel().subrange(0, a.rel().len() - n)),
        op.code == 10 ==> (r matches Some(Reply::Number(n)) && stops_after(
            a.root(),
            a.rel(),
            n as int,
            false,
        ) && b.rel() == a.rel().subrange(0, a.rel().len() - n)),
        op.code == 11 ==> (r matches Some(Reply::Byte(c)) && is_sibling_move(
            a.root(),
            a.rel(),
            true,
            c,
        ) && b.rel() == sibling_path(a.rel(), c)),
        op.code == 12 ==> (r matches Some(Reply::Byte(c)) && is_sibling_move(
            a.root(),
            a.rel(),
            false,
            c,
        ) && b.rel() == sibling_path(a.rel(), c)),
{
}

/// Moves on to the next place, or to the next value, in the order of paths; to the root where there is
/// none.
pub proof fn law_steps_on<S: Storage>(
    a: &ACTZipper<S, u64>,
    b: &ACTZipper<S, u64>,
    op: OpView,
    r: Option<Reply>,
    t: Trie<u64>,
    x: Seq<u8>,
)
    requires
        read_step(a, b, op, r),
        a.root() == Some(t),
    ensures
        op.code == 13 ==> (r matches Some(Reply::Bool(m)) && {
            &&& m ==> t.has(b.rel()) && less(a.rel(), b.rel())
            &&& !m ==> b.rel() == Seq::<u8>::empty()
            &&& t.has(x) && less(a.rel(), x) ==> m && (x == b.rel() || less(b.rel(), x))
        }),
        op.code == 14 ==> (r matches Some(Reply::Bool(m)) && {
            &&& m ==> t.get(b.rel()) is Some && less(a.rel(), b.rel())
            &&& !m ==> b.rel() == Seq::<u8>::empty()
            &&& t.get(x) is Some && less(a.rel(), x) ==> m && (x == b.rel() || less(b.rel(), x))
        }),
{
    if op.code == 13 || op.code == 14 {
        let m = r->Some_0->Bool_0;
        let q = if m {
            Some(b.rel())
        } else {
            None
        };
        if op.code == 13 {
            law_step_leads_to_the_next(t, a.rel(), q, x);
        } else {
            law_next_value_is_the_first_after(t, a.rel(), q, x);
        }
    }
}

/// The first path of a number of bytes is the first of the places so far below; where there is none
/// the zipper stays.
pub proof fn law_steps_by_length<S: Storage>(
    a: &ACTZipper<S, u64>,
    b: &ACTZipper<S, u64>,
    op: OpView,
    r: Option<Reply>,
    t: Trie<u64>,
    x: Seq<u8>,
)
    requires
        read_step(a, b, op, r),
        a.root() == Some(t),
        op.code == 15,
        a.rel().len() + op.number <= usize::MAX,
    ensures
        r matches Some(Reply::Bool(m)) && {
            &&& op.number == 0 ==> m && b.rel() == a.rel()
            &&& !m ==> b.rel() == a.rel()
            &&& m && op.number > 0 ==> t.has(b.rel()) && b.rel().len() == a.rel().len() + op.number
                && b.rel().subrange(0, a.rel().len() as int) == a.rel()
            &&& op.number > 0 && x.len() == op.number && t.has(a.rel() + x) ==> m && (a.rel() + x
                == b.rel() || less(b.rel(), a.rel() + x))
        },
{
    let m = r->Some_0->Bool_0;
    if op.number > 0 {
        let q = if m {
            Some(b.rel())
        } else {
            None
        };
        law_first_path_of_length(t, a.rel(), op.number, q, x);
        if m {
            let n = a.rel().len() as int;
            assert((a.rel() + b.rel().subrange(n, b.rel().len() as int)).subrange(0, n)
                =~= a.rel());
        }
    }
}

/// A walk lists the paths of a length below a place in order, and all of them where they are few. The
/// zipper then stands where it stood, or else at the last that is listed.
pub proof fn law_walk_lists_paths<S: Storage>(
    a: &ACTZipper<S, u64>,
    b: &ACTZipper<S, u64>,
    k: nat,
    l: Seq<Seq<u8>>,
    t: Trie<u64>,
    x: Seq<u8>,
)
    requires
        walked(a, b, k, l),
        a.root() == Some(t),
        k > 0,
        a.rel().len() + k <= usize::MAX,
    ensures
        l.len() <= 32,
        forall|i: int|
            0 <= i < l.len() ==> t.has(#[trigger] l[i]) && l[i].len() == a.rel().len() + k
                && l[i].subrange(0, a.rel().len() as int) == a.rel(),
        forall|i: int| 0 <= i < l.len() - 1 ==> less(#[trigger] l[i], l[i + 1]),
        l.len() < 32 ==> b.rel() == a.rel(),
        l.len() < 32 && x.len() == k && t.has(a.rel() + x) ==> l.contains(a.rel() + x),
        l.len() == 32 ==> b.rel() == l[31],
{
    let n = a.rel().len() as int;
    let p = a.rel();
    assert forall|i: int| 0 <= i < l.len() implies t.has(#[trigger] l[i]) && l[i].len() == n + k
        && l[i].subrange(0, n) == p by {
        lemma_walked(a, b, k, l, t, i);
    }
    assert forall|i: int| 0 <= i < l.len() - 1 implies less(#[trigger] l[i], l[i + 1]) by {
        let j = i + 1;
        assert(l[j] == l[i + 1]);
        law_next_path_of_length(t, l[i], k, Some(l[j]), x);
    }
    if l.len() == 0 {
        law_first_path_of_length(t, p, k, None, x);
    } else if l.len() < 32 {
        let last = l.last();
        assert(l[l.len() - 1] == last);
        assert(last.subrange(0, n) == p);
        if x.len() == k && t.has(p + x) && !l.contains(p + x) {
            lemma_all_walked(a, b, k, l, t, x, l.len() - 1);
            law_next_path_of_length(t, last, k, None, p + x);
            assert((p + x).subrange(0, n) =~= p);
        }
    }
}

proof fn lemma_walked<S: Storage>(
    a: &ACTZipper<S, u64>,
    b: &ACTZipper<S, u64>,
    k: nat,
    l: Seq<Seq<u8>>,
    t: Trie<u64>,
    i: int,
)
    requires
        walked(a, b, k, l),
        a.root() == Some(t),
        k > 0,
        a.rel().len() + k <= usize::MAX,
        0 <= i < l.len(),
    ensures
        t.has(l[i]),
        l[i].len() == a.rel().len() + k,
        l[i].subrange(0, a.rel().len() as int) == a.rel(),
    decreases i,
{
    let n = a.rel().len() as int;
    if i == 0 {
        law_first_path_of_length(t, a.rel(), k, Some(l[0]), Seq::empty());
        assert((a.rel() + l[0].subrange(n, l[0].len() as int)).subrange(0, n) =~= a.rel());
    } else {
        let h = i - 1;
        lemma_walked(a, b, k, l, t, h);
        assert(l[h + 1] == l[i]);
        law_next_path_of_length(t, l[h], k, Some(l[i]), Seq::empty());
    }
}

/// A place so far below that is not listed comes after those that are.
proof fn lemma_all_walked<S: Storage>(
    a: &ACTZipper<S, u64>,
    b: &ACTZipper<S, u64>,
    k: nat,
    l: Seq<Seq<u8>>,
    t: Trie<u64>,
    x: Seq<u8>,
    i: int,
)
    requires
        walked(a, b, k, l),
        a.root() == Some(t),
        k > 0,
        a.rel().len() + k <= usize::MAX,
        x.len() == k,
        t.has(a.rel() + x),
        !l.contains(a.rel() + x),
        0 <= i < l.len(),
    ensures
        less(l[i], a.rel() + x),
    decreases i,
{
    let n = a.rel().len() as int;
    let y = a.rel() + x;
    assert(y.subrange(0, n) =~= a.rel());
    assert(l.contains(l[i]));
    lemma_walked(a, b, k, l, t, i);
    if i == 0 {
        law_first_path_of_length(t, a.rel(), k, Some(l[0]), x);
    } else {
        let h = i - 1;
        lemma_all_walked(a, b, k, l, t, x, h);
        lemma_walked(a, b, k, l, t, h);
        assert(l[h + 1] == l[i]);
        law_next_path_of_length(t, l[h], k, Some(l[i]), y);
    }
}

/// What the walk of a script tells is such a list.
pub proof fn law_step_of_walk<S: Storage>(
    a: &ACTZipper<S, u64>,
    b: &ACTZipper<S, u64>,
    op: OpView,
    r: Option<Reply>,
)
    requires
        read_step(a, b, op, r),
        op.code == 16,
    ensures
        op.number == 0 ==> r is None && b.rel() == a.rel(),
        op.number > 0 ==> (r matches Some(Reply::Text(text)) && exists|l: Seq<Seq<u8>>| #[trigger]
            walked(a, b, op.number, l) && text@ == walk_text(l)),
{
}

/// The last path is that of the zipper.
pub proof fn law_step_to_last_path<S: Storage>(
    a: &ACTZipper<S, u64>,
    b: &ACTZipper<S, u64>,
    op: OpView,
    r: Option<Reply>,
    t: Trie<u64>,
    x: Seq<u8>,
)
    requires
        read_step(a, b, op, r),
        op.code == 17,
        a.here() == Some(t),
    ensures
        r matches Some(Reply::Bool(m)) && {
            let run = b.rel().subrange(a.rel().len() as int, b.rel().len() as int);
            &&& b.rel() == a.rel() + run
            &&& m <==> run.len() > 0
            &&& t.has(run)
            &&& t.has(x) ==> !less(run, x)
            &&& forall|c: u8| !t.has(#[trigger] run.push(c))
        },
{
    let run = last_below(t);
    law_last_path_is_last(t, x);
    assert(b.rel() =~= a.rel() + run);
    assert(b.rel().subrange(a.rel().len() as int, b.rel().len() as int) =~= run);
}

/// A dump lists the places of a trie in order from the root on, and all of them where they are few.
pub proof fn law_dump_lists_places(t: Trie<u64>, l: Seq<Seq<u8>>, x: Seq<u8>)
    requires
        is_dump(Some(t), l),
    ensures
        0 < l.len() <= 64,
        l[0] == Seq::<u8>::empty(),
        forall|i: int| 0 <= i < l.len() - 1 ==> less(#[trigger] l[i], l[i + 1]),
        forall|i: int| 0 <= i < l.len() ==> t.has(#[trigger] l[i]),
        l.len() < 64 && t.has(x) ==> l.contains(x),
        l.len() == 64 && t.has(x) && !l.contains(x) ==> less(l[63], x),
{
    assert forall|i: int| 0 <= i < l.len() - 1 implies less(#[trigger] l[i], l[i + 1]) by {
        let j = i + 1;
        assert(l[j] == l[i + 1]);
        law_step_leads_to_the_next(t, l[i], Some(l[j]), x);
    }
    assert forall|i: int| 0 <= i < l.len() implies t.has(#[trigger] l[i]) by {
        if i > 0 {
            let h = i - 1;
            assert(l[h + 1] == l[i]);
            law_step_leads_to_the_next(t, l[h], Some(l[i]), x);
        }
    }
    if t.has(x) && !l.contains(x) {
        lemma_all_dumped(t, l, x, l.len() - 1);
        if l.len() < 64 {
            law_step_leads_to_the_next(t, l.last(), None, x);
        }
    }
}

proof fn lemma_all_dumped(t: Trie<u64>, l: Seq<Seq<u8>>, x: Seq<u8>, i: int)
    requires
        is_dump(Some(t), l),
        t.has(x),
        !l.contains(x),
        0 <= i < l.len(),
    ensures
        less(l[i], x),
    decreases i,
{
    assert(l.contains(l[i]));
    if i == 0 {
        assert(overlap(l[0], x) == 0);
        if x.len() == 0 {
            assert(x =~= l[0]);
        }
    } else {
        let h = i - 1;
        lemma_all_dumped(t, l, x, h);
        assert(l[h + 1] == l[i]);
        law_step_leads_to_the_next(t, l[h], Some(l[i]), x);
    }
}

/// The dump of a script is one of what is below where the zipper stands, which stays there.
pub proof fn law_step_of_dump<S: Storage>(
    a: &ACTZipper<S, u64>,
    b: &ACTZipper<S, u64>,
    op: OpView,
    r: Option<Reply>,
)
    requires
        read_step(a, b, op, r),
        op.code == 26,
    ensures
        b.rel() == a.rel(),
        r matches Some(Reply::Text(text)) && exists|l: Seq<Seq<u8>>| #[trigger]
            is_dump(a.here(), l) && text@ == dump_text(a.here(), l),
{
}

/// A zipper that reads does nothing for the operations that are not for it.
pub proof fn law_steps_that_are_not_taken<S: Storage>(
    a: &ACTZipper<S, u64>,
    b: &ACTZipper<S, u64>,
    op: OpView,
    r: Option<Reply>,
)
    requires
        read_step(a, b, op, r),
        op.code == 25 || 27 <= op.code <= 46 || 48 <= op.code <= 50 || op.code >= 52,
    ensures
        r is None,
        b.rel() == a.rel(),
{
}

/// Whoever follows a zipper as a list of bytes has the bytes by which it moved.
pub proof fn law_lists_follow(before: Vec<u8>, from: Seq<u8>, after: Vec<u8>, to: Seq<u8>, pre: Seq<u8>)
    requires
        follows(&before, from, &after, to),
        before@ == pre + from,
    ensures
        after@ == pre + to,
{
    assert(PathObserver::tracks(&before, pre + from));
}

} // verus!

//! Carrying out operations on a zipper over a compact trie.

use vstd::prelude::*;

use crate::arena_compact::act_iter::{any_place, common_root, of_held_length, of_length, with_value};
use crate::arena_compact::act_moves::{
    is_sibling_move, run_from, sibling_path, stops_after,
};
use crate::arena_compact::act_zipper::ACTZipper;
use crate::arena_compact::tree::Storage;
use crate::harness::op::{Op, OpView};
use crate::harness::reply::Reply;
use crate::harness::show::{hex_path, path_text};
use crate::harness::trace::{dump, dump_text, is_dump};
use crate::observer::PathObserver;
use crate::slices::overlap;
use crate::trie::Trie;
use crate::trie_order::{is_next, last_below};
use crate::trie_walk::{kids_of, look, reach, val_of, val_reach};
use crate::utils::bits::{is_least, members};
use crate::zipper::up;

verus! {

/// Maximum paths in a walk.
pub const WALK_CAP: usize = 32;

/// The smaller of two numbers.
pub open spec fn lesser(a: nat, b: nat) -> nat {
    if a <= b {
        a
    } else {
        b
    }
}

/// The zipper `b` is `a` moved on to the next place that `pick` picks, or to the root where there
/// is none. `r` tells which.
pub open spec fn next_move<S: Storage>(
    a: &ACTZipper<S, u64>,
    b: &ACTZipper<S, u64>,
    pick: spec_fn(Seq<u8>, Trie<u64>) -> bool,
    r: bool,
) -> bool {
    &&& b.moved(a, b.rel())
    &&& is_next(
        a.root(),
        Seq::empty(),
        a.rel(),
        pick,
        if r {
            Some(b.rel())
        } else {
            None
        },
    )
    &&& !r ==> b.rel() == Seq::<u8>::empty()
}

/// The zipper `b` is `a` moved down by the byte `r`, or left where it is.
pub open spec fn byte_move<S: Storage>(
    a: &ACTZipper<S, u64>,
    b: &ACTZipper<S, u64>,
    r: Option<u8>,
) -> bool {
    match r {
        Some(c) => b.moved(a, a.rel().push(c)),
        None => b.moved(a, a.rel()),
    }
}

/// The paths with commas between.
pub open spec fn walk_text(l: Seq<Seq<u8>>) -> Seq<char>
    decreases l.len(),
{
    if l.len() == 0 {
        Seq::empty()
    } else if l.len() == 1 {
        path_text(l.last())
    } else {
        walk_text(l.drop_last()) + ","@ + path_text(l.last())
    }
}

/// `l` is the first path `k` bytes below `rel`, where there is one, and those after it, in order,
/// one next to the other.
pub open spec fn is_walk(root: Option<Trie<u64>>, rel: Seq<u8>, k: nat, l: Seq<Seq<u8>>) -> bool {
    &&& l.len() > 0 ==> is_next(
        root,
        rel,
        rel,
        of_held_length((rel.len() + k) as int),
        Some(l[0]),
    )
    &&& forall|i: int, j: int|
        0 <= i && j == i + 1 && j < l.len() ==> is_next(
            root,
            common_root(l[i], k as int),
            #[trigger] l[i],
            of_length(l[i].len() as int),
            Some(#[trigger] l[j]),
        )
}

/// The zipper `b` is `a` after a walk over `l`, all the paths `k` bytes below or the first so many.
pub open spec fn walked<S: Storage>(
    a: &ACTZipper<S, u64>,
    b: &ACTZipper<S, u64>,
    k: nat,
    l: Seq<Seq<u8>>,
) -> bool {
    &&& is_walk(a.root(), a.rel(), k, l)
    &&& l.len() <= WALK_CAP
    &&& if l.len() == 0 {
        &&& is_next(a.root(), a.rel(), a.rel(), of_held_length((a.rel().len() + k) as int), None)
        &&& b.moved(a, a.rel())
    } else if l.len() < WALK_CAP {
        let last = l.last();
        &&& is_next(
            a.root(),
            common_root(last, k as int),
            last,
            of_length(last.len() as int),
            None,
        )
        &&& b.moved(a, common_root(last, k as int))
    } else {
        b.moved(a, l.last())
    }
}

/// What an operation does to a zipper over a compact trie: `b` is `a` afterwards, and `r` is what
/// it answers. An operation that such a zipper does not offer leaves it alone.
pub open spec fn read_step<S: Storage>(
    a: &ACTZipper<S, u64>,
    b: &ACTZipper<S, u64>,
    op: OpView,
    r: Option<Reply>,
) -> bool {
    match op.code {
        0 => r == Some(Reply::Done) && b.moved(a, a.rel() + op.path),
        1 => r == Some(Reply::Done) && b.moved(a, a.rel().push(op.byte)),
        2 => {
            let n = lesser(op.number, a.rel().len());
            r == Some(Reply::Number(n as usize)) && b.moved(a, up(a.rel(), n as int))
        },
        3 => {
            let n = lesser(1, a.rel().len());
            r == Some(Reply::Bool(n > 0)) && b.moved(a, up(a.rel(), n as int))
        },
        4 => r == Some(Reply::Done) && b.moved(a, Seq::empty()),
        5 => (r matches Some(Reply::Byte(c)) && byte_move(a, b, c) && match c {
            Some(c) => is_least(kids_of(a.here()), c),
            None => kids_of(a.here()) == Set::<u8>::empty(),
        }),
        6 => (r matches Some(Reply::Byte(c)) && byte_move(a, b, c) && match c {
            Some(c) => kids_of(a.here()).contains(c) && forall|x: u8| #[trigger]
                kids_of(a.here()).contains(x) ==> x <= c,
            None => kids_of(a.here()) == Set::<u8>::empty(),
        }),
        7 => (r matches Some(Reply::Byte(c)) && byte_move(a, b, c) && c == if op.number < members(
            kids_of(a.here()),
        ).len() {
            Some(members(kids_of(a.here()))[op.number as int])
        } else {
            None
        }),
        8 => r == Some(Reply::Bool(run_from(a.here()).len() > 0)) && b.moved(
            a,
            a.rel() + run_from(a.here()),
        ),
        9 | 10 => (r matches Some(Reply::Number(n)) && stops_after(
            a.root(),
            a.rel(),
            n as int,
            op.code == 9,
        ) && b.moved(a, up(a.rel(), n as int))),
        11 | 12 => (r matches Some(Reply::Byte(c)) && is_sibling_move(
            a.root(),
            a.rel(),
            op.code == 11,
            c,
        ) && b.moved(a, sibling_path(a.rel(), c))),
        13 => (r matches Some(Reply::Bool(m)) && next_move(a, b, any_place(), m)),
        14 => (r matches Some(Reply::Bool(m)) && next_move(a, b, with_value(), m)),
        15 => (r matches Some(Reply::Bool(m)) && b.moved(a, b.rel()) && (op.number == 0 ==> m
            && b.rel() == a.rel()) && (op.number > 0 ==> is_next(
            a.root(),
            a.rel(),
            a.rel(),
            of_held_length((a.rel().len() + op.number) as int),
            if m {
                Some(b.rel())
            } else {
                None
            },
        )) && (!m ==> b.rel() == a.rel())),
        16 => if op.number == 0 {
            r is None && b.moved(a, a.rel())
        } else {
            (r matches Some(Reply::Text(t)) && exists|l: Seq<Seq<u8>>|
                #[trigger] walked(a, b, op.number, l) && t@ == walk_text(l))
        },
        17 => {
            let run = match a.here() {
                Some(t) => last_below(t),
                None => Seq::empty(),
            };
            r == Some(Reply::Bool(run.len() > 0)) && b.moved(a, a.rel() + run)
        },
        18 => r == Some(Reply::Number(overlap(op.path, a.rel()) as usize)) && b.moved(a, op.path),
        19 => {
            let n = reach(a.here(), op.path);
            r == Some(Reply::Number(n as usize)) && b.moved(
                a,
                a.rel() + op.path.subrange(0, n as int),
            )
        },
        20 => {
            let n = val_reach(a.here(), op.path);
            r == Some(Reply::Number(n as usize)) && b.moved(
                a,
                a.rel() + op.path.subrange(0, n as int),
            )
        },
        21 => {
            let m = kids_of(a.here()).contains(op.byte);
            r == Some(Reply::Bool(m)) && b.moved(
                a,
                if m {
                    a.rel().push(op.byte)
                } else {
                    a.rel()
                },
            )
        },
        22 => {
            let n = lesser(op.number, run_from(a.here()).len());
            r == Some(Reply::Bool(n > 0)) && b.moved(
                a,
                a.rel() + run_from(a.here()).subrange(0, n as int),
            )
        },
        23 => r == Some(Reply::Bool(look(a.here(), op.path) is Some)) && b.moved(
            a,
            a.rel() + op.path,
        ),
        24 => r == Some(Reply::Val(val_of(look(a.here(), op.path)))) && b.moved(a, a.rel()),
        26 => b.moved(a, a.rel()) && (r matches Some(Reply::Text(t)) && exists|l: Seq<Seq<u8>>|
            #[trigger] is_dump(a.here(), l) && t@ == dump_text(a.here(), l)),
        47 => (r matches Some(Reply::Moved(m, run)) && m == (run_from(a.here()).len() > 0) && run@
            == run_from(a.here()) && b.moved(a, a.rel() + run_from(a.here()))),
        51 => b.moved(a, a.rel()) && r == Some(
            Reply::Values(val_of(a.here()), val_of(look(a.here(), op.path)), true),
        ),
        _ => r is None && b.moved(a, a.rel()),
    }
}

fn walk_k_paths<'t, S: Storage>(z: &mut ACTZipper<'t, S, u64>, k: usize) -> (r: String)
    requires
        old(z).wf(),
        k > 0,
    ensures
        exists|l: Seq<Seq<u8>>| #[trigger]
            walked(old(z), final(z), k as nat, l) && r@ == walk_text(l),
{
    let mut s = String::new();
    let ghost root = z.root();
    let ghost rel = z.rel();
    let ghost mut l: Seq<Seq<u8>> = Seq::empty();
    if !z.descend_first_k_path(k) {
        proof {
            assert(walked(old(z), z, k as nat, l));
            assert(s@ =~= walk_text(l));
        }
        return s;
    }
    s.push_str(hex_path(z.path()).as_str());
    proof {
        l = seq![z.rel()];
        assert(s@ =~= walk_text(l));
    }
    let mut count: usize = 1;
    while count < WALK_CAP
        invariant
            1 <= count <= WALK_CAP,
            count == l.len(),
            root == old(z).root(),
            rel == old(z).rel(),
            is_walk(root, rel, k as nat, l),
            z.moved(old(z), l.last()),
            s@ == walk_text(l),
        decreases WALK_CAP - count,
    {
        if !z.to_next_k_path(k) {
            assert(walked(old(z), z, k as nat, l));
            return s;
        }
        let ghost l2 = l.push(z.rel());
        s.push_str(",");
        s.push_str(hex_path(z.path()).as_str());
        proof {
            assert(l2.drop_last() =~= l);
            assert(l2.last() == z.rel());
            l = l2;
        }
        count = count + 1;
        assert(s@ =~= walk_text(l));
    }
    assert(walked(old(z), z, k as nat, l));
    s
}

/// Carries an operation out on the zipper that reads. The answer is `None` where the zipper does
/// not offer it.
pub fn read_op<'t, S: Storage>(z: &mut ACTZipper<'t, S, u64>, op: &Op) -> (r: Option<Reply>)
    requires
        old(z).wf(),
    ensures
        read_step(old(z), final(z), op@, r),
{
    proof {
        assert(up(z.rel(), 0) =~= z.rel());
        crate::utils::bits::lemma_members(kids_of(z.here()));
    }
    match op.code {
        0 => {
            z.descend_to(op.path.as_slice());
            Some(Reply::Done)
        },
        1 => {
            z.descend_to_byte(op.byte);
            Some(Reply::Done)
        },
        2 => Some(Reply::Number(z.ascend(op.number))),
        3 => Some(Reply::Bool(z.ascend_byte())),
        4 => {
            z.reset();
            Some(Reply::Done)
        },
        5 => Some(Reply::Byte(z.descend_first_byte())),
        6 => Some(Reply::Byte(z.descend_last_byte())),
        7 => Some(Reply::Byte(z.descend_indexed_byte(op.number))),
        8 => Some(Reply::Bool(z.descend_until())),
        9 => Some(Reply::Number(z.ascend_until())),
        10 => Some(Reply::Number(z.ascend_until_branch())),
        11 => Some(Reply::Byte(z.to_next_sibling_byte())),
        12 => Some(Reply::Byte(z.to_prev_sibling_byte())),
        13 => Some(Reply::Bool(z.to_next_step())),
        14 => Some(Reply::Bool(z.to_next_val())),
        15 => Some(Reply::Bool(z.descend_first_k_path(op.number))),
        16 => if op.number == 0 {
            None
        } else {
            Some(Reply::Text(walk_k_paths(z, op.number)))
        },
        17 => Some(Reply::Bool(z.descend_last_path())),
        18 => Some(Reply::Number(z.move_to_path(op.path.as_slice()))),
        19 => Some(Reply::Number(z.descend_to_existing(op.path.as_slice()))),
        20 => Some(Reply::Number(z.descend_to_val(op.path.as_slice()))),
        21 => Some(Reply::Bool(z.descend_to_existing_byte(op.byte))),
        22 => Some(Reply::Bool(z.descend_until_max_bytes(op.number))),
        23 => Some(Reply::Bool(z.descend_to_check(op.path.as_slice()))),
        24 => Some(Reply::Val(z.val_at(op.path.as_slice()))),
        26 => {
            let mut fork = z.fork_read_zipper();
            Some(Reply::Text(dump(&mut fork)))
        },
        47 => {
            let mut run: Vec<u8> = Vec::new();
            let ghost before = run;
            let moved = z.descend_until_observed(&mut run);
            proof {
                let none = Seq::<u8>::empty();
                let down = run_from(old(z).here());
                assert(before@ =~= none);
                assert(before.tracks(none));
                assert(run.tracks(none + down));
                assert(none + down =~= down);
            }
            Some(Reply::Moved(moved, run))
        },
        51 => {
            // The values that are read through the trie agree with those of the zipper.
            let (g, ga) = (z.get_val(), z.get_val_at(op.path.as_slice()));
            let (v, va) = (z.get_value(), z.val_at(op.path.as_slice()));
            let agree = same_val(g, v) && same_val(ga, va);
            Some(Reply::Values(g, ga, agree))
        },
        _ => None,
    }
}

fn same_val(a: Option<u64>, b: Option<u64>) -> (r: bool)
    ensures
        r == (a == b),
{
    match (a, b) {
        (Some(a), Some(b)) => a == b,
        (None, None) => true,
        _ => false,
    }
}

} // verus!

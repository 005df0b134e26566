//! What scripts say, and what is done for them.

use vstd::prelude::*;

use crate::harness::dec::{mod_of, path_at, path_letters, path_n_at, run_out};
use crate::harness::header::{entries_at, header_at, map_at, with_path};
use crate::harness::op::{
    arg_at, args_at, args_of, bare, name_of, op_at, Arg, OpView, DUMP_CAP, MAX_STEPS, NOPS,
};
use crate::harness::reply::{is_masked, plan_of, Facts, Plan};
use crate::harness::script::WALK_CAP;
use crate::laws::tries::law_put_value;
use crate::trie::Trie;

verus! {

/// An operation is left out only for one of these reasons: it is a move to a sibling of a root; it
/// takes a path or a number of no length where that makes no sense; it prunes below a root that is not
/// that of the map; it takes the zipper that reads as a source, which that is not; it depends on nodes
/// that hold nothing; or it is the one that is always left out, or none at all.
pub proof fn law_left_out_for_a_reason(op: OpView, f: Facts)
    ensures
        plan_of(op, f) == Plan::Skip <==> {
            ||| (op.code == 11 || op.code == 12) && op.target == 0 && f.write_at_root
            ||| (op.code == 11 || op.code == 12) && op.target != 0 && f.read_at_root
            ||| (op.code == 15 || op.code == 16 || op.code == 42 || op.code == 46) && op.number == 0
            ||| op.code == 43 && op.path.len() == 0
            ||| (op.code == 30 || op.code == 31) && !f.pruneable
            ||| (34 <= op.code <= 41 || op.code == 52 || op.code == 53 || op.code == 55) && !f.source
            ||| op.code == 25 && op.target != 0 && !f.source
            ||| op.code == 41 && (f.write_children == 0 || f.read_children == 0)
            ||| op.code == 46 && f.write_children == 0
            ||| op.code == 54
            ||| op.code > 55
        },
{
}

/// Values are set, taken away and made, and paths made, whatever is known of the zippers, and always
/// by the one that writes.
pub proof fn law_writing_is_never_left_out(op: OpView, f: Facts)
    requires
        27 <= op.code <= 29 || op.code == 32 || op.code == 33 || op.code == 44 || op.code == 45 || 48
            <= op.code <= 50,
    ensures
        plan_of(op, f) == Plan::Write,
{
}

/// What is carried out is carried out by the zipper that it is for: one that changes the map by the
/// one that writes; one that goes from value to value or along paths of a length, or to the last path,
/// by the one that reads; every other by the one that it names.
pub proof fn law_carried_out_by(op: OpView, f: Facts)
    requires
        plan_of(op, f) != Plan::Skip,
    ensures
        plan_of(op, f) == Plan::Read <==> (14 <= op.code <= 17 || op.code == 52) || (op.target != 0 && (
        op.code <= 13 || 18 <= op.code <= 26 || op.code == 47 || op.code == 51)),
{
}

/// The answer is kept back where it tells only of nodes that hold nothing, and nowhere else.
pub proof fn law_answers_kept_back(op: OpView, before: Facts, after: nat)
    ensures
        is_masked(op, before, after) <==> {
            ||| (op.code == 32 || op.code == 37 || op.code == 40) && before.write_children == 0
            ||| op.code == 42 && after == 0
            ||| op.code == 45 && before.write_children == 0 && !before.write_val
        },
{
}

/// A number is the rest of a byte, and zero where there is nothing to divide by. Where bytes are missing
/// all that are left are used up.
pub proof fn law_numbers_from_bytes(b: u8, m: nat, len: nat, pos: int)
    ensures
        m > 0 ==> mod_of(b, m) == b as nat % m,
        m == 0 ==> mod_of(b, m) == 0,
        0 <= pos <= len ==> run_out(len, pos) == len,
        pos > len ==> run_out(len, pos) == pos,
{
}

/// How long scripts, dumps and walks can be, and how many operations there are.
pub proof fn law_limits()
    ensures
        NOPS == 56,
        MAX_STEPS == 256,
        DUMP_CAP == 64,
        WALK_CAP == 32,
{
}

/// The letters that `n` bytes from `pos` on stand for.
pub open spec fn letters(s: Seq<u8>, pos: int, n: nat) -> Seq<u8> {
    Seq::new(n, |i: int| (s[pos + i] % 4) as u8)
}

/// A path is a byte that tells its length, and then a byte for each of its letters.
pub proof fn law_path_is_length_and_letters(s: Seq<u8>, pos: int, lim: nat)
    requires
        0 <= pos < s.len(),
        0 < lim,
    ensures
        ({
            let n = s[pos] as nat % lim;
            path_at(s, pos, lim) == if pos + 1 + n <= s.len() {
                Some((letters(s, pos + 1, n), pos + 1 + n))
            } else {
                None
            }
        }),
        path_at(s, s.len() as int, lim) is None,
{
    let n = s[pos] as nat % lim;
    law_letters(s, pos + 1, n);
}

/// So many bytes stand for so many letters, where there are as many.
pub proof fn law_letters(s: Seq<u8>, pos: int, n: nat)
    requires
        0 <= pos <= s.len(),
    ensures
        path_n_at(s, pos, n) == if pos + n <= s.len() {
            Some((letters(s, pos, n), pos + n))
        } else {
            None
        },
{
    if n == 0 {
        assert(letters(s, pos, 0) =~= Seq::empty());
    } else if pos + n <= s.len() {
        assert(path_letters(s.subrange(pos, pos + n)) =~= letters(s, pos, n));
    }
}

proof fn lemma_none(s: Seq<u8>, pos: int, op: OpView)
    ensures
        args_at(s, pos, seq![], op) == Some((op, pos)),
{
}

proof fn lemma_one(s: Seq<u8>, pos: int, a: Arg, op: OpView)
    ensures
        args_at(s, pos, seq![a], op) == arg_at(s, pos, a, op),
{
    assert(seq![a].drop_last() =~= seq![]);
    lemma_none(s, pos, op);
}

proof fn lemma_two(s: Seq<u8>, pos: int, a: Arg, b: Arg, op: OpView)
    ensures
        args_at(s, pos, seq![a, b], op) == match arg_at(s, pos, a, op) {
            None => None,
            Some((op, next)) => arg_at(s, next, b, op),
        },
{
    assert(seq![a, b].drop_last() =~= seq![a]);
    lemma_one(s, pos, a, op);
}

/// An operation that says nothing but what it is.
pub open spec fn plain(code: u8) -> OpView {
    OpView {
        code,
        target: 0,
        path: seq![],
        byte: 0,
        number: 0,
        value: 0,
        flag: false,
        mask: seq![],
    }
}

/// These take a zipper and a path.
pub proof fn law_op_of_path(s: Seq<u8>, pos: int)
    requires
        0 <= pos < s.len(),
    ensures
        ({
            let code = (s[pos] % 56) as u8;
            code == 0 || code == 18 || code == 19 || code == 20 || code == 23 || code == 24 || code == 51 ==> op_at(s, pos) == if pos + 2 < s.len() && pos + 3 + s[pos + 2] % 6 <= s.len() {
                Some((OpView { target: (s[pos + 1] % 2) as nat, path: letters(s, pos + 3, (s[pos + 2] % 6) as nat), ..plain(code) }, pos + 3 + s[pos + 2] % 6))
            } else {
                None
            }
        }),
{
    let code = (s[pos] % 56) as u8;
    if code == 0 || code == 18 || code == 19 || code == 20 || code == 23 || code == 24 || code == 51 {
        let op = bare(code);
        assert(args_of(code) == seq![Arg::Target, Arg::Path]);
        lemma_two(s, pos + 1, Arg::Target, Arg::Path, op);
        if pos + 2 < s.len() {
            law_path_is_length_and_letters(s, pos + 2, 6);
        }
    }
}

/// These take a zipper and a letter.
pub proof fn law_op_of_byte(s: Seq<u8>, pos: int)
    requires
        0 <= pos < s.len(),
    ensures
        ({
            let code = (s[pos] % 56) as u8;
            code == 1 || code == 21 ==> op_at(s, pos) == if pos + 2 < s.len() {
                Some((OpView { target: (s[pos + 1] % 2) as nat, byte: (s[pos + 2] % 4) as u8, ..plain(code) }, pos + 3))
            } else {
                None
            }
        }),
{
    let code = (s[pos] % 56) as u8;
    if code == 1 || code == 21 {
        let op = bare(code);
        lemma_two(s, pos + 1, Arg::Target, Arg::Byte, op);
    }
}

/// These take a zipper and a number.
pub proof fn law_op_of_number_below_eight(s: Seq<u8>, pos: int)
    requires
        0 <= pos < s.len(),
    ensures
        ({
            let code = (s[pos] % 56) as u8;
            code == 2 || code == 22 ==> op_at(s, pos) == if pos + 2 < s.len() {
                Some((OpView { target: (s[pos + 1] % 2) as nat, number: (s[pos + 2] % 8) as nat, ..plain(code) }, pos + 3))
            } else {
                None
            }
        }),
{
    let code = (s[pos] % 56) as u8;
    if code == 2 || code == 22 {
        let op = bare(code);
        lemma_two(s, pos + 1, Arg::Target, Arg::Number(8), op);
    }
}

/// These take a zipper and a number.
pub proof fn law_op_of_number_below_six(s: Seq<u8>, pos: int)
    requires
        0 <= pos < s.len(),
    ensures
        ({
            let code = (s[pos] % 56) as u8;
            code == 7 ==> op_at(s, pos) == if pos + 2 < s.len() {
                Some((OpView { target: (s[pos + 1] % 2) as nat, number: (s[pos + 2] % 6) as nat, ..plain(code) }, pos + 3))
            } else {
                None
            }
        }),
{
    let code = (s[pos] % 56) as u8;
    if code == 7 {
        let op = bare(code);
        lemma_two(s, pos + 1, Arg::Target, Arg::Number(6), op);
    }
}

/// These take a zipper and a number.
pub proof fn law_op_of_number_below_four(s: Seq<u8>, pos: int)
    requires
        0 <= pos < s.len(),
    ensures
        ({
            let code = (s[pos] % 56) as u8;
            code == 15 || code == 16 ==> op_at(s, pos) == if pos + 2 < s.len() {
                Some((OpView { target: (s[pos + 1] % 2) as nat, number: (s[pos + 2] % 4) as nat, ..plain(code) }, pos + 3))
            } else {
                None
            }
        }),
{
    let code = (s[pos] % 56) as u8;
    if code == 15 || code == 16 {
        let op = bare(code);
        lemma_two(s, pos + 1, Arg::Target, Arg::Number(4), op);
    }
}

/// These take a zipper alone.
pub proof fn law_op_of_zipper(s: Seq<u8>, pos: int)
    requires
        0 <= pos < s.len(),
    ensures
        ({
            let code = (s[pos] % 56) as u8;
            code == 3 || code == 4 || code == 5 || code == 6 || code == 8 || code == 9 || code == 10 || code == 11 || code == 12 || code == 13 || code == 14 || code == 17 || code == 25 || code == 26 || code == 47 ==> op_at(s, pos) == if pos + 1 < s.len() {
                Some((OpView { target: (s[pos + 1] % 2) as nat, ..plain(code) }, pos + 2))
            } else {
                None
            }
        }),
{
    let code = (s[pos] % 56) as u8;
    if code == 3 || code == 4 || code == 5 || code == 6 || code == 8 || code == 9 || code == 10 || code == 11 || code == 12 || code == 13 || code == 14 || code == 17 || code == 25 || code == 26 || code == 47 {
        let op = bare(code);
        lemma_one(s, pos + 1, Arg::Target, op);
    }
}

/// These take a value.
pub proof fn law_op_of_value(s: Seq<u8>, pos: int)
    requires
        0 <= pos < s.len(),
    ensures
        ({
            let code = (s[pos] % 56) as u8;
            code == 27 || code == 48 || code == 49 || code == 50 ==> op_at(s, pos) == if pos + 1 < s.len() {
                Some((OpView { value: s[pos + 1] as u64, ..plain(code) }, pos + 2))
            } else {
                None
            }
        }),
{
    let code = (s[pos] % 56) as u8;
    if code == 27 || code == 48 || code == 49 || code == 50 {
        let op = bare(code);
        lemma_one(s, pos + 1, Arg::Value, op);
    }
}

/// These take yes or no.
pub proof fn law_op_of_flag(s: Seq<u8>, pos: int)
    requires
        0 <= pos < s.len(),
    ensures
        ({
            let code = (s[pos] % 56) as u8;
            code == 28 || code == 32 || code == 38 || code == 39 || code == 45 ==> op_at(s, pos) == if pos + 1 < s.len() {
                Some((OpView { flag: s[pos + 1] % 2 == 1, ..plain(code) }, pos + 2))
            } else {
                None
            }
        }),
{
    let code = (s[pos] % 56) as u8;
    if code == 28 || code == 32 || code == 38 || code == 39 || code == 45 {
        let op = bare(code);
        lemma_one(s, pos + 1, Arg::Flag, op);
    }
}

/// These take letters, and yes or no.
pub proof fn law_op_of_mask(s: Seq<u8>, pos: int)
    requires
        0 <= pos < s.len(),
    ensures
        ({
            let code = (s[pos] % 56) as u8;
            code == 33 || code == 53 || code == 54 ==> op_at(s, pos) == if pos + 1 < s.len() && pos + 2 + s[pos + 1] % 4 < s.len() {
                Some((OpView { mask: letters(s, pos + 2, (s[pos + 1] % 4) as nat), flag: s[pos + 2 + s[pos + 1] % 4] % 2 == 1, ..plain(code) }, pos + 3 + s[pos + 1] % 4))
            } else {
                None
            }
        }),
{
    let code = (s[pos] % 56) as u8;
    if code == 33 || code == 53 || code == 54 {
        let op = bare(code);
        lemma_two(s, pos + 1, Arg::Mask, Arg::Flag, op);
        if pos + 1 < s.len() {
            law_letters(s, pos + 2, (s[pos + 1] % 4) as nat);
        }
    }
}

/// These take a path alone.
pub proof fn law_op_of_own_path(s: Seq<u8>, pos: int)
    requires
        0 <= pos < s.len(),
    ensures
        ({
            let code = (s[pos] % 56) as u8;
            code == 35 || code == 43 || code == 55 ==> op_at(s, pos) == if pos + 1 < s.len() && pos + 2 + s[pos + 1] % 6 <= s.len() {
                Some((OpView { path: letters(s, pos + 2, (s[pos + 1] % 6) as nat), ..plain(code) }, pos + 2 + s[pos + 1] % 6))
            } else {
                None
            }
        }),
{
    let code = (s[pos] % 56) as u8;
    if code == 35 || code == 43 || code == 55 {
        let op = bare(code);
        lemma_one(s, pos + 1, Arg::Path, op);
        if pos + 1 < s.len() {
            law_path_is_length_and_letters(s, pos + 1, 6);
        }
    }
}

/// These take a number, and yes or no.
pub proof fn law_op_of_number_and_flag(s: Seq<u8>, pos: int)
    requires
        0 <= pos < s.len(),
    ensures
        ({
            let code = (s[pos] % 56) as u8;
            code == 42 || code == 46 ==> op_at(s, pos) == if pos + 2 < s.len() {
                Some((OpView { number: (s[pos + 1] % 4) as nat, flag: s[pos + 2] % 2 == 1, ..plain(code) }, pos + 3))
            } else {
                None
            }
        }),
{
    let code = (s[pos] % 56) as u8;
    if code == 42 || code == 46 {
        let op = bare(code);
        lemma_two(s, pos + 1, Arg::Number(4), Arg::Flag, op);
    }
}

/// This takes a number alone.
pub proof fn law_op_of_own_number(s: Seq<u8>, pos: int)
    requires
        0 <= pos < s.len(),
    ensures
        ({
            let code = (s[pos] % 56) as u8;
            code == 44 ==> op_at(s, pos) == if pos + 1 < s.len() {
                Some((OpView { number: (s[pos + 1] % 6) as nat, ..plain(code) }, pos + 2))
            } else {
                None
            }
        }),
{
    let code = (s[pos] % 56) as u8;
    if code == 44 {
        let op = bare(code);
        lemma_one(s, pos + 1, Arg::Number(6), op);
    }
}

/// The others take nothing.
pub proof fn law_op_of_nothing(s: Seq<u8>, pos: int)
    requires
        0 <= pos < s.len(),
    ensures
        ({
            let code = (s[pos] % 56) as u8;
            code == 29 || code == 30 || code == 31 || code == 34 || code == 36 || code == 37 || code == 40 || code == 41 || code == 52 ==> op_at(s, pos) == Some((plain(code), pos + 1))
        }),
        op_at(s, s.len() as int) is None,
{
    let code = (s[pos] % 56) as u8;
    lemma_none(s, pos + 1, bare(code));
}

/// The operations go by these names.
pub proof fn law_names()
    ensures
        name_of(0) == "descend_to"@,
        name_of(1) == "descend_to_byte"@,
        name_of(2) == "ascend"@,
        name_of(3) == "ascend_byte"@,
        name_of(4) == "reset"@,
        name_of(5) == "descend_first_byte"@,
        name_of(6) == "descend_last_byte"@,
        name_of(7) == "descend_indexed_byte"@,
        name_of(8) == "descend_until"@,
        name_of(9) == "ascend_until"@,
        name_of(10) == "ascend_until_branch"@,
        name_of(11) == "to_next_sibling_byte"@,
        name_of(12) == "to_prev_sibling_byte"@,
        name_of(13) == "to_next_step"@,
        name_of(14) == "to_next_val"@,
        name_of(15) == "descend_first_k_path"@,
        name_of(16) == "k_path_walk"@,
        name_of(17) == "descend_last_path"@,
        name_of(18) == "move_to_path"@,
        name_of(19) == "descend_to_existing"@,
        name_of(20) == "descend_to_val"@,
        name_of(21) == "descend_to_existing_byte"@,
        name_of(22) == "descend_until_max_bytes"@,
        name_of(23) == "descend_to_check"@,
        name_of(24) == "val_at"@,
        name_of(25) == "make_map_val_count"@,
        name_of(26) == "dump"@,
        name_of(27) == "set_val"@,
        name_of(28) == "remove_val"@,
        name_of(29) == "create_path"@,
        name_of(30) == "prune_path"@,
        name_of(31) == "prune_ascend"@,
        name_of(32) == "remove_branches"@,
        name_of(33) == "remove_unmasked_branches"@,
        name_of(34) == "graft"@,
        name_of(35) == "graft_src_at"@,
        name_of(36) == "join_into"@,
        name_of(37) == "join_map_into"@,
        name_of(38) == "meet_into"@,
        name_of(39) == "subtract_into"@,
        name_of(40) == "restrict"@,
        name_of(41) == "restricting"@,
        name_of(42) == "join_k_path_into"@,
        name_of(43) == "insert_prefix"@,
        name_of(44) == "remove_prefix"@,
        name_of(45) == "take_map_restore"@,
        name_of(46) == "meet_k_path_into"@,
        name_of(47) == "descend_until_observed"@,
        name_of(48) == "get_val_mut_write"@,
        name_of(49) == "get_val_or_set_mut"@,
        name_of(50) == "get_val_or_set_mut_with"@,
        name_of(51) == "get_val_agrees"@,
        name_of(52) == "to_next_get_val"@,
        name_of(53) == "graft_masked_branches"@,
        name_of(54) == "graft_child_maps"@,
        name_of(55) == "meet_2"@,
{
}

/// The values of a map are put into it one after the other, each at its path, so that the last one for
/// a path stands. Each is a path and a byte.
pub proof fn law_map_of_entries(s: Seq<u8>, pos: int, n: nat, t: Trie<u64>, p: Seq<u8>)
    requires
        entries_at(s, pos, n, t) is Some,
        0 <= entries_at(s, pos, n, t)->Some_0.1 < s.len(),
    ensures
        entries_at(s, pos, 0, t) == Some((t, pos)),
        ({
            let (u, at) = entries_at(s, pos, n, t)->Some_0;
            let k = (s[at] % 6) as nat;
            let path = letters(s, at + 1, k);
            let next = entries_at(s, pos, n + 1, t);
            if at + 1 + k < s.len() {
                &&& next is Some
                &&& next->Some_0.1 == at + 2 + k
                &&& next->Some_0.0.get(path) == Some(s[at + 1 + k] as u64)
                &&& p != path ==> next->Some_0.0.get(p) == u.get(p)
                &&& next->Some_0.0.has(p) <==> u.has(p) || (p.len() <= path.len() && p
                    == path.subrange(0, p.len() as int))
            } else {
                next is None
            }
        }),
{
    let (u, at) = entries_at(s, pos, n, t)->Some_0;
    law_path_is_length_and_letters(s, at, 6);
    let k = (s[at] % 6) as nat;
    let path = letters(s, at + 1, k);
    if at + 1 + k < s.len() {
        law_put_value(u, path, Some(s[at + 1 + k] as u64), p);
        law_put_value(u, path, Some(s[at + 1 + k] as u64), path);
    }
}

/// A map begins with a byte that tells how many values it has, fewer than eight, and has nothing else
/// in it. The roots are added to the maps as paths without values.
pub proof fn law_header_is_two_maps_and_two_roots(s: Seq<u8>, pos: int)
    requires
        0 <= pos < s.len(),
    ensures
        map_at(s, pos) == entries_at(s, pos + 1, (s[pos] % 8) as nat, Trie::empty()),
        map_at(s, s.len() as int) is None,
        header_at(s, pos) matches Some((h, next)) ==> {
            &&& map_at(s, pos) matches Some((t0, p1)) && map_at(s, p1) matches Some((t1, p2))
                && path_at(s, p2, 4) matches Some((root0, p3)) && root0 == h.root0 && path_at(
                s,
                p3,
                4,
            ) == Some((h.root1, next)) && adds_path(t0, h.root0, h.map0) && adds_path(
                t1,
                h.root1,
                h.map1,
            )
        },
        header_at(s, pos) is None <==> match map_at(s, pos) {
            None => true,
            Some((_, p1)) => match map_at(s, p1) {
                None => true,
                Some((_, p2)) => match path_at(s, p2, 4) {
                    None => true,
                    Some((_, p3)) => path_at(s, p3, 4) is None,
                },
            },
        },
{
    if let Some((h, next)) = header_at(s, pos) {
        let (t0, p1) = map_at(s, pos)->Some_0;
        let (t1, p2) = map_at(s, p1)->Some_0;
        lemma_adds_path(t0, h.root0);
        lemma_adds_path(t1, h.root1);
    }
}

/// `u` has the values of `t` and its paths, and `path` besides.
pub open spec fn adds_path(t: Trie<u64>, path: Seq<u8>, u: Trie<u64>) -> bool {
    &&& forall|p: Seq<u8>| #[trigger] u.get(p) == t.get(p)
    &&& forall|p: Seq<u8>| #[trigger]
        u.has(p) <==> t.has(p) || (p.len() <= path.len() && p == path.subrange(0, p.len() as int))
}

proof fn lemma_adds_path(t: Trie<u64>, path: Seq<u8>)
    ensures
        adds_path(t, path, with_path(t, path)),
{
    let u = with_path(t, path);
    assert forall|p: Seq<u8>| #[trigger] u.get(p) == t.get(p) by {
        law_put_value(t, path, None, p);
    }
    assert forall|p: Seq<u8>| #[trigger] u.has(p) <==> t.has(p) || (p.len() <= path.len() && p
        == path.subrange(0, p.len() as int)) by {
        law_put_value(t, path, None, p);
        if p.len() == 0 {
            assert(t.has(p));
        }
    }
}

} // verus!

//! What can be read back of what is told.

use vstd::prelude::*;

use crate::arena_compact::tree::Storage;
use crate::arena_compact::act_zipper::ACTZipper;
use crate::harness::op::{name_of, OpView};
use crate::harness::reply::{answer_text, outcome_text, is_masked, Facts, Reply};
use crate::harness::script::walk_text;
use crate::harness::show::{
    bool_text, byte_text, path_text, status_opt_text, status_text, val_text, AlgebraicStatus,
};
use crate::harness::trace::{
    closing_text, description, dump_text, entry_text, fingerprint_of, trace_text, Standing,
};
use crate::text::{decimal, hex, hex_bytes};
use crate::trie::Trie;
use crate::trie_walk::{look, val_of};
use crate::utils::bits::{lemma_rank_is_len, members};
use crate::utils::byte_mask_fmt::{binary, joined, spaced_binary};

verus! {

/// The number that decimal digits stand for.
pub open spec fn decimal_number(s: Seq<char>) -> int
    decreases s.len(),
{
    if s.len() == 0 {
        0
    } else {
        10 * decimal_number(s.drop_last()) + (s.last() as u32 - 48)
    }
}

/// A number in decimal is written with digits, does not begin with a zero but where it is zero, and is
/// the number that the digits stand for.
pub proof fn law_decimal(n: nat)
    ensures
        decimal_number(decimal(n)) == n,
        decimal(n).len() > 0,
        forall|i: int| 0 <= i < decimal(n).len() ==> '0' <= #[trigger] decimal(n)[i] <= '9',
        n > 0 ==> decimal(n)[0] != '0',
        n < 10 ==> decimal(n).len() == 1,
    decreases n,
{
    if n < 10 {
        let s = decimal(n);
        assert(s.drop_last() =~= Seq::empty());
        assert(decimal_number(s.drop_last()) == 0);
    } else {
        let s = decimal(n);
        law_decimal(n / 10);
        assert(s.drop_last() =~= decimal(n / 10));
        assert(s[0] == decimal(n / 10)[0]);
    }
}

/// What a hexadecimal digit stands for.
pub open spec fn hex_value(c: char) -> int {
    if '0' <= c <= '9' {
        c as u32 - 48
    } else {
        c as u32 - 87
    }
}

/// The number that hexadecimal digits stand for.
pub open spec fn hex_number(s: Seq<char>) -> int
    decreases s.len(),
{
    if s.len() == 0 {
        0
    } else {
        16 * hex_number(s.drop_last()) + hex_value(s.last())
    }
}

/// `16` to the power of `n`.
pub open spec fn power_of_16(n: nat) -> nat
    decreases n,
{
    if n == 0 {
        1
    } else {
        16 * power_of_16((n - 1) as nat)
    }
}

/// A number in hexadecimal has as many digits as are asked for, and is the number that they stand for
/// where that has no more.
pub proof fn law_hex(n: nat, digits: nat)
    ensures
        hex(n, digits).len() == digits,
        forall|i: int|
            0 <= i < digits ==> '0' <= #[trigger] hex(n, digits)[i] <= '9' || 'a' <= hex(n, digits)[i]
                <= 'f',
        n < power_of_16(digits) ==> hex_number(hex(n, digits)) == n,
    decreases digits,
{
    if digits > 0 {
        let s = hex(n, digits);
        law_hex(n / 16, (digits - 1) as nat);
        assert(s.drop_last() =~= hex(n / 16, (digits - 1) as nat));
        assert(n < power_of_16(digits) ==> n / 16 < power_of_16((digits - 1) as nat));
    }
}

/// Bytes are told by two digits each, one after the other, and a path of no bytes by an underscore.
pub proof fn law_path_text(p: Seq<u8>, i: int)
    requires
        0 <= i < p.len(),
    ensures
        path_text(Seq::empty()) == seq!['_'],
        path_text(p).len() == 2 * p.len(),
        hex_number(path_text(p).subrange(2 * i, 2 * i + 2)) == p[i],
        path_text(p).subrange(2 * i, 2 * i + 2) == hex(p[i] as nat, 2),
{
    lemma_hex_bytes(p, i);
    law_hex(p[i] as nat, 2);
    reveal_with_fuel(power_of_16, 3);
    assert(power_of_16(2) == 256);
}

proof fn lemma_hex_bytes(p: Seq<u8>, i: int)
    requires
        0 <= i < p.len(),
    ensures
        hex_bytes(p).len() == 2 * p.len(),
        hex_bytes(p).subrange(2 * i, 2 * i + 2) == hex(p[i] as nat, 2),
    decreases p.len(),
{
    let q = p.drop_last();
    let last = hex(p.last() as nat, 2);
    law_hex(p.last() as nat, 2);
    let s = hex_bytes(p);
    if q.len() > 0 {
        lemma_hex_bytes(q, if i < q.len() {
            i
        } else {
            0
        });
    } else {
        assert(q =~= Seq::<u8>::empty());
        assert(hex_bytes(q) =~= Seq::empty());
    }
    if i < q.len() {
        assert(s.subrange(2 * i, 2 * i + 2) =~= hex_bytes(q).subrange(2 * i, 2 * i + 2));
    } else {
        assert(s.subrange(2 * i, 2 * i + 2) =~= last);
    }
}

/// How values, bytes, answers of yes or no, and what became of a target are told.
pub proof fn law_words(v: u64, b: u8)
    ensures
        val_text(Some(v)) == decimal(v as nat),
        val_text(None) == seq!['-'],
        byte_text(Some(b)) == hex(b as nat, 2),
        byte_text(None) == seq!['-'],
        bool_text(true) == seq!['1'],
        bool_text(false) == seq!['0'],
        status_text(AlgebraicStatus::Element) == "Element"@,
        status_text(AlgebraicStatus::Identity) == "Identity"@,
        status_text(AlgebraicStatus::Nothing) == "None"@,
        status_opt_text(None) == "skip"@,
        forall|s: AlgebraicStatus| #[trigger] status_opt_text(Some(s)) == status_text(s),
{
}

/// What is told of a zipper names all that is known of it, in this order.
pub proof fn law_description(
    path: Seq<u8>,
    origin: Seq<u8>,
    exists: bool,
    val: Option<u64>,
    children: nat,
    count: nat,
    focus: Option<u8>,
)
    ensures
        ({
            let told = path_text(path) + " o"@ + path_text(origin) + " e"@ + bool_text(exists)
                + " v"@ + val_text(val) + " c"@ + decimal(children) + " n"@ + decimal(count)
                + " f"@;
            &&& path.len() > 0 ==> description(
                false,
                path,
                origin,
                exists,
                val,
                children,
                count,
                focus,
            ) == told + byte_text(focus)
            &&& path.len() == 0 ==> description(
                false,
                path,
                origin,
                exists,
                val,
                children,
                count,
                focus,
            ) == told + "?"@
            &&& description(true, path, origin, exists, val, children, count, focus)
                == "ESCAPED-ROOT "@ + description(
                false,
                path,
                origin,
                exists,
                val,
                children,
                count,
                focus,
            )
        }),
{
    let e = Seq::<char>::empty();
    assert(e + path_text(path) =~= path_text(path));
    assert(description(true, path, origin, exists, val, children, count, focus)
        =~= "ESCAPED-ROOT "@ + description(
        false,
        path,
        origin,
        exists,
        val,
        children,
        count,
        focus,
    ));
}

/// What is told of a zipper over a compact trie is where it is and what is there.
pub proof fn law_fingerprint<S: Storage>(z: &ACTZipper<S, u64>, root: Seq<u8>, t: Trie<u64>)
    requires
        z.here() == Some(t),
    ensures
        fingerprint_of(z, root) == description(
            z.origin() != root,
            z.rel(),
            z.origin() + z.rel(),
            true,
            t.val,
            t.kids.dom().len(),
            crate::trie_order::count_vals(t),
            if z.rel().len() > 0 {
                Some(z.rel().last())
            } else {
                None
            },
        ),
{
    lemma_rank_is_len(t.kids.dom());
}

/// Where there is no place, there is nothing there.
pub proof fn law_fingerprint_of_nowhere<S: Storage>(z: &ACTZipper<S, u64>, root: Seq<u8>)
    requires
        z.here() is None,
        z.rel().len() > 0,
    ensures
        fingerprint_of(z, root) == description(
            z.origin() != root,
            z.rel(),
            z.origin() + z.rel(),
            false,
            None,
            0,
            0,
            Some(z.rel().last()),
        ),
{
    lemma_rank_is_len(Set::<u8>::empty());
}

/// A dump tells its places one after the other, each with its value, and a walk its paths.
pub proof fn law_lists(root: Option<Trie<u64>>, l: Seq<Seq<u8>>, x: Seq<u8>)
    ensures
        dump_text(root, seq![x]) == path_text(x) + ":"@ + val_text(val_of(look(root, x))),
        l.len() > 0 ==> dump_text(root, l.push(x)) == dump_text(root, l) + ","@ + dump_text(
            root,
            seq![x],
        ),
        walk_text(Seq::empty()) == Seq::<char>::empty(),
        walk_text(seq![x]) == path_text(x),
        l.len() > 0 ==> walk_text(l.push(x)) == walk_text(l) + ","@ + path_text(x),
        entry_text(x, val_of(look(root, x))) == dump_text(root, seq![x]),
{
    assert(l.push(x).drop_last() =~= l);
}

/// A step is told in a line: its number, its name, its outcome, and the two zippers. At the end come
/// the maps and the roots.
pub proof fn law_lines_of_a_trace(
    step: nat,
    code: u8,
    ret: Seq<char>,
    w: Seq<char>,
    r: Seq<char>,
    map0: Seq<char>,
    map1: Seq<char>,
    root0: Seq<u8>,
    root1: Seq<u8>,
)
    ensures
        trace_text(step, code, ret, w, r) == decimal(step) + " "@ + name_of(code) + " ret="@ + ret
            + " W="@ + w + " R="@ + r + "\n"@,
        closing_text(map0, map1, root0, root1) == "MAP0 "@ + map0 + "\nMAP1 "@ + map1 + "\nROOT0 "@
            + path_text(root0) + "\nROOT1 "@ + path_text(root1) + "\n"@,
{
}

/// How the answers of the zippers are told.
pub proof fn law_answers(op: OpView, n: usize, v: u64, g: Option<u64>, h: Option<u64>, b: bool, c: bool)
    ensures
        answer_text(op, Reply::Bool(b)) == bool_text(b),
        answer_text(op, Reply::Number(n)) == decimal(n as nat),
        forall|x: Option<u8>| #[trigger] answer_text(op, Reply::Byte(x)) == byte_text(x),
        answer_text(op, Reply::Val(g)) == val_text(g),
        forall|s: AlgebraicStatus| #[trigger]
            answer_text(op, Reply::Status(s)) == status_text(s),
        answer_text(op, Reply::Made(v, b)) == decimal(v as nat) + ":"@ + bool_text(b),
        forall|run: Vec<u8>| #[trigger]
            answer_text(op, Reply::Moved(b, run)) == bool_text(b) + ":"@ + path_text(run@),
        answer_text(op, Reply::Values(g, h, b)) == val_text(g) + ":"@ + val_text(h) + ":"@
            + bool_text(b),
        answer_text(op, Reply::Next(b, g, c)) == bool_text(b) + ":"@ + val_text(g) + ":"@
            + bool_text(c),
        forall|t: String| #[trigger] answer_text(op, Reply::Text(t)) == t@,
{
}

/// What is only said to be done is told by what it took.
pub proof fn law_done(op: OpView)
    ensures
        op.code == 0 || op.code == 35 ==> answer_text(op, Reply::Done) == path_text(op.path),
        op.code == 1 ==> answer_text(op, Reply::Done) == hex(op.byte as nat, 2),
        op.code == 33 ==> answer_text(op, Reply::Done) == path_text(members(op.mask.to_set())),
        op.code == 53 ==> answer_text(op, Reply::Done) == path_text(members(op.mask.to_set()))
            + ":"@ + bool_text(op.flag),
        op.code != 0 && op.code != 35 && op.code != 1 && op.code != 33 && op.code != 53
            ==> answer_text(op, Reply::Done) == "-"@,
{
}

/// What was left out is told as such, an answer that is kept back by a question mark, and every other
/// answer in full.
pub proof fn law_outcomes(op: OpView, before: Facts, after: nat, r: Reply)
    ensures
        outcome_text(op, before, after, None) == "skip"@,
        is_masked(op, before, after) ==> outcome_text(op, before, after, Some(r)) == "?"@,
        !is_masked(op, before, after) ==> outcome_text(op, before, after, Some(r)) == answer_text(
            op,
            r,
        ),
{
}

/// What must hold of a zipper wherever it stands.
pub proof fn law_standing(s: &Standing, root: Seq<u8>)
    ensures
        s.is_sound(root) <==> {
            &&& s.at_root <==> s.path@.len() == 0
            &&& s.origin_path@ == root + s.path@
            &&& s.root_prefix_path@ == root
            &&& s.path@.len() > 0 ==> s.focus_byte == Some(s.path@[s.path@.len() - 1])
            &&& s.is_val ==> s.path_exists
            &&& s.is_val ==> s.val_count > 0
            &&& s.child_count == s.listed
            &&& s.child_count > 0 ==> s.path_exists
            &&& s.child_count == 0 && s.is_val ==> s.val_count == 1
            &&& s.child_count == 0 && !s.is_val ==> s.val_count == 0
        },
{
}

/// A mask in binary has a digit for each byte, the highest first.
pub proof fn law_binary_text(s: Set<u8>, n: nat, i: int)
    requires
        n <= 256,
        0 <= i < n,
    ensures
        binary(s, n).len() == n,
        binary(s, n)[i] == if s.contains((255 - i) as u8) {
            '1'
        } else {
            '0'
        },
    decreases n,
{
    if n > 1 {
        law_binary_text(s, (n - 1) as nat, if i < n - 1 {
            i
        } else {
            0
        });
    } else {
        assert(binary(s, 0) =~= Seq::empty());
    }
}

/// In the other form a space stands behind every eighth digit but the last.
pub proof fn law_spaced_text(s: Set<u8>, n: nat, i: int)
    requires
        n <= 256,
        0 <= i < n,
    ensures
        spaced_binary(s, n).len() == n + n as int / 8 - if n == 256 {
            1int
        } else {
            0
        },
        spaced_binary(s, n)[i + i / 8] == if s.contains((255 - i) as u8) {
            '1'
        } else {
            '0'
        },
        i % 8 == 7 && i < 255 ==> spaced_binary(s, n)[i + i / 8 + 1] == ' ',
    decreases n,
{
    if n > 1 {
        law_spaced_text(s, (n - 1) as nat, if i < n - 1 {
            i
        } else {
            0
        });
    } else {
        assert(spaced_binary(s, 0) =~= Seq::empty());
    }
}

/// The bytes of a mask are told in decimal, with a comma and a space between them.
pub proof fn law_joined_text(l: Seq<u8>, b: u8)
    ensures
        joined(Seq::empty()) == Seq::<char>::empty(),
        joined(seq![b]) == decimal(b as nat),
        l.len() > 0 ==> joined(l.push(b)) == joined(l) + seq![',', ' '] + decimal(b as nat),
{
    assert(l.push(b).drop_last() =~= l);
}

} // verus!

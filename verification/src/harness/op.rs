//! The operations of a script, and how they are encoded.

use vstd::prelude::*;

use crate::harness::dec::{mod_of, path_at, path_n_at, run_out, Dec};

verus! {

/// Number of distinct operations.
pub const NOPS: usize = 56;

/// Maximum operations executed.
pub const MAX_STEPS: usize = 256;

/// Maximum entries in a dump.
pub const DUMP_CAP: usize = 64;

/// What an operation takes.
#[derive(Clone, Copy)]
pub enum Arg {
    /// Which of the two zippers it is for: the one that writes, or the one that reads.
    Target,
    /// A path of fewer than six letters.
    Path,
    /// A letter.
    Byte,
    /// A number below a limit.
    Number(usize),
    /// A value.
    Value,
    /// Yes or no.
    Flag,
    /// Fewer than four letters.
    Mask,
}

/// An operation with what it takes.
pub struct Op {
    pub code: u8,
    pub target: usize,
    pub path: Vec<u8>,
    pub byte: u8,
    pub number: usize,
    pub value: u64,
    pub flag: bool,
    pub mask: Vec<u8>,
}

/// What an operation says.
#[verifier::ext_equal]
pub struct OpView {
    pub code: u8,
    pub target: nat,
    pub path: Seq<u8>,
    pub byte: u8,
    pub number: nat,
    pub value: u64,
    pub flag: bool,
    pub mask: Seq<u8>,
}

impl View for Op {
    type V = OpView;

    open spec fn view(&self) -> OpView {
        OpView {
            code: self.code,
            target: self.target as nat,
            path: self.path@,
            byte: self.byte,
            number: self.number as nat,
            value: self.value,
            flag: self.flag,
            mask: self.mask@,
        }
    }
}

/// An operation before anything is known of what it takes.
pub open spec fn bare(code: u8) -> OpView {
    OpView {
        code,
        target: 0,
        path: Seq::empty(),
        byte: 0,
        number: 0,
        value: 0,
        flag: false,
        mask: Seq::empty(),
    }
}

/// What an operation takes, in order.
pub open spec fn args_of(code: u8) -> Seq<Arg> {
    match code {
        0 | 18 | 19 | 20 | 23 | 24 | 51 => seq![Arg::Target, Arg::Path],
        1 | 21 => seq![Arg::Target, Arg::Byte],
        2 | 22 => seq![Arg::Target, Arg::Number(8)],
        7 => seq![Arg::Target, Arg::Number(6)],
        15 | 16 => seq![Arg::Target, Arg::Number(4)],
        3 | 4 | 5 | 6 | 8 | 9 | 10 | 11 | 12 | 13 | 14 | 17 | 25 | 26 | 47 => seq![Arg::Target],
        27 | 48 | 49 | 50 => seq![Arg::Value],
        28 | 32 | 38 | 39 | 45 => seq![Arg::Flag],
        33 | 53 | 54 => seq![Arg::Mask, Arg::Flag],
        35 | 43 | 55 => seq![Arg::Path],
        42 | 46 => seq![Arg::Number(4), Arg::Flag],
        44 => seq![Arg::Number(6)],
        _ => seq![],
    }
}

/// Reads one thing that an operation takes, at `pos`.
pub open spec fn arg_at(s: Seq<u8>, pos: int, arg: Arg, op: OpView) -> Option<(OpView, int)> {
    match arg {
        Arg::Path => match path_at(s, pos, 6) {
            Some((path, next)) => Some((OpView { path, ..op }, next)),
            None => None,
        },
        Arg::Mask => if pos < s.len() {
            match path_n_at(s, pos + 1, mod_of(s[pos], 4)) {
                Some((mask, next)) => Some((OpView { mask, ..op }, next)),
                None => None,
            }
        } else {
            None
        },
        _ => if pos < s.len() {
            let b = s[pos];
            Some(
                (
                    match arg {
                        Arg::Target => OpView { target: mod_of(b, 2), ..op },
                        Arg::Byte => OpView { byte: (b % 4) as u8, ..op },
                        Arg::Number(m) => OpView { number: mod_of(b, m as nat), ..op },
                        Arg::Value => OpView { value: b as u64, ..op },
                        _ => OpView { flag: b % 2 == 1, ..op },
                    },
                    pos + 1,
                ),
            )
        } else {
            None
        },
    }
}

/// Reads what an operation takes, from `pos` on.
pub open spec fn args_at(s: Seq<u8>, pos: int, args: Seq<Arg>, op: OpView) -> Option<(OpView, int)>
    decreases args.len(),
{
    if args.len() == 0 {
        Some((op, pos))
    } else {
        match args_at(s, pos, args.drop_last(), op) {
            None => None,
            Some((op, next)) => arg_at(s, next, args.last(), op),
        }
    }
}

/// The operation at `pos`, and where the next one begins.
pub open spec fn op_at(s: Seq<u8>, pos: int) -> Option<(OpView, int)> {
    if pos < s.len() {
        let code = (s[pos] % 56) as u8;
        args_at(s, pos + 1, args_of(code), bare(code))
    } else {
        None
    }
}

fn args_for(code: u8) -> (r: Vec<Arg>)
    ensures
        r@ == args_of(code),
{
    let mut r: Vec<Arg> = Vec::new();
    match code {
        0 | 18 | 19 | 20 | 23 | 24 | 51 => {
            r.push(Arg::Target);
            r.push(Arg::Path);
        },
        1 | 21 => {
            r.push(Arg::Target);
            r.push(Arg::Byte);
        },
        2 | 22 => {
            r.push(Arg::Target);
            r.push(Arg::Number(8));
        },
        7 => {
            r.push(Arg::Target);
            r.push(Arg::Number(6));
        },
        15 | 16 => {
            r.push(Arg::Target);
            r.push(Arg::Number(4));
        },
        3 | 4 | 5 | 6 | 8 | 9 | 10 | 11 | 12 | 13 | 14 | 17 | 25 | 26 | 47 => {
            r.push(Arg::Target);
        },
        27 | 48 | 49 | 50 => {
            r.push(Arg::Value);
        },
        28 | 32 | 38 | 39 | 45 => {
            r.push(Arg::Flag);
        },
        33 | 53 | 54 => {
            r.push(Arg::Mask);
            r.push(Arg::Flag);
        },
        35 | 43 | 55 => {
            r.push(Arg::Path);
        },
        42 | 46 => {
            r.push(Arg::Number(4));
            r.push(Arg::Flag);
        },
        44 => {
            r.push(Arg::Number(6));
        },
        _ => {},
    }
    assert(r@ =~= args_of(code));
    r
}

fn decode_arg(d: &mut Dec, arg: Arg, op: Op) -> (r: Option<Op>)
    ensures
        final(d).bytes == old(d).bytes,
        match r {
            Some(o) => arg_at(old(d).bytes@, old(d).pos as int, arg, op@) == Some(
                (o@, final(d).pos as int),
            ),
            None => {
                &&& arg_at(old(d).bytes@, old(d).pos as int, arg, op@) is None
                &&& final(d).pos == run_out(old(d).bytes@.len(), old(d).pos as int)
            },
        },
{
    let mut op = op;
    match arg {
        Arg::Path => match d.path(6) {
            None => None,
            Some(path) => {
                op.path = path;
                Some(op)
            },
        },
        Arg::Mask => match d.path(4) {
            None => None,
            Some(mask) => {
                op.mask = mask;
                Some(op)
            },
        },
        Arg::Target => match d.modn(2) {
            None => None,
            Some(n) => {
                op.target = n;
                Some(op)
            },
        },
        Arg::Number(m) => match d.modn(m) {
            None => None,
            Some(n) => {
                op.number = n;
                Some(op)
            },
        },
        Arg::Byte => match d.path_byte() {
            None => None,
            Some(b) => {
                op.byte = b;
                Some(op)
            },
        },
        Arg::Value => match d.u8() {
            None => None,
            Some(b) => {
                op.value = b as u64;
                Some(op)
            },
        },
        Arg::Flag => match d.boolean() {
            None => None,
            Some(b) => {
                op.flag = b;
                Some(op)
            },
        },
    }
}

/// Decodes the next operation, where there is a whole one. Where there is none all bytes that are
/// left are used up.
pub fn decode_op(d: &mut Dec) -> (r: Option<Op>)
    ensures
        final(d).bytes == old(d).bytes,
        match r {
            Some(op) => op_at(old(d).bytes@, old(d).pos as int) == Some(
                (op@, final(d).pos as int),
            ),
            None => {
                &&& op_at(old(d).bytes@, old(d).pos as int) is None
                &&& final(d).pos == run_out(old(d).bytes@.len(), old(d).pos as int)
            },
        },
{
    let code = match d.u8() {
        None => {
            return None;
        },
        Some(b) => b % 56,
    };
    let args = args_for(code);
    let ghost from = d.pos as int;
    let ghost s = d.bytes@;
    let mut op = Op {
        code,
        target: 0,
        path: Vec::new(),
        byte: 0,
        number: 0,
        value: 0,
        flag: false,
        mask: Vec::new(),
    };
    let mut i: usize = 0;
    proof {
        assert(op@ =~= bare(code));
        assert(args@.subrange(0, 0) =~= Seq::<Arg>::empty());
    }
    while i < args.len()
        invariant
            i <= args@.len(),
            d.bytes == old(d).bytes,
            s == old(d).bytes@,
            s == d.bytes@,
            args@ == args_of(code),
            old(d).pos < s.len(),
            code == s[old(d).pos as int] % 56,
            from == old(d).pos + 1,
            from <= d.pos <= s.len(),
            args_at(s, from, args@.subrange(0, i as int), bare(code)) == Some(
                (op@, d.pos as int),
            ),
        decreases args@.len() - i,
    {
        proof {
            let t = args@.subrange(0, i + 1);
            assert(t.drop_last() =~= args@.subrange(0, i as int));
            assert(t.last() == args@[i as int]);
        }
        match decode_arg(d, args[i], op) {
            None => {
                proof {
                    lemma_args_none(s, from, args@, bare(code), i + 1);
                }
                return None;
            },
            Some(o) => {
                op = o;
            },
        }
        i = i + 1;
    }
    assert(args@.subrange(0, args@.len() as int) =~= args@);
    Some(op)
}

proof fn lemma_args_none(s: Seq<u8>, pos: int, args: Seq<Arg>, op: OpView, i: int)
    requires
        0 <= i <= args.len(),
        args_at(s, pos, args.subrange(0, i), op) is None,
    ensures
        args_at(s, pos, args, op) is None,
    decreases args.len() - i,
{
    if i < args.len() {
        assert(args.subrange(0, i + 1).drop_last() =~= args.subrange(0, i));
        lemma_args_none(s, pos, args, op, i + 1);
    } else {
        assert(args.subrange(0, i) =~= args);
    }
}

/// What an operation is called.
pub open spec fn name_of(code: u8) -> Seq<char> {
    match code {
        0 => "descend_to"@,
        1 => "descend_to_byte"@,
        2 => "ascend"@,
        3 => "ascend_byte"@,
        4 => "reset"@,
        5 => "descend_first_byte"@,
        6 => "descend_last_byte"@,
        7 => "descend_indexed_byte"@,
        8 => "descend_until"@,
        9 => "ascend_until"@,
        10 => "ascend_until_branch"@,
        11 => "to_next_sibling_byte"@,
        12 => "to_prev_sibling_byte"@,
        13 => "to_next_step"@,
        14 => "to_next_val"@,
        15 => "descend_first_k_path"@,
        16 => "k_path_walk"@,
        17 => "descend_last_path"@,
        18 => "move_to_path"@,
        19 => "descend_to_existing"@,
        20 => "descend_to_val"@,
        21 => "descend_to_existing_byte"@,
        22 => "descend_until_max_bytes"@,
        23 => "descend_to_check"@,
        24 => "val_at"@,
        25 => "make_map_val_count"@,
        26 => "dump"@,
        27 => "set_val"@,
        28 => "remove_val"@,
        29 => "create_path"@,
        30 => "prune_path"@,
        31 => "prune_ascend"@,
        32 => "remove_branches"@,
        33 => "remove_unmasked_branches"@,
        34 => "graft"@,
        35 => "graft_src_at"@,
        36 => "join_into"@,
        37 => "join_map_into"@,
        38 => "meet_into"@,
        39 => "subtract_into"@,
        40 => "restrict"@,
        41 => "restricting"@,
        42 => "join_k_path_into"@,
        43 => "insert_prefix"@,
        44 => "remove_prefix"@,
        45 => "take_map_restore"@,
        46 => "meet_k_path_into"@,
        47 => "descend_until_observed"@,
        48 => "get_val_mut_write"@,
        49 => "get_val_or_set_mut"@,
        50 => "get_val_or_set_mut_with"@,
        51 => "get_val_agrees"@,
        52 => "to_next_get_val"@,
        53 => "graft_masked_branches"@,
        54 => "graft_child_maps"@,
        55 => "meet_2"@,
        _ => "nop"@,
    }
}

/// What an operation is called.
pub fn op_name(code: u8) -> (r: &'static str)
    ensures
        r@ == name_of(code),
{
    match code {
        0 => "descend_to",
        1 => "descend_to_byte",
        2 => "ascend",
        3 => "ascend_byte",
        4 => "reset",
        5 => "descend_first_byte",
        6 => "descend_last_byte",
        7 => "descend_indexed_byte",
        8 => "descend_until",
        9 => "ascend_until",
        10 => "ascend_until_branch",
        11 => "to_next_sibling_byte",
        12 => "to_prev_sibling_byte",
        13 => "to_next_step",
        14 => "to_next_val",
        15 => "descend_first_k_path",
        16 => "k_path_walk",
        17 => "descend_last_path",
        18 => "move_to_path",
        19 => "descend_to_existing",
        20 => "descend_to_val",
        21 => "descend_to_existing_byte",
        22 => "descend_until_max_bytes",
        23 => "descend_to_check",
        24 => "val_at",
        25 => "make_map_val_count",
        26 => "dump",
        27 => "set_val",
        28 => "remove_val",
        29 => "create_path",
        30 => "prune_path",
        31 => "prune_ascend",
        32 => "remove_branches",
        33 => "remove_unmasked_branches",
        34 => "graft",
        35 => "graft_src_at",
        36 => "join_into",
        37 => "join_map_into",
        38 => "meet_into",
        39 => "subtract_into",
        40 => "restrict",
        41 => "restricting",
        42 => "join_k_path_into",
        43 => "insert_prefix",
        44 => "remove_prefix",
        45 => "take_map_restore",
        46 => "meet_k_path_into",
        47 => "descend_until_observed",
        48 => "get_val_mut_write",
        49 => "get_val_or_set_mut",
        50 => "get_val_or_set_mut_with",
        51 => "get_val_agrees",
        52 => "to_next_get_val",
        53 => "graft_masked_branches",
        54 => "graft_child_maps",
        55 => "meet_2",
        _ => "nop",
    }
}

} // verus!

//! Which operations are carried out, and how their answers are told.

use vstd::prelude::*;

use crate::harness::op::{Op, OpView};
use crate::harness::show::{
    bool_text, byte_text, hex_path, path_text, show_bool, show_byte_opt, show_number, show_status,
    show_val, status_text, val_text, AlgebraicStatus,
};
use crate::text::{decimal, hex};
use crate::utils::bits::members;
use crate::utils::byte_mask::ByteMask;

verus! {

/// What has to be known of the two zippers to decide on an operation.
#[derive(Clone, Copy)]
pub struct Facts {
    /// The zipper that writes is at its root.
    pub write_at_root: bool,
    /// The zipper that reads is at its root.
    pub read_at_root: bool,
    /// How many bytes lead on from the zipper that writes.
    pub write_children: usize,
    /// How many bytes lead on from the zipper that reads.
    pub read_children: usize,
    /// There is a value at the zipper that writes.
    pub write_val: bool,
    /// The root of the zipper that writes is that of its map.
    pub pruneable: bool,
    /// The zipper that reads can be a source for the other.
    pub source: bool,
}

/// What is done for an operation.
#[derive(Clone, Copy, PartialEq, Eq, Structural, Debug)]
pub enum Plan {
    /// Nothing.
    Skip,
    /// The zipper that reads carries it out.
    Read,
    /// The zipper that writes carries it out.
    Write,
}

/// What is done for an operation.
///
/// Left out are siblings of a root, paths of no length, prunings below a root that is not that of
/// the map, whatever takes the other zipper as a source where it cannot be one, and whatever
/// depends on nodes that hold nothing.
pub open spec fn plan_of(op: OpView, f: Facts) -> Plan {
    let by_target = if op.target == 0 {
        Plan::Write
    } else {
        Plan::Read
    };
    let written = |b: bool|
        if b {
            Plan::Write
        } else {
            Plan::Skip
        };
    let read = |b: bool|
        if b {
            Plan::Read
        } else {
            Plan::Skip
        };
    let at_root = if op.target == 0 {
        f.write_at_root
    } else {
        f.read_at_root
    };
    match op.code {
        11 | 12 => if at_root {
            Plan::Skip
        } else {
            by_target
        },
        14 | 17 => Plan::Read,
        15 | 16 => read(op.number > 0),
        25 => if op.target == 0 {
            Plan::Write
        } else {
            read(f.source)
        },
        52 => read(f.source),
        0 | 1 | 2 | 3 | 4 | 5 | 6 | 7 | 8 | 9 | 10 | 13 | 18 | 19 | 20 | 21 | 22 | 23 | 24 | 26 | 47 | 51 => by_target,
        30 | 31 => written(f.pruneable),
        34 | 35 | 36 | 37 | 38 | 39 | 40 | 53 | 55 => written(f.source),
        41 => written(f.source && f.write_children > 0 && f.read_children > 0),
        42 => written(op.number > 0),
        43 => written(op.path.len() > 0),
        46 => written(op.number > 0 && f.write_children > 0),
        54 => Plan::Skip,
        27 | 28 | 29 | 32 | 33 | 44 | 45 | 48 | 49 | 50 => Plan::Write,
        _ => Plan::Skip,
    }
}

/// Decides what is done for an operation.
pub fn plan(op: &Op, f: Facts) -> (r: Plan)
    ensures
        r == plan_of(op@, f),
{
    let by_target = if op.target == 0 {
        Plan::Write
    } else {
        Plan::Read
    };
    let at_root = if op.target == 0 {
        f.write_at_root
    } else {
        f.read_at_root
    };
    let (kind, done) = match op.code {
        11 | 12 => (by_target, !at_root),
        14 | 17 => (Plan::Read, true),
        15 | 16 => (Plan::Read, op.number > 0),
        25 => (by_target, op.target == 0 || f.source),
        52 => (Plan::Read, f.source),
        0 | 1 | 2 | 3 | 4 | 5 | 6 | 7 | 8 | 9 | 10 | 13 | 18 | 19 | 20 | 21 | 22 | 23 | 24 | 26 | 47 | 51 => (by_target, true),
        30 | 31 => (Plan::Write, f.pruneable),
        34 | 35 | 36 | 37 | 38 | 39 | 40 | 53 | 55 => (Plan::Write, f.source),
        41 => (Plan::Write, f.source && f.write_children > 0 && f.read_children > 0),
        42 => (Plan::Write, op.number > 0),
        43 => (Plan::Write, op.path.len() > 0),
        46 => (Plan::Write, op.number > 0 && f.write_children > 0),
        54 => (Plan::Skip, false),
        27 | 28 | 29 | 32 | 33 | 44 | 45 | 48 | 49 | 50 => (Plan::Write, true),
        _ => (Plan::Skip, false),
    };
    if done {
        kind
    } else {
        Plan::Skip
    }
}

/// What a zipper answered.
pub enum Reply {
    /// That it is done.
    Done,
    Bool(bool),
    Number(usize),
    Byte(Option<u8>),
    Val(Option<u64>),
    Status(AlgebraicStatus),
    /// A value, and whether it had to be made.
    Made(u64, bool),
    /// Whether it moved, and the bytes by which it did.
    Moved(bool, Vec<u8>),
    /// Two values, and whether they agree with what else is known of them.
    Values(Option<u64>, Option<u64>, bool),
    /// Whether it moved, the value there, and whether that agrees with what else is known of it.
    Next(bool, Option<u64>, bool),
    /// A list, already told as text.
    Text(String),
}

/// How an operation that only has been done is told: by what it took.
pub open spec fn done_text(op: OpView) -> Seq<char> {
    match op.code {
        0 | 35 => path_text(op.path),
        1 => hex(op.byte as nat, 2),
        33 => path_text(members(op.mask.to_set())),
        53 => path_text(members(op.mask.to_set())) + ":"@ + bool_text(op.flag),
        _ => "-"@,
    }
}

/// How an answer is told.
pub open spec fn answer_text(op: OpView, r: Reply) -> Seq<char> {
    match r {
        Reply::Done => done_text(op),
        Reply::Bool(b) => bool_text(b),
        Reply::Number(n) => decimal(n as nat),
        Reply::Byte(b) => byte_text(b),
        Reply::Val(v) => val_text(v),
        Reply::Status(s) => status_text(s),
        Reply::Made(v, ran) => val_text(Some(v)) + ":"@ + bool_text(ran),
        Reply::Moved(b, run) => bool_text(b) + ":"@ + path_text(run@),
        Reply::Values(g, ga, agree) => val_text(g) + ":"@ + val_text(ga) + ":"@ + bool_text(agree),
        Reply::Next(moved, v, agree) => bool_text(moved) + ":"@ + val_text(v) + ":"@ + bool_text(
            agree,
        ),
        Reply::Text(t) => t@,
    }
}

/// Whether an answer tells only of nodes that hold nothing: `before` is known before the operation,
/// and `after` is how many bytes lead on afterwards from the zipper that writes.
pub open spec fn is_masked(op: OpView, before: Facts, after: nat) -> bool {
    match op.code {
        32 | 37 | 40 => before.write_children == 0,
        42 => after == 0,
        45 => before.write_children == 0 && !before.write_val,
        _ => false,
    }
}

/// How the outcome of an operation is told.
pub open spec fn outcome_text(op: OpView, before: Facts, after: nat, r: Option<Reply>) -> Seq<char> {
    match r {
        None => "skip"@,
        Some(r) => if is_masked(op, before, after) {
            "?"@
        } else {
            answer_text(op, r)
        },
    }
}

fn show_done(op: &Op) -> (r: String)
    ensures
        r@ == done_text(op@),
{
    match op.code {
        0 | 35 => hex_path(op.path.as_slice()),
        1 => show_byte_opt(Some(op.byte)),
        33 => hex_path(ByteMask::from_iter(op.mask.as_slice()).to_vec().as_slice()),
        53 => {
            let mut s = hex_path(ByteMask::from_iter(op.mask.as_slice()).to_vec().as_slice());
            s.push_str(":");
            s.push_str(show_bool(op.flag));
            s
        },
        _ => "-".to_owned(),
    }
}

/// Tells an answer.
pub fn show_answer(op: &Op, r: &Reply) -> (s: String)
    ensures
        s@ == answer_text(op@, *r),
{
    match r {
        Reply::Done => show_done(op),
        Reply::Bool(b) => show_bool(*b).to_owned(),
        Reply::Number(n) => show_number(*n),
        Reply::Byte(b) => show_byte_opt(*b),
        Reply::Val(v) => show_val(v.as_ref()),
        Reply::Status(s) => show_status(*s).to_owned(),
        Reply::Made(v, ran) => {
            let mut s = show_val(Some(v));
            s.push_str(":");
            s.push_str(show_bool(*ran));
            s
        },
        Reply::Moved(b, run) => {
            let mut s = show_bool(*b).to_owned();
            s.push_str(":");
            s.push_str(hex_path(run.as_slice()).as_str());
            s
        },
        Reply::Values(g, ga, agree) => {
            let mut s = show_val(g.as_ref());
            s.push_str(":");
            s.push_str(show_val(ga.as_ref()).as_str());
            s.push_str(":");
            s.push_str(show_bool(*agree));
            s
        },
        Reply::Next(moved, v, agree) => {
            let mut s = show_bool(*moved).to_owned();
            s.push_str(":");
            s.push_str(show_val(v.as_ref()).as_str());
            s.push_str(":");
            s.push_str(show_bool(*agree));
            s
        },
        Reply::Text(t) => t.as_str().to_owned(),
    }
}

/// Tells the outcome of an operation, which is `None` where it was left out.
pub fn show_outcome(op: &Op, before: Facts, after: usize, r: &Option<Reply>) -> (s: String)
    ensures
        s@ == outcome_text(op@, before, after as nat, *r),
{
    let masked = match op.code {
        32 | 37 | 40 => before.write_children == 0,
        42 => after == 0,
        45 => before.write_children == 0 && !before.write_val,
        _ => false,
    };
    match r {
        None => "skip".to_owned(),
        Some(r) => if masked {
            "?".to_owned()
        } else {
            show_answer(op, r)
        },
    }
}

} // verus!

//! How paths, values and answers are told.

use vstd::prelude::*;

use crate::text::{decimal, hex, hex_bytes, push_decimal, push_hex, push_hex_bytes};

verus! {

/// What an algebraic operation made of its target.
#[derive(Clone, Copy, PartialEq, Eq, Structural, Debug)]
pub enum AlgebraicStatus {
    /// It has new contents.
    Element,
    /// It is as it was.
    Identity,
    /// It is empty.
    Nothing,
}

/// A path in hexadecimal, or an underscore where it is empty.
pub open spec fn path_text(p: Seq<u8>) -> Seq<char> {
    if p.len() == 0 {
        seq!['_']
    } else {
        hex_bytes(p)
    }
}

/// A value in decimal, or a dash where there is none.
pub open spec fn val_text(v: Option<u64>) -> Seq<char> {
    match v {
        Some(v) => decimal(v as nat),
        None => seq!['-'],
    }
}

/// A byte in hexadecimal, or a dash where there is none.
pub open spec fn byte_text(b: Option<u8>) -> Seq<char> {
    match b {
        Some(b) => hex(b as nat, 2),
        None => seq!['-'],
    }
}

pub open spec fn bool_text(b: bool) -> Seq<char> {
    if b {
        seq!['1']
    } else {
        seq!['0']
    }
}

pub open spec fn status_text(s: AlgebraicStatus) -> Seq<char> {
    match s {
        AlgebraicStatus::Element => "Element"@,
        AlgebraicStatus::Identity => "Identity"@,
        AlgebraicStatus::Nothing => "None"@,
    }
}

pub open spec fn status_opt_text(s: Option<AlgebraicStatus>) -> Seq<char> {
    match s {
        Some(s) => status_text(s),
        None => "skip"@,
    }
}

pub fn hex_path(p: &[u8]) -> (r: String)
    ensures
        r@ == path_text(p@),
{
    let mut s = String::new();
    if p.len() == 0 {
        s.push('_');
        assert(s@ =~= seq!['_']);
    } else {
        push_hex_bytes(&mut s, p);
        assert(s@ =~= hex_bytes(p@));
    }
    s
}

pub fn show_val(v: Option<&u64>) -> (r: String)
    ensures
        r@ == val_text(
            match v {
                Some(v) => Some(*v),
                None => None,
            },
        ),
{
    let mut s = String::new();
    match v {
        Some(v) => {
            push_decimal(&mut s, *v);
            assert(s@ =~= decimal(*v as nat));
        },
        None => {
            s.push('-');
            assert(s@ =~= seq!['-']);
        },
    }
    s
}

/// Render a status that may not have been produced.
pub fn show_status_opt(s: Option<AlgebraicStatus>) -> (r: String)
    ensures
        r@ == status_opt_text(s),
{
    match s {
        Some(s) => show_status(s).to_owned(),
        None => "skip".to_owned(),
    }
}

pub fn show_status(s: AlgebraicStatus) -> (r: &'static str)
    ensures
        r@ == status_text(s),
{
    match s {
        AlgebraicStatus::Element => "Element",
        AlgebraicStatus::Identity => "Identity",
        AlgebraicStatus::Nothing => "None",
    }
}

pub fn show_bool(b: bool) -> (r: &'static str)
    ensures
        r@ == bool_text(b),
{
    proof {
        reveal_strlit("1");
        reveal_strlit("0");
        assert("1"@ =~= seq!['1']);
        assert("0"@ =~= seq!['0']);
    }
    if b {
        "1"
    } else {
        "0"
    }
}

/// Render the byte moved to, or `-` for "did not move".
pub fn show_byte_opt(b: Option<u8>) -> (r: String)
    ensures
        r@ == byte_text(b),
{
    let mut s = String::new();
    match b {
        Some(b) => {
            push_hex(&mut s, b as u64, 2);
            assert(s@ =~= hex(b as nat, 2));
        },
        None => {
            s.push('-');
            assert(s@ =~= seq!['-']);
        },
    }
    s
}

/// Render a number.
pub fn show_number(n: usize) -> (r: String)
    ensures
        r@ == decimal(n as nat),
{
    let mut s = String::new();
    push_decimal(&mut s, n as u64);
    assert(s@ =~= decimal(n as nat));
    s
}

} // verus!

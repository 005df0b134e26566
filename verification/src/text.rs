//! Writing numbers and bytes as text.

use vstd::prelude::*;

verus! {

/// A character is put at the end, as `String::push` documents it.
pub assume_specification[ String::push ](s: &mut String, c: char)
    ensures
        final(s)@ == old(s)@.push(c),
;

/// The characters of a slice are put at the end, as `String::push_str` documents it.
pub assume_specification[ String::push_str ](s: &mut String, t: &str)
    ensures
        final(s)@ == old(s)@ + t@,
;

/// The decimal digit for a number below ten.
pub open spec fn decimal_digit(n: nat) -> char {
    (48 + n) as char
}

/// A number in decimal, without leading zeros.
pub open spec fn decimal(n: nat) -> Seq<char>
    decreases n,
{
    if n < 10 {
        seq![decimal_digit(n)]
    } else {
        decimal(n / 10).push(decimal_digit(n % 10))
    }
}

/// The hexadecimal digit, in lower case, for a number below sixteen.
pub open spec fn hex_digit(n: nat) -> char {
    if n < 10 {
        (48 + n) as char
    } else {
        (87 + n) as char
    }
}

/// The lowest `digits` hexadecimal digits of a number.
pub open spec fn hex(n: nat, digits: nat) -> Seq<char>
    decreases digits,
{
    if digits == 0 {
        Seq::empty()
    } else {
        hex(n / 16, (digits - 1) as nat).push(hex_digit(n % 16))
    }
}

/// Two hexadecimal digits for each byte.
pub open spec fn hex_bytes(s: Seq<u8>) -> Seq<char>
    decreases s.len(),
{
    if s.len() == 0 {
        Seq::empty()
    } else {
        hex_bytes(s.drop_last()) + hex(s.last() as nat, 2)
    }
}

/// Appends a number in decimal.
pub fn push_decimal(s: &mut String, n: u64)
    ensures
        final(s)@ == old(s)@ + decimal(n as nat),
    decreases n,
{
    if n >= 10 {
        push_decimal(s, n / 10);
    }
    let c = (48 + (n % 10) as u8) as char;
    s.push(c);
    assert(s@ =~= old(s)@ + decimal(n as nat));
}

/// The character for a hexadecimal digit.
pub fn hex_char(n: u8) -> (c: char)
    requires
        n < 16,
    ensures
        c == hex_digit(n as nat),
{
    if n < 10 {
        (48 + n) as char
    } else {
        (87 + n) as char
    }
}

/// Appends the lowest `digits` hexadecimal digits of a number.
pub fn push_hex(s: &mut String, n: u64, digits: usize)
    ensures
        final(s)@ == old(s)@ + hex(n as nat, digits as nat),
    decreases digits,
{
    if digits > 0 {
        push_hex(s, n / 16, digits - 1);
        s.push(hex_char((n % 16) as u8));
    }
    assert(s@ =~= old(s)@ + hex(n as nat, digits as nat));
}

/// Appends two hexadecimal digits for each byte.
pub fn push_hex_bytes(s: &mut String, bytes: &[u8])
    ensures
        final(s)@ == old(s)@ + hex_bytes(bytes@),
{
    let mut i: usize = 0;
    assert(bytes@.subrange(0, 0) =~= Seq::<u8>::empty());
    assert(old(s)@ + hex_bytes(bytes@.subrange(0, 0)) =~= old(s)@);
    while i < bytes.len()
        invariant
            i <= bytes@.len(),
            s@ == old(s)@ + hex_bytes(bytes@.subrange(0, i as int)),
        decreases bytes@.len() - i,
    {
        let ghost t = bytes@.subrange(0, i + 1);
        assert(t.drop_last() =~= bytes@.subrange(0, i as int));
        push_hex(s, bytes[i] as u64, 2);
        i = i + 1;
        assert(s@ =~= old(s)@ + hex_bytes(t));
    }
    assert(bytes@.subrange(0, bytes@.len() as int) =~= bytes@);
}

} // verus!

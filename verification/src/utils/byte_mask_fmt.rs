//! Byte masks as text.

use vstd::prelude::*;

use crate::text::{decimal, push_decimal};
use crate::utils::bits::members;
use crate::utils::byte_mask::{BitMask, ByteMask};

verus! {

/// Alternate formatter for displaying a [`ByteMask`] as binary instead of as a set of byte
/// indices.
#[derive(Clone, Copy)]
pub struct ByteMaskBinaryFmt(ByteMask);

/// The digit for a bit.
pub open spec fn bit_char(set: bool) -> char {
    if set {
        '1'
    } else {
        '0'
    }
}

/// The first `n` of the 256 bits, from the highest byte down.
pub open spec fn binary(s: Set<u8>, n: nat) -> Seq<char>
    decreases n,
{
    if n == 0 {
        Seq::empty()
    } else {
        binary(s, (n - 1) as nat).push(bit_char(s.contains((256 - n) as u8)))
    }
}

/// The first `n` of the 256 bits, from the highest byte down, with a space behind every eighth but
/// the last.
pub open spec fn spaced_binary(s: Set<u8>, n: nat) -> Seq<char>
    decreases n,
{
    if n == 0 {
        Seq::empty()
    } else {
        let t = spaced_binary(s, (n - 1) as nat).push(bit_char(s.contains((256 - n) as u8)));
        if n % 8 == 0 && n < 256 {
            t.push(' ')
        } else {
            t
        }
    }
}

/// The numbers of a list in decimal, with a comma and a space between them.
pub open spec fn joined(s: Seq<u8>) -> Seq<char>
    decreases s.len(),
{
    if s.len() == 0 {
        Seq::empty()
    } else if s.len() == 1 {
        decimal(s[0] as nat)
    } else {
        joined(s.drop_last()) + seq![',', ' '] + decimal(s.last() as nat)
    }
}

impl ByteMask {
    /// Returns a wrapper that renders this mask as 256 bits of binary text.
    pub fn fmt_binary(&self) -> (r: ByteMaskBinaryFmt)
        ensures
            r@ == self@,
    {
        ByteMaskBinaryFmt(*self)
    }

    /// The bytes of the mask in braces.
    pub fn to_text(&self) -> (r: String)
        ensures
            r@ == seq!['{'] + joined(members(self@)) + seq!['}'],
    {
        let bytes = self.to_vec();
        let mut s = String::new();
        s.push('{');
        let mut i: usize = 0;
        assert(bytes@.subrange(0, 0) =~= Seq::<u8>::empty());
        assert(s@ =~= seq!['{'] + joined(bytes@.subrange(0, 0)));
        while i < bytes.len()
            invariant
                i <= bytes@.len(),
                s@ =~= seq!['{'] + joined(bytes@.subrange(0, i as int)),
            decreases bytes@.len() - i,
        {
            let ghost t = bytes@.subrange(0, i + 1);
            assert(t.drop_last() =~= bytes@.subrange(0, i as int));
            if i > 0 {
                s.push(',');
                s.push(' ');
            }
            push_decimal(&mut s, bytes[i] as u64);
            i = i + 1;
            assert(s@ =~= seq!['{'] + joined(t));
        }
        s.push('}');
        assert(bytes@.subrange(0, bytes@.len() as int) =~= bytes@);
        assert(s@ =~= seq!['{'] + joined(members(self@)) + seq!['}']);
        s
    }
}

impl View for ByteMaskBinaryFmt {
    type V = Set<u8>;

    closed spec fn view(&self) -> Set<u8> {
        self.0@
    }
}

impl ByteMaskBinaryFmt {
    /// The 256 bits, from the highest byte down.
    pub fn to_debug_text(&self) -> (r: String)
        ensures
            r@ == binary(self@, 256),
    {
        let mut s = String::new();
        let mut n: u16 = 0;
        assert(s@ =~= binary(self@, 0));
        while n < 256
            invariant
                n <= 256,
                s@ == binary(self@, n as nat),
            decreases 256 - n,
        {
            n = n + 1;
            let c = if self.0.test_bit((256 - n) as u8) {
                '1'
            } else {
                '0'
            };
            s.push(c);
        }
        s
    }

    /// The 256 bits, from the highest byte down, in groups of eight.
    pub fn to_text(&self) -> (r: String)
        ensures
            r@ == spaced_binary(self@, 256),
    {
        let mut s = String::new();
        let mut n: u16 = 0;
        assert(s@ =~= spaced_binary(self@, 0));
        while n < 256
            invariant
                n <= 256,
                s@ == spaced_binary(self@, n as nat),
            decreases 256 - n,
        {
            n = n + 1;
            let c = if self.0.test_bit((256 - n) as u8) {
                '1'
            } else {
                '0'
            };
            s.push(c);
            if n % 8 == 0 && n < 256 {
                s.push(' ');
            }
        }
        s
    }
}

} // verus!

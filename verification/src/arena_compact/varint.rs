//! Integers in as few bytes as they need.
//!
//! A value up to 247 is one byte. A larger one is a head byte, 247 plus the number of bytes that
//! follow, and then those bytes in little-endian order.

use vstd::prelude::*;

verus! {

/// The largest value that a single byte stands for, and the bias of the head byte.
pub const VARINT_LEN_BIAS: u8 = 247;

/// The number that `s` spells in little-endian order.
pub open spec fn le_nat(s: Seq<u8>) -> nat
    decreases s.len(),
{
    if s.len() == 0 {
        0
    } else {
        s[0] as nat + 256 * le_nat(s.drop_first())
    }
}

/// The lowest `n` bytes of `x` in little-endian order.
pub open spec fn le_bytes(x: nat, n: nat) -> Seq<u8>
    decreases n,
{
    if n == 0 {
        Seq::empty()
    } else {
        seq![(x % 256) as u8] + le_bytes(x / 256, (n - 1) as nat)
    }
}

/// How many bytes `x` needs.
pub open spec fn byte_len(x: nat) -> nat
    decreases x,
{
    if x < 256 {
        1
    } else {
        1 + byte_len(x / 256)
    }
}

/// The bytes that stand for `x`.
pub open spec fn varint_bytes(x: u64) -> Seq<u8> {
    if x <= VARINT_LEN_BIAS {
        seq![x as u8]
    } else {
        let n = byte_len(x as nat);
        seq![(VARINT_LEN_BIAS + n) as u8] + le_bytes(x as nat, n)
    }
}

/// How many bytes the integer takes whose first byte is `first`.
pub open spec fn varint_len(first: u8) -> nat {
    if first <= VARINT_LEN_BIAS {
        1
    } else {
        (first - VARINT_LEN_BIAS + 1) as nat
    }
}

/// The integer at `pos` and its length, where all of its bytes are there.
pub open spec fn varint_at(d: Seq<u8>, pos: int) -> Option<(u64, nat)> {
    if 0 <= pos < d.len() && pos + varint_len(d[pos]) <= d.len() {
        let n = varint_len(d[pos]);
        if n == 1 {
            Some((d[pos] as u64, n))
        } else {
            Some((le_nat(d.subrange(pos + 1, pos + n)) as u64, n))
        }
    } else {
        None
    }
}

/// The bytes `s` stand in `d` at `pos`.
pub open spec fn stands_at(d: Seq<u8>, pos: int, s: Seq<u8>) -> bool {
    &&& 0 <= pos
    &&& pos + s.len() <= d.len()
    &&& d.subrange(pos, pos + s.len()) == s
}

/// `x` has no more than `n` bytes.
spec fn fits(x: nat, n: nat) -> bool
    decreases n,
{
    if n == 0 {
        x == 0
    } else {
        fits(x / 256, (n - 1) as nat)
    }
}

proof fn lemma_byte_len_fits(x: nat)
    ensures
        fits(x, byte_len(x)),
    decreases x,
{
    if x < 256 {
        assert(fits(x / 256, 0));
        assert(fits(x, 1));
    } else {
        lemma_byte_len_fits(x / 256);
    }
}

pub proof fn lemma_byte_len_u64(x: u64)
    ensures
        1 <= byte_len(x as nat) <= 8,
{
    reveal_with_fuel(byte_len, 9);
}

pub proof fn lemma_le_bytes_len(x: nat, n: nat)
    ensures
        le_bytes(x, n).len() == n,
    decreases n,
{
    if n > 0 {
        lemma_le_bytes_len(x / 256, (n - 1) as nat);
    }
}

proof fn lemma_le_round(x: nat, n: nat)
    requires
        fits(x, n),
    ensures
        le_nat(le_bytes(x, n)) == x,
    decreases n,
{
    if n > 0 {
        lemma_le_round(x / 256, (n - 1) as nat);
        assert(le_bytes(x, n).drop_first() =~= le_bytes(x / 256, (n - 1) as nat));
    }
}

/// Eight little-endian bytes give a `u64` back.
pub proof fn lemma_le_round_u64(x: u64)
    ensures
        le_bytes(x as nat, 8).len() == 8,
        le_nat(le_bytes(x as nat, 8)) == x,
{
    lemma_le_bytes_len(x as nat, 8);
    assert(fits(x as nat, 8)) by {
        reveal_with_fuel(fits, 10);
    }
    lemma_le_round(x as nat, 8);
}

pub proof fn lemma_le_nat_bound(s: Seq<u8>)
    ensures
        s.len() <= 8 ==> le_nat(s) <= u64::MAX,
        s.len() <= 7 ==> le_nat(s) < 0x100_0000_0000_0000,
        s.len() <= 6 ==> le_nat(s) < 0x1_0000_0000_0000,
        s.len() <= 5 ==> le_nat(s) < 0x100_0000_0000,
        s.len() <= 4 ==> le_nat(s) < 0x1_0000_0000,
        s.len() <= 3 ==> le_nat(s) < 0x100_0000,
        s.len() <= 2 ==> le_nat(s) < 0x1_0000,
        s.len() <= 1 ==> le_nat(s) < 0x100,
        s.len() == 0 ==> le_nat(s) == 0,
    decreases s.len(),
{
    if s.len() > 0 {
        lemma_le_nat_bound(s.drop_first());
    }
}

/// An encoding has between one and nine bytes.
pub proof fn lemma_varint_len(x: u64)
    ensures
        1 <= varint_bytes(x).len() <= 9,
        varint_bytes(x).len() == varint_len(varint_bytes(x)[0]),
{
    lemma_byte_len_u64(x);
    lemma_le_bytes_len(x as nat, byte_len(x as nat));
}

proof fn lemma_byte_len_longer(x: nat, y: nat)
    requires
        x <= y,
    ensures
        byte_len(x) <= byte_len(y),
    decreases y,
{
    if x >= 256 {
        lemma_byte_len_longer(x / 256, y / 256);
    }
}

/// A larger number takes no fewer bytes.
pub proof fn lemma_varint_longer(x: u64, y: u64)
    requires
        x <= y,
    ensures
        varint_bytes(x).len() <= varint_bytes(y).len(),
{
    lemma_byte_len_longer(x as nat, y as nat);
    lemma_le_bytes_len(x as nat, byte_len(x as nat));
    lemma_le_bytes_len(y as nat, byte_len(y as nat));
}

/// Reading gives back what was written, wherever it stands.
pub proof fn lemma_varint_round_trip(d: Seq<u8>, pos: int, x: u64)
    requires
        stands_at(d, pos, varint_bytes(x)),
    ensures
        varint_at(d, pos) == Some((x, varint_bytes(x).len())),
{
    lemma_varint_len(x);
    let e = varint_bytes(x);
    assert(d[pos] == d.subrange(pos, pos + e.len())[0]);
    if x > VARINT_LEN_BIAS {
        let n = byte_len(x as nat);
        lemma_byte_len_u64(x);
        lemma_le_bytes_len(x as nat, n);
        lemma_byte_len_fits(x as nat);
        lemma_le_round(x as nat, n);
        assert(d.subrange(pos + 1, pos + e.len()) =~= d.subrange(pos, pos + e.len()).drop_first());
        assert(e.drop_first() =~= le_bytes(x as nat, n));
    }
}

/// What is read at a place rests on the bytes from there on alone.
pub proof fn lemma_varint_agree(d: Seq<u8>, e: Seq<u8>, pos: int)
    requires
        varint_at(d, pos) is Some,
        d.len() <= e.len(),
        forall|i: int| pos <= i < d.len() ==> d[i] == e[i],
    ensures
        varint_at(e, pos) == varint_at(d, pos),
{
    let n = varint_len(d[pos]);
    assert(d[pos] == e[pos]);
    assert(d.subrange(pos + 1, pos + n) =~= e.subrange(pos + 1, pos + n));
}

/// Decodes a variable-length encoded `u64` integer from the start of a byte slice.
///
/// Returns the decoded value and the number of bytes that it takes.
pub fn read_varint_u64(data: &[u8]) -> (r: (u64, usize))
    requires
        varint_at(data@, 0) is Some,
    ensures
        varint_at(data@, 0) == Some((r.0, r.1 as nat)),
{
    read_varint_from(data, 0)
}

/// Decodes the integer at `pos`.
pub(crate) fn read_varint_from(data: &[u8], pos: usize) -> (r: (u64, usize))
    requires
        varint_at(data@, pos as int) is Some,
    ensures
        varint_at(data@, pos as int) == Some((r.0, r.1 as nat)),
        pos + r.1 <= data.len(),
        1 <= r.1 <= 9,
{
    let first = data[pos];
    if first <= VARINT_LEN_BIAS {
        return (first as u64, 1);
    }
    let len = (first - VARINT_LEN_BIAS) as usize;
    let value = read_le(data, pos + 1, len);
    (value, len + 1)
}

/// The number that `len` bytes from `pos` on spell in little-endian order.
pub(crate) fn read_le(data: &[u8], pos: usize, len: usize) -> (value: u64)
    requires
        len <= 8,
        pos + len <= data@.len(),
    ensures
        value == le_nat(data@.subrange(pos as int, pos + len)),
{
    let mut value: u64 = 0;
    let mut i: usize = len;
    proof {
        assert(data@.subrange(pos + len, pos + len) =~= Seq::<u8>::empty());
    }
    while i > 0
        invariant
            i <= len <= 8,
            pos + len <= data.len(),
            value == le_nat(data@.subrange(pos + i, pos + len)),
        decreases i,
    {
        i = i - 1;
        let ghost s = data@.subrange(pos + i, pos + len);
        proof {
            assert(s.drop_first() =~= data@.subrange(pos + i + 1, pos + len));
            lemma_le_nat_bound(s);
            lemma_le_nat_bound(s.drop_first());
        }
        value = value * 256 + data[pos + i] as u64;
    }
    value
}

/// Appends the lowest `n` bytes of `value` in little-endian order.
pub(crate) fn push_le(dst: &mut Vec<u8>, value: u64, n: usize)
    ensures
        final(dst)@ == old(dst)@ + le_bytes(value as nat, n as nat),
{
    let mut x = value;
    let mut i: usize = 0;
    while i < n
        invariant
            i <= n,
            dst@ + le_bytes(x as nat, (n - i) as nat) =~= old(dst)@ + le_bytes(value as nat, n as nat),
        decreases n - i,
    {
        dst.push((x % 256) as u8);
        x = x / 256;
        i = i + 1;
    }
}

/// Encodes a `u64` integer into a variable-length format and appends it to `dst`.
///
/// Returns the number of bytes written, which is at most 9.
pub fn push_varint_u64(dst: &mut Vec<u8>, value: u64) -> (n: usize)
    ensures
        final(dst)@ == old(dst)@ + varint_bytes(value),
        n == varint_bytes(value).len(),
{
    proof {
        lemma_varint_len(value);
        lemma_byte_len_u64(value);
        lemma_le_bytes_len(value as nat, byte_len(value as nat));
    }
    if value <= VARINT_LEN_BIAS as u64 {
        dst.push(value as u8);
        assert(dst@ =~= old(dst)@ + varint_bytes(value));
        return 1;
    }
    let mut nbytes: usize = 1;
    let mut x = value / 256;
    while x > 0
        invariant
            1 <= nbytes <= 8,
            byte_len(value as nat) <= 8,
            x > 0 ==> nbytes + byte_len(x as nat) == byte_len(value as nat),
            x == 0 ==> nbytes == byte_len(value as nat),
        decreases x,
    {
        nbytes = nbytes + 1;
        x = x / 256;
    }
    dst.push(VARINT_LEN_BIAS + nbytes as u8);
    push_le(dst, value, nbytes);
    assert(dst@ =~= old(dst)@ + varint_bytes(value));
    nbytes + 1
}

} // verus!

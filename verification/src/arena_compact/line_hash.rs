//! The hash by which equal lines are found.

use vstd::prelude::*;

verus! {

/// What the hash of no bytes is.
pub const HASH_SEED: u64 = 0xcbf29ce484222325;

/// What each step multiplies by.
pub const HASH_FACTOR: u64 = 0x100000001b3;

/// The hash of `s`, byte by byte: each byte is added in by exclusive or, and the whole is then
/// multiplied and cut to 64 bits.
pub open spec fn line_hash(s: Seq<u8>) -> u64
    decreases s.len(),
{
    if s.len() == 0 {
        HASH_SEED
    } else {
        let h = line_hash(s.drop_last());
        (((h ^ (s.last() as u64)) * HASH_FACTOR) % 0x1_0000_0000_0000_0000) as u64
    }
}

/// The hash of a line. It is the same on every machine, so that equal tries give equal bytes.
pub(crate) fn hash_line(line: &[u8]) -> (h: u64)
    ensures
        h == line_hash(line@),
{
    let mut h: u64 = HASH_SEED;
    let mut i: usize = 0;
    while i < line.len()
        invariant
            i <= line.len(),
            h == line_hash(line@.subrange(0, i as int)),
        decreases line.len() - i,
    {
        let ghost s = line@.subrange(0, i + 1);
        proof {
            assert(s.drop_last() =~= line@.subrange(0, i as int));
            assert(s.last() == line@[i as int]);
        }
        h = (h ^ (line[i] as u64)).wrapping_mul(HASH_FACTOR);
        i = i + 1;
    }
    assert(line@.subrange(0, line@.len() as int) =~= line@);
    h
}

} // verus!

//! What the crate asks of byte slices.

use vstd::prelude::*;

verus! {

/// How many bytes `a` and `b` share from the start.
pub open spec fn overlap(a: Seq<u8>, b: Seq<u8>) -> nat
    decreases a.len(),
{
    if a.len() > 0 && b.len() > 0 && a[0] == b[0] {
        1 + overlap(a.drop_first(), b.drop_first())
    } else {
        0
    }
}

/// `b` is how `a` begins.
pub open spec fn begins_with(a: Seq<u8>, b: Seq<u8>) -> bool {
    b.len() <= a.len() && a.subrange(0, b.len() as int) == b
}

pub proof fn lemma_overlap(a: Seq<u8>, b: Seq<u8>)
    ensures
        overlap(a, b) <= a.len(),
        overlap(a, b) <= b.len(),
        forall|i: int| 0 <= i < overlap(a, b) ==> #[trigger] a[i] == b[i],
        overlap(a, b) < a.len() && overlap(a, b) < b.len() ==> a[overlap(a, b) as int] != b[overlap(
            a,
            b,
        ) as int],
    decreases a.len(),
{
    if a.len() > 0 && b.len() > 0 && a[0] == b[0] {
        lemma_overlap(a.drop_first(), b.drop_first());
        assert forall|i: int| 0 <= i < overlap(a, b) implies #[trigger] a[i] == b[i] by {
            if i > 0 {
                assert(a.drop_first()[i - 1] == b.drop_first()[i - 1]);
            }
        }
    }
}

/// The number of bytes that `fast_slice_utils::find_prefix_overlap` finds equal at the start of
/// the two slices: those before the first difference or the end of the shorter slice.
#[verifier::external_body]
pub(crate) fn find_prefix_overlap(a: &[u8], b: &[u8]) -> (n: usize)
    ensures
        n == overlap(a@, b@),
{
    fast_slice_utils::find_prefix_overlap(a, b)
}

/// Whether `y` is a prefix of `x`, as `fast_slice_utils::starts_with` tells it.
#[verifier::external_body]
pub(crate) fn starts_with(x: &[u8], y: &[u8]) -> (r: bool)
    ensures
        r == begins_with(x@, y@),
{
    fast_slice_utils::starts_with(x, y)
}

/// Whether two slices hold the same bytes.
pub(crate) fn same_bytes(a: &[u8], b: &[u8]) -> (r: bool)
    ensures
        r == (a@ == b@),
{
    let r = a.len() == b.len() && starts_with(a, b);
    assert(a@.len() == b@.len() ==> a@.subrange(0, b@.len() as int) =~= a@);
    assert(a@ == b@ ==> begins_with(a@, b@));
    r
}

/// Appends the bytes of a slice.
pub(crate) fn push_slice(dst: &mut Vec<u8>, s: &[u8])
    ensures
        final(dst)@ == old(dst)@ + s@,
{
    dst.extend_from_slice(s);
    assert(dst@ =~= old(dst)@ + s@);
}

/// The part of a slice from `from` on, up to but not including `to`.
pub(crate) fn part(s: &[u8], from: usize, to: usize) -> (r: &[u8])
    requires
        from <= to <= s@.len(),
    ensures
        r@ == s@.subrange(from as int, to as int),
{
    vstd::slice::slice_subrange(s, from, to)
}

} // verus!

//! Whole files: the root, the trie, and the roots there have been.

use vstd::prelude::*;

use crate::arena_compact::layout::{
    build, denotes, layout, lemma_build, lemma_push_node, magic, push_node, with_root, zeros, Arena,
};
use crate::arena_compact::meaning::{extends, id_trie, id_wf, lemma_id_stable, ARENA_START};
use crate::arena_compact::varint::{le_bytes, le_nat, lemma_le_bytes_len, lemma_le_round_u64};
use crate::trie::Trie;

verus! {

/// The `u64` that stands at `pos` in little-endian order.
pub open spec fn u64_at(d: Seq<u8>, pos: int) -> nat {
    le_nat(d.subrange(pos, pos + 8))
}

/// The place of the root.
pub open spec fn root_of(d: Seq<u8>) -> nat {
    u64_at(d, 8)
}

/// The trie that a file stands for.
pub open spec fn file_trie(d: Seq<u8>) -> Trie<u64> {
    id_trie(d, root_of(d))
}

/// A trailer stands at `off`: a place in the arena at which two words are.
pub open spec fn trailer_fits(d: Seq<u8>, off: int) -> bool {
    ARENA_START <= off && off + 16 <= d.len()
}

/// The roots that the trailers from `off` on tell of, newest first.
///
/// A trailer holds the place of the trailer before it and the root that was live when it was
/// written. Zeros stand where there is none.
pub open spec fn roots_from(d: Seq<u8>, off: int) -> Seq<nat>
    decreases off,
{
    if trailer_fits(d, off) && u64_at(d, off + 8) != 0 {
        let earlier = u64_at(d, off) as int;
        let rest = if 0 < earlier < off {
            roots_from(d, earlier)
        } else {
            Seq::empty()
        };
        seq![u64_at(d, off + 8)] + rest
    } else {
        Seq::empty()
    }
}

/// The trailers lead back.
pub open spec fn trailers_wf(d: Seq<u8>, off: int) -> bool
    decreases off,
{
    trailer_fits(d, off) && u64_at(d, off + 8) != 0 && u64_at(d, off) != 0 ==> {
        let earlier = u64_at(d, off) as int;
        earlier < off && trailers_wf(d, earlier)
    }
}

/// Where the last trailer is, if the file has any.
pub open spec fn last_trailer(d: Seq<u8>) -> int {
    d.len() - 16
}

/// All the roots of a file, newest first.
pub open spec fn roots_of(d: Seq<u8>) -> Seq<nat> {
    seq![root_of(d)] + roots_from(d, last_trailer(d))
}

/// The trailers of a file lead back, so that its earlier roots can be told.
pub open spec fn history_wf(d: Seq<u8>) -> bool {
    trailers_wf(d, last_trailer(d))
}

/// A sound file: it begins with the magic, and the root is sound.
pub open spec fn file_wf(d: Seq<u8>) -> bool {
    &&& d.len() >= ARENA_START
    &&& d.subrange(0, 8) == magic()
    &&& id_wf(d, root_of(d))
}

/// A file that holds the root at `root` of the arena `d`, and more behind it.
pub proof fn lemma_with_root(d: Seq<u8>, root: nat, tail: Seq<u8>)
    requires
        ARENA_START <= d.len(),
        root <= u64::MAX,
        id_wf(d, root),
    ensures
        extends(d, with_root(d, root) + tail),
        (with_root(d, root) + tail).len() == d.len() + tail.len(),
        (with_root(d, root) + tail).subrange(0, 8) == magic(),
        root_of(with_root(d, root) + tail) == root,
        id_wf(with_root(d, root) + tail, root),
        file_trie(with_root(d, root) + tail) == id_trie(d, root),
{
    let e = with_root(d, root) + tail;
    lemma_le_round_u64(root as u64);
    assert(e.subrange(8, 16) =~= le_bytes(root, 8));
    assert(e.subrange(0, 8) =~= magic());
    assert forall|i: int| ARENA_START <= i < d.len() implies #[trigger] d[i] == e[i] by {
        assert(e[i] == d.subrange(ARENA_START as int, d.len() as int)[i - ARENA_START]);
    }
    lemma_id_stable(d, e, root);
}

/// Where the last eight bytes are zeros there is no trailer.
pub proof fn lemma_no_trailer(d: Seq<u8>)
    requires
        d.len() >= 8,
        d.subrange(d.len() - 8, d.len() as int) =~= zeros(8),
    ensures
        history_wf(d),
        roots_from(d, last_trailer(d)) == Seq::<nat>::empty(),
{
    if d.len() >= 16 {
        assert(d.subrange(last_trailer(d) + 8, last_trailer(d) + 16) =~= zeros(8));
        assert(le_bytes(0, 8) =~= zeros(8)) by {
            reveal_with_fuel(le_bytes, 9);
        }
        lemma_le_round_u64(0);
    }
}

/// The file of a trie is sound and stands for that trie; it tells of no earlier root.
pub proof fn lemma_layout(t: Trie<u64>)
    requires
        layout(t).len() <= u64::MAX,
    ensures
        file_wf(layout(t)),
        history_wf(layout(t)),
        file_trie(layout(t)) == t,
        roots_of(layout(t)) == seq![root_of(layout(t))],
{
    let (a, n) = build(Arena::start(), t, Seq::empty());
    let d = push_node(a.bytes, n);
    let root = a.bytes.len();
    lemma_le_bytes_len(root, 8);
    assert(Arena::start().wf());
    crate::arena_compact::layout::lemma_build_grows(Arena::start(), t, Seq::empty());
    assert(layout(t).len() == d.len() + 8);
    lemma_build(Arena::start(), t, Seq::empty());
    assert(denotes(a.bytes, n, t));
    lemma_push_node(a.bytes, n, t);
    lemma_with_root(d, root, zeros(8));
    assert(layout(t).subrange(layout(t).len() - 8, layout(t).len() as int) =~= zeros(8));
    lemma_no_trailer(layout(t));
    assert(roots_of(layout(t)) =~= seq![root_of(layout(t))]);
}

/// What the trailers tell does not change when the file grows.
pub proof fn lemma_trailers_stable(d: Seq<u8>, e: Seq<u8>, off: int)
    requires
        extends(d, e),
        off + 16 <= d.len(),
    ensures
        roots_from(e, off) == roots_from(d, off),
        trailers_wf(e, off) == trailers_wf(d, off),
    decreases off,
{
    if trailer_fits(d, off) {
        assert(d.subrange(off, off + 8) =~= e.subrange(off, off + 8));
        assert(d.subrange(off + 8, off + 16) =~= e.subrange(off + 8, off + 16));
        let earlier = u64_at(d, off) as int;
        if 0 < earlier < off {
            lemma_trailers_stable(d, e, earlier);
        }
    }
}

/// A file that ends in a trailer for the root of an earlier one.
pub open spec fn ends_in_trailer(d: Seq<u8>, e: Seq<u8>) -> bool {
    &&& d.len() + 16 <= e.len()
    &&& u64_at(e, last_trailer(e) + 8) == root_of(d)
    &&& u64_at(e, last_trailer(e)) == previous_trailer(d)
}

/// Where the last trailer of a file is, or zero where it has none.
pub open spec fn previous_trailer(d: Seq<u8>) -> nat {
    if u64_at(d, d.len() - 8) != 0 {
        (d.len() - 16) as nat
    } else {
        0
    }
}

/// The roots of such a file are its own root and those of the earlier one.
pub proof fn lemma_roots_grow(d: Seq<u8>, e: Seq<u8>)
    requires
        file_wf(d),
        d.len() >= 25,
        extends(d, e),
        ends_in_trailer(d, e),
    ensures
        history_wf(e) == history_wf(d),
        roots_of(e) == seq![root_of(e)] + roots_of(d),
{
    let off = last_trailer(e);
    lemma_trailers_stable(d, e, last_trailer(d));
    assert(root_of(d) >= ARENA_START);
    assert(roots_from(e, off) =~= roots_of(d));
}

} // verus!

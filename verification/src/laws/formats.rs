//! How numbers, lines, nodes and files are written.

use vstd::prelude::*;

use crate::arena_compact::file::{
    file_trie, history_wf, lemma_layout, lemma_with_root, root_of, roots_from, roots_of, trailers_wf, u64_at,
};
use crate::arena_compact::layout::{
    build, build_kids, layout, lemma_add_line, lemma_build_chain, lemma_build_kids,
    lemma_build_kids_grows, lemma_make_node, lemma_make_node_grows, lemma_push_node,
    lemma_push_nodes_grows, lemma_with_root_len, magic, make_node, push_node, stream_layout, zeros,
    Arena,
};
use crate::arena_compact::line_hash::line_hash;
use crate::arena_compact::node::{
    lemma_line_agree, lemma_line_round_trip, lemma_node_agree, lemma_node_round_trip, line_at,
    line_bytes, node_at,
    node_bytes, NodeView,
};
use crate::arena_compact::varint::{
    byte_len, le_bytes, le_nat, lemma_byte_len_u64, lemma_le_bytes_len, lemma_varint_round_trip,
    varint_at, varint_bytes,
};
use crate::trie::{chain, Trie};
use crate::utils::bits::members;

verus! {

/// `256` to the power of `n`.
pub open spec fn power_of_256(n: nat) -> nat
    decreases n,
{
    if n == 0 {
        1
    } else {
        256 * power_of_256((n - 1) as nat)
    }
}

/// Of bytes in little-endian order the last counts most.
pub proof fn law_last_byte_counts_most(s: Seq<u8>, b: u8)
    ensures
        le_nat(Seq::empty()) == 0,
        le_nat(s.push(b)) == le_nat(s) + b * power_of_256(s.len()),
        le_nat(s) < power_of_256(s.len()),
    decreases s.len(),
{
    if s.len() == 0 {
        assert(s.push(b).drop_first() =~= Seq::empty());
        assert(s =~= Seq::empty());
        assert(le_nat(s.push(b)) == b + 256 * le_nat(Seq::empty()));
        let one = power_of_256(s.len());
        assert(b * one == b) by (nonlinear_arith)
            requires
                one == 1,
        ;
    } else {
        let t = s.drop_first();
        law_last_byte_counts_most(t, b);
        assert(s.push(b).drop_first() =~= t.push(b));
        let p = power_of_256(t.len());
        assert(power_of_256(s.len()) == 256 * p);
        assert(256 * (b * p) == b * (256 * p)) by (nonlinear_arith);
        assert(le_nat(s.push(b)) == s[0] + 256 * (le_nat(t) + b * p));
    }
}

/// A number is written in as many bytes as are asked for, and read back where it has no more.
pub proof fn law_little_endian_reads_back(x: nat, n: nat)
    ensures
        le_bytes(x, n).len() == n,
        x < power_of_256(n) ==> le_nat(le_bytes(x, n)) == x,
    decreases n,
{
    if n > 0 {
        law_little_endian_reads_back(x / 256, (n - 1) as nat);
        assert(le_bytes(x, n).drop_first() =~= le_bytes(x / 256, (n - 1) as nat));
        assert(x < power_of_256(n) ==> x / 256 < power_of_256((n - 1) as nat));
    }
}

/// Numbers up to 247 are written as they are. For larger ones a byte above that tells how many follow,
/// the lowest first and no more than there have to be.
pub proof fn law_varint_form(x: u64)
    ensures
        x <= 247 ==> varint_bytes(x) == seq![x as u8],
        x > 247 ==> {
            let s = varint_bytes(x);
            let rest = s.subrange(1, s.len() as int);
            &&& 2 <= s.len() <= 9
            &&& s[0] == 247 + rest.len()
            &&& le_nat(rest) == x
            &&& rest.len() > 1 ==> x >= power_of_256((rest.len() - 1) as nat)
        },
{
    if x > 247 {
        let n = byte_len(x as nat);
        lemma_byte_len_u64(x);
        lemma_le_bytes_len(x as nat, n);
        lemma_byte_len_tight(x as nat);
        law_little_endian_reads_back(x as nat, n);
        let s = varint_bytes(x);
        assert(s.subrange(1, s.len() as int) =~= le_bytes(x as nat, n));
    }
}

proof fn lemma_byte_len_tight(x: nat)
    ensures
        x < power_of_256(byte_len(x)),
        byte_len(x) > 1 ==> x >= power_of_256((byte_len(x) - 1) as nat),
        byte_len(x) >= 1,
    decreases x,
{
    reveal_with_fuel(power_of_256, 2);
    if x >= 256 {
        lemma_byte_len_tight(x / 256);
        let n = byte_len(x / 256);
        assert(power_of_256(n + 1) == 256 * power_of_256(n));
        assert(x < 256 * power_of_256(n));
        if n > 1 {
            assert(power_of_256(n) == 256 * power_of_256((n - 1) as nat));
        }
    }
}

/// A number is read back wherever it stands, and what follows does not matter.
pub proof fn law_varint_reads_back(before: Seq<u8>, x: u64, rest: Seq<u8>)
    ensures
        varint_at(before + varint_bytes(x) + rest, before.len() as int) == Some(
            (x, varint_bytes(x).len()),
        ),
{
    let d = before + varint_bytes(x) + rest;
    assert(d.subrange(
        before.len() as int,
        before.len() as int + varint_bytes(x).len(),
    ) =~= varint_bytes(x));
    lemma_varint_round_trip(d, before.len() as int, x);
}

/// A line is its length and its bytes, and is read back wherever it stands.
pub proof fn law_line_reads_back(before: Seq<u8>, line: Seq<u8>, rest: Seq<u8>)
    requires
        0 < line.len() <= u64::MAX,
    ensures
        line_bytes(line) == varint_bytes(line.len() as u64) + line,
        line_at(before + line_bytes(line) + rest, before.len()) == Some(line),
{
    let d = before + line_bytes(line) + rest;
    assert(d.subrange(
        before.len() as int,
        before.len() as int + line_bytes(line).len(),
    ) =~= line_bytes(line));
    lemma_line_round_trip(d, line, before.len());
}

/// The bytes of a number that may be there.
pub open spec fn maybe(x: Option<u64>) -> Seq<u8> {
    match x {
        Some(x) => varint_bytes(x),
        None => Seq::empty(),
    }
}

/// A line node: a head, its value, how far back its child is, and how far back its bytes are.
pub proof fn law_line_node_form(id: nat, path: nat, value: Option<u64>, child: Option<nat>)
    requires
        path <= id <= u64::MAX,
        child matches Some(c) ==> c <= id,
    ensures
        node_bytes(NodeView::Line { path, value, child }, id) == seq![
            (128 + (if value is Some {
                64int
            } else {
                0
            }) + (if child is Some {
                1int
            } else {
                0
            })) as u8,
        ] + maybe(value) + maybe(
            match child {
                Some(c) => Some((id - c) as u64),
                None => None,
            },
        ) + varint_bytes((id - path) as u64),
{
    assert(0x80u8 | 0x40u8 | 1u8 == 193u8) by (bit_vector);
    assert(0x80u8 | 0x40u8 | 0u8 == 192u8) by (bit_vector);
    assert(0x80u8 | 0u8 | 1u8 == 129u8) by (bit_vector);
    assert(0x80u8 | 0u8 | 0u8 == 128u8) by (bit_vector);
}

/// A branch with fewer than 32 children: a head with their number, its value, how far back the first
/// of them is, and the bytes that lead to them in order.
pub proof fn law_branch_node_form(id: nat, mask: Set<u8>, first: Option<nat>, value: Option<u64>)
    requires
        id <= u64::MAX,
        first matches Some(c) ==> c <= id,
        members(mask).len() < 32,
    ensures
        node_bytes(NodeView::Branch { mask, first, value }, id) == seq![
            (members(mask).len() + (if value is Some {
                64int
            } else {
                0
            })) as u8,
        ] + maybe(value) + maybe(
            match first {
                Some(c) => Some((id - c) as u64),
                None => None,
            },
        ) + members(mask),
{
    crate::utils::bits::lemma_members(mask);
    let c = members(mask).len() as u8;
    assert(c < 32 ==> (c | 0x40u8) == c + 64) by (bit_vector);
    assert((c | 0u8) == c) by (bit_vector);
}

/// With 32 children or more the number is 32, and a bit for each byte follows in place of the bytes.
pub proof fn law_wide_node_form(id: nat, mask: Set<u8>, first: nat, value: Option<u64>)
    requires
        first <= id <= u64::MAX,
        members(mask).len() >= 32,
    ensures
        ({
            let s = node_bytes(NodeView::Branch { mask, first: Some(first), value }, id);
            let words = crate::utils::byte_mask::mask_of(mask).0;
            &&& s[0] == if value is Some {
                96u8
            } else {
                32u8
            }
            &&& s == seq![s[0]] + maybe(value) + varint_bytes((id - first) as u64) + (le_bytes(
                words@[0] as nat,
                8,
            ) + le_bytes(words@[1] as nat, 8) + le_bytes(words@[2] as nat, 8) + le_bytes(
                words@[3] as nat,
                8,
            ))
        }),
{
    crate::utils::bits::lemma_members(mask);
    assert(32u8 | 0x40u8 == 96u8) by (bit_vector);
    assert(32u8 | 0u8 == 32u8) by (bit_vector);
    let s = node_bytes(NodeView::Branch { mask, first: Some(first), value }, id);
    let words = crate::utils::byte_mask::mask_of(mask).0;
    assert(s =~= seq![s[0]] + maybe(value) + varint_bytes((id - first) as u64) + (le_bytes(
        words@[0] as nat,
        8,
    ) + le_bytes(words@[1] as nat, 8) + le_bytes(words@[2] as nat, 8) + le_bytes(
        words@[3] as nat,
        8,
    )));
}

/// A node is read back where it was written, whatever follows.
pub proof fn law_node_reads_back(d: Seq<u8>, n: NodeView, rest: Seq<u8>)
    requires
        d.len() <= u64::MAX,
        n.fits_at(d.len()),
    ensures
        node_at(push_node(d, n) + rest, d.len()) == Some((n, node_bytes(n, d.len()).len())),
{
    let e = push_node(d, n) + rest;
    assert(e.subrange(d.len() as int, d.len() as int + node_bytes(n, d.len()).len()) =~= node_bytes(
        n,
        d.len(),
    ));
    lemma_node_round_trip(e, n, d.len());
}

/// A line that was added is found again and not written a second time, also where lines with other
/// hashes were added since.
pub proof fn law_line_is_written_once(a: Arena, line: Seq<u8>, other: Seq<u8>)
    requires
        a.wf(),
        line.len() > 0,
        other.len() > 0,
        line_hash(other) != line_hash(line),
        a.add_line(line).0.add_line(other).0.bytes.len() <= u64::MAX,
    ensures
        ({
            let (b, place) = a.add_line(line);
            let c = b.add_line(other).0;
            &&& line_at(b.bytes, place) == Some(line)
            &&& b.add_line(line) == (b, place)
            &&& c.add_line(line) == (c, place)
            &&& a.bytes.len() <= b.bytes.len() <= a.bytes.len() + line_bytes(line).len()
        }),
{
    let (b, place) = a.add_line(line);
    let c = b.add_line(other).0;
    lemma_add_line(a, line);
    lemma_add_line(b, other);
    lemma_line_agree(b.bytes, c.bytes, place);
}

/// A file begins with the eight letters `ACTree03` and the place of its root, and is read back as the
/// trie that it was made of.
pub proof fn law_file_form(t: Trie<u64>)
    requires
        layout(t).len() <= u64::MAX,
    ensures
        layout(t).subrange(0, 8) == seq![65u8, 67, 84, 114, 101, 101, 48, 51],
        root_of(layout(t)) == le_nat(layout(t).subrange(8, 16)),
        16 <= root_of(layout(t)) < layout(t).len(),
        layout(t).subrange(layout(t).len() - 8, layout(t).len() as int) == Seq::new(
            8,
            |i: int| 0u8,
        ),
        file_trie(layout(t)) == t,
{
    lemma_layout(t);
    assert(magic() =~= seq![65u8, 67, 84, 114, 101, 101, 48, 51]);
    let d = layout(t);
    assert(d.subrange(d.len() - 8, d.len() as int) =~= Seq::new(8, |i: int| 0u8));
    assert(crate::arena_compact::meaning::id_wf(d, root_of(d)));
}

/// Different tries have different files.
pub proof fn law_files_differ(t: Trie<u64>, u: Trie<u64>)
    requires
        layout(t).len() <= u64::MAX,
        layout(t) == layout(u),
    ensures
        t == u,
{
    lemma_layout(t);
    lemma_layout(u);
}

/// The history of a file begins with its root. A trailer adds the root that it names, and those of the
/// trailer before it that it leads to; zeros at the end of a file add none.
pub proof fn law_history_is_read_backwards(d: Seq<u8>, off: int)
    ensures
        roots_of(d).len() > 0,
        roots_of(d)[0] == root_of(d),
        roots_of(d).subrange(1, roots_of(d).len() as int) == roots_from(d, d.len() - 16),
        off < 16 ==> roots_from(d, off) == Seq::<nat>::empty(),
        16 <= off && off + 16 <= d.len() && u64_at(d, off + 8) == 0 ==> roots_from(d, off)
            == Seq::<nat>::empty(),
        16 <= off && off + 16 <= d.len() && u64_at(d, off + 8) != 0 && u64_at(d, off) == 0
            ==> roots_from(d, off) == seq![u64_at(d, off + 8)],
        16 <= off && off + 16 <= d.len() && u64_at(d, off + 8) != 0 && 0 < u64_at(d, off) < off
            ==> roots_from(d, off) == seq![u64_at(d, off + 8)] + roots_from(
            d,
            u64_at(d, off) as int,
        ),
        u64_at(d, off) == le_nat(d.subrange(off, off + 8)),
{
    let s = roots_of(d);
    assert(s.subrange(1, s.len() as int) =~= roots_from(d, d.len() - 16));
    if 16 <= off && off + 16 <= d.len() && u64_at(d, off + 8) != 0 && u64_at(d, off) == 0 {
        assert(roots_from(d, off) =~= seq![u64_at(d, off + 8)]);
    }
}

/// A history can be read where each trailer leads back, and need not be read beyond one that leads
/// nowhere.
pub proof fn law_history_leads_back(d: Seq<u8>, off: int)
    ensures
        history_wf(d) <==> trailers_wf(d, d.len() - 16),
        off < 16 || d.len() < off + 16 ==> trailers_wf(d, off),
        u64_at(d, off + 8) == 0 || u64_at(d, off) == 0 ==> trailers_wf(d, off),
        16 <= off && off + 16 <= d.len() && u64_at(d, off + 8) != 0 && u64_at(d, off) >= off
            ==> !trailers_wf(d, off) || u64_at(d, off) == 0,
        16 <= off && off + 16 <= d.len() && u64_at(d, off + 8) != 0 && 0 < u64_at(d, off) < off ==> (
        trailers_wf(d, off) <==> trailers_wf(d, u64_at(d, off) as int)),
{
}

/// The hash of a line is put together byte by byte.
pub proof fn law_line_hash(s: Seq<u8>, b: u8)
    ensures
        line_hash(Seq::empty()) == 0xcbf29ce484222325,
        line_hash(s.push(b)) == (((line_hash(s) ^ (b as u64)) * 0x100000001b3)
            % 0x1_0000_0000_0000_0000) as u64,
{
    assert(s.push(b).drop_last() =~= s);
}

/// A place is written as a branch with its value and the bytes that lead on from it, unless a single
/// byte leads on and there is no value.
pub proof fn law_place_is_a_branch(a: Arena, t: Trie<u64>)
    requires
        !t.is_link(),
    ensures
        build(a, t, Seq::empty()).1 matches NodeView::Branch { mask, first, value } && mask
            == t.kids.dom() && value == t.val && (first is Some <==> t.kids.dom() != Set::<
            u8,
        >::empty()),
{
}

/// Bytes that lead on without a choice or a value are written as one line, which ends in the value
/// where nothing leads on behind them, and otherwise in a branch.
pub proof fn law_run_is_one_line(a: Arena, line: Seq<u8>, t: Trie<u64>)
    requires
        a.wf(),
        line.len() > 0,
        !t.is_link(),
        build(a, chain(line, t), Seq::empty()).0.bytes.len() <= u64::MAX,
    ensures
        ({
            let (b, n) = build(a, chain(line, t), Seq::empty());
            n matches NodeView::Line { path, value, child } && {
                &&& line_at(b.bytes, path) == Some(line)
                &&& t.kids.dom() == Set::<u8>::empty() ==> value == t.val && child is None
                &&& t.kids.dom() != Set::<u8>::empty() ==> value is None && (child matches Some(c)
                    && node_at(b.bytes, c) matches Some((NodeView::Branch { mask, value, .. }, _))
                    && mask == t.kids.dom() && value == t.val)
            }
        }),
{
    let none = Seq::<u8>::empty();
    lemma_build_chain(a, line, t, none);
    assert(none + line =~= line);
    let (a1, ns) = build_kids(a, t, 256);
    let mask = t.kids.dom();
    lemma_make_node_grows(a1, mask, ns, line, t.val);
    lemma_build_kids(a, t, 256);
    lemma_make_node(a1, mask, ns, line, t);
    let a2 = a1.push_all(ns);
    let (a3, path) = a2.add_line(line);
    lemma_make_node(a1, mask, ns, none, t);
    lemma_add_line(a2, line);
    if mask != Set::<u8>::empty() {
        let branch = NodeView::Branch { mask, first: Some(a1.bytes.len()), value: t.val };
        let e = a3.push(branch).bytes;
        lemma_push_nodes_grows(a1.bytes, ns);
        assert(e.subrange(
            a3.bytes.len() as int,
            a3.bytes.len() as int + node_bytes(branch, a3.bytes.len()).len(),
        ) =~= node_bytes(branch, a3.bytes.len()));
        lemma_node_round_trip(e, branch, a3.bytes.len());
        lemma_line_agree(a3.bytes, e, path);
    }
}

/// In the file of a stream the root is a branch in any case.
pub proof fn law_stream_root_is_a_branch(t: Trie<u64>)
    requires
        stream_layout(t).len() <= u64::MAX,
    ensures
        node_at(stream_layout(t), root_of(stream_layout(t))) matches Some(
            (NodeView::Branch { mask, value, .. }, _),
        ) && mask == t.kids.dom() && value == t.val,
        file_trie(stream_layout(t)) == t,
{
    let none = Seq::<u8>::empty();
    let (a, ns) = build_kids(Arena::start(), t, 256);
    let (a1, n) = make_node(a, t.kids.dom(), ns, none, t.val);
    let all = push_node(a1.bytes, n);
    let d = stream_layout(t);
    assert(Arena::start().wf());
    lemma_build_kids_grows(Arena::start(), t, 256);
    lemma_make_node_grows(a, t.kids.dom(), ns, none, t.val);
    lemma_with_root_len(all, a1.bytes.len());
    lemma_build_kids(Arena::start(), t, 256);
    lemma_make_node(a, t.kids.dom(), ns, none, t);
    lemma_push_node(a1.bytes, n, t);
    lemma_with_root(all, a1.bytes.len(), zeros(8));
    lemma_node_agree(all, d, a1.bytes.len());
}

} // verus!

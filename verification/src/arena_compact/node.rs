//! The nodes of the arena and their bytes.

use vstd::prelude::*;

use crate::arena_compact::counters::Counters;
use crate::arena_compact::varint::{
    le_bytes, le_nat, lemma_le_round_u64, lemma_varint_agree, lemma_varint_round_trip, push_le,
    push_varint_u64, read_le, read_varint_from, stands_at, varint_at, varint_bytes,
};
use crate::slices::part;
use crate::utils::bits::{lemma_members, lemma_rank_is_len, members, rank};
use crate::utils::byte_mask::{lemma_mask_of, lemma_mask_of_any, mask_of, word_set, BitMask, ByteMask};

verus! {

/// The head byte of a line has this bit.
pub const LINE_FLAG: u8 = 0x80;

/// The head byte of a node with a value has this bit.
pub const VALUE_FLAG: u8 = 0x40;

/// A branch with this many children or more stores a mask of them.
pub const MASK_CHILDREN: usize = 32;

/// The place of a node in the arena.
#[derive(Clone, Copy, PartialEq, Eq, Structural, PartialOrd, Ord, Hash, Debug)]
pub struct NodeId(pub u64);

/// The place of line data in the arena.
#[derive(Clone, Copy, PartialEq, Eq, Structural, PartialOrd, Ord, Hash, Debug)]
pub struct LineId(pub u64);

/// A run of bytes that ends in a value, in a child, or in nothing.
#[derive(Clone, Copy, Debug)]
pub struct NodeLine {
    pub path: LineId,
    pub value: Option<u64>,
    pub child: Option<NodeId>,
}

/// A place with any number of children, which stand one behind the other from the first on.
#[derive(Clone, Copy, Debug)]
pub struct NodeBranch {
    pub bytemask: ByteMask,
    pub first_child: Option<NodeId>,
    pub value: Option<u64>,
}

#[derive(Clone, Copy, Debug)]
pub enum Node {
    Line(NodeLine),
    Branch(NodeBranch),
}

/// What a node says: for a line, where its bytes are and how it ends; for a branch, which bytes
/// lead on, where the first of its children is, and its value.
pub enum NodeView {
    Line { path: nat, value: Option<u64>, child: Option<nat> },
    Branch { mask: Set<u8>, first: Option<nat>, value: Option<u64> },
}

pub open spec fn id_view(id: Option<NodeId>) -> Option<nat> {
    match id {
        Some(id) => Some(id.0 as nat),
        None => None,
    }
}

impl View for NodeLine {
    type V = NodeView;

    open spec fn view(&self) -> NodeView {
        NodeView::Line { path: self.path.0 as nat, value: self.value, child: id_view(self.child) }
    }
}

impl View for NodeBranch {
    type V = NodeView;

    open spec fn view(&self) -> NodeView {
        NodeView::Branch {
            mask: self.bytemask@,
            first: id_view(self.first_child),
            value: self.value,
        }
    }
}

impl View for Node {
    type V = NodeView;

    open spec fn view(&self) -> NodeView {
        match self {
            Node::Line(line) => line@,
            Node::Branch(branch) => branch@,
        }
    }
}

impl NodeLine {
    pub fn empty() -> (r: Self)
        ensures
            r == (NodeLine { path: LineId(u64::MAX), value: None, child: None }),
    {
        NodeLine { path: LineId(u64::MAX), value: None, child: None }
    }
}

impl NodeBranch {
    pub fn empty() -> (r: Self)
        ensures
            r@ == (NodeView::Branch { mask: Set::empty(), first: None, value: None }),
    {
        NodeBranch { bytemask: ByteMask::new(), first_child: None, value: None }
    }
}

impl NodeView {
    /// How many children the node has.
    pub open spec fn child_count(self) -> nat {
        match self {
            NodeView::Line { child, .. } => if child is Some {
                1
            } else {
                0
            },
            NodeView::Branch { mask, .. } => rank(mask, 256),
        }
    }

    /// The node can be written at `id`: it refers back, and a branch says where its children are
    /// exactly when it has some.
    pub open spec fn fits_at(self, id: nat) -> bool {
        match self {
            NodeView::Line { path, child, .. } => {
                &&& path <= id
                &&& child matches Some(c) ==> c <= id
            },
            NodeView::Branch { mask, first, .. } => {
                &&& first is Some <==> mask != Set::<u8>::empty()
                &&& first matches Some(c) ==> c <= id
            },
        }
    }
}

impl Node {
    /// The number of children.
    pub fn child_count(&self) -> (n: usize)
        ensures
            n == self@.child_count(),
    {
        match self {
            Node::Line(line) => if line.child.is_some() {
                1
            } else {
                0
            },
            Node::Branch(node) => node.bytemask.count_bits(),
        }
    }
}

/// The integer at `pos` where one is said to be, and the place behind it.
pub open spec fn opt_varint_at(d: Seq<u8>, pos: int, present: bool) -> Option<(Option<u64>, int)> {
    if !present {
        Some((None, pos))
    } else {
        match varint_at(d, pos) {
            Some((v, n)) => Some((Some(v), pos + n)),
            None => None,
        }
    }
}

pub open spec fn opt_varint_bytes(v: Option<u64>) -> Seq<u8> {
    match v {
        Some(v) => varint_bytes(v),
        None => Seq::empty(),
    }
}

/// How far back from `id` the place lies.
pub open spec fn offset_to(id: nat, place: Option<nat>) -> Option<u64> {
    match place {
        Some(p) => Some((id - p) as u64),
        None => None,
    }
}

/// The place that lies `off` back from `id`.
pub open spec fn place_at(id: nat, off: Option<u64>) -> Option<nat> {
    match off {
        Some(o) => Some((id - o) as nat),
        None => None,
    }
}

/// The offset leads to a place in the arena.
pub open spec fn offset_ok(id: nat, off: Option<u64>) -> bool {
    off matches Some(o) ==> o <= id
}

/// The set that 32 bytes describe: four words in little-endian order.
pub open spec fn mask_at(s: Seq<u8>) -> Set<u8> {
    word_set(
        [
            le_nat(s.subrange(0, 8)) as u64,
            le_nat(s.subrange(8, 16)) as u64,
            le_nat(s.subrange(16, 24)) as u64,
            le_nat(s.subrange(24, 32)) as u64,
        ],
    )
}

/// The four words of a set of bytes in little-endian order.
pub open spec fn mask_bytes(mask: Set<u8>) -> Seq<u8> {
    let m = mask_of(mask).0;
    le_bytes(m@[0] as nat, 8) + le_bytes(m@[1] as nat, 8) + le_bytes(m@[2] as nat, 8) + le_bytes(
        m@[3] as nat,
        8,
    )
}

/// The bytes by which a branch tells its children.
pub open spec fn child_bytes(mask: Set<u8>) -> Seq<u8> {
    if rank(mask, 256) >= MASK_CHILDREN {
        mask_bytes(mask)
    } else {
        members(mask)
    }
}

/// The number in the head byte of a branch.
pub open spec fn head_count(mask: Set<u8>) -> u8 {
    if rank(mask, 256) >= MASK_CHILDREN {
        32
    } else {
        rank(mask, 256) as u8
    }
}

/// The bytes of a node that stands at `id`.
pub open spec fn node_bytes(n: NodeView, id: nat) -> Seq<u8> {
    match n {
        NodeView::Line { path, value, child } => {
            seq![
                LINE_FLAG | (if value is Some {
                    VALUE_FLAG
                } else {
                    0
                }) | (if child is Some {
                    1
                } else {
                    0
                }),
            ] + opt_varint_bytes(value) + opt_varint_bytes(offset_to(id, child)) + varint_bytes(
                (id - path) as u64,
            )
        },
        NodeView::Branch { mask, first, value } => {
            seq![
                head_count(mask) | (if value is Some {
                    VALUE_FLAG
                } else {
                    0
                }),
            ] + opt_varint_bytes(value) + opt_varint_bytes(offset_to(id, first)) + child_bytes(mask)
        },
    }
}

/// The node at `id` and its length, where its bytes are all there and make sense.
pub open spec fn node_at(d: Seq<u8>, id: nat) -> Option<(NodeView, nat)> {
    if id >= d.len() {
        None
    } else {
        let head = d[id as int];
        match opt_varint_at(d, id as int + 1, head & VALUE_FLAG != 0) {
            None => None,
            Some((value, p1)) => if head & LINE_FLAG == 0 {
                branch_at(d, id, value, p1, head & 0x3f)
            } else {
                line_node_at(d, id, value, p1, head & 1 != 0)
            },
        }
    }
}

pub open spec fn branch_at(d: Seq<u8>, id: nat, value: Option<u64>, p1: int, count: u8) -> Option<
    (NodeView, nat),
> {
    match opt_varint_at(d, p1, count > 0) {
        None => None,
        Some((off, p2)) => if count > 32 || p2 + count > d.len() || !offset_ok(id, off) {
            None
        } else {
            let bytes = d.subrange(p2, p2 + count);
            let mask = if count == 32 {
                mask_at(bytes)
            } else {
                bytes.to_set()
            };
            Some(
                (
                    NodeView::Branch { mask, first: place_at(id, off), value },
                    (p2 + count - id) as nat,
                ),
            )
        },
    }
}

pub open spec fn line_node_at(
    d: Seq<u8>,
    id: nat,
    value: Option<u64>,
    p1: int,
    has_child: bool,
) -> Option<(NodeView, nat)> {
    match opt_varint_at(d, p1, has_child) {
        None => None,
        Some((off, p2)) => match varint_at(d, p2) {
            None => None,
            Some((back, n)) => if back > id || !offset_ok(id, off) {
                None
            } else {
                Some(
                    (
                        NodeView::Line {
                            path: (id - back) as nat,
                            value,
                            child: place_at(id, off),
                        },
                        (p2 + n - id) as nat,
                    ),
                )
            },
        },
    }
}

/// The bytes of the line at `id`, where they are all there. No line is empty.
pub open spec fn line_at(d: Seq<u8>, id: nat) -> Option<Seq<u8>> {
    match varint_at(d, id as int) {
        Some((len, n)) => if len > 0 && id + n + len <= d.len() {
            Some(d.subrange(id as int + n, id as int + n + len))
        } else {
            None
        },
        None => None,
    }
}

/// The bytes that store a line.
pub open spec fn line_bytes(line: Seq<u8>) -> Seq<u8> {
    varint_bytes(line.len() as u64) + line
}

proof fn lemma_opt_varint_round_trip(d: Seq<u8>, pos: int, v: Option<u64>)
    requires
        stands_at(d, pos, opt_varint_bytes(v)),
    ensures
        opt_varint_at(d, pos, v is Some) == Some((v, pos + opt_varint_bytes(v).len())),
{
    if let Some(x) = v {
        lemma_varint_round_trip(d, pos, x);
    }
}

/// Where a text stands, its parts stand one behind the other.
pub proof fn lemma_stands_split(d: Seq<u8>, pos: int, a: Seq<u8>, b: Seq<u8>)
    requires
        stands_at(d, pos, a + b),
    ensures
        stands_at(d, pos, a),
        stands_at(d, pos + a.len(), b),
{
    let s = d.subrange(pos, pos + (a + b).len());
    assert(d.subrange(pos, pos + a.len()) =~= s.subrange(0, a.len() as int));
    assert(s.subrange(0, a.len() as int) =~= a);
    assert(d.subrange(pos + a.len(), pos + a.len() + b.len()) =~= s.subrange(
        a.len() as int,
        (a + b).len() as int,
    ));
    assert(s.subrange(a.len() as int, (a + b).len() as int) =~= b);
}

proof fn lemma_branch_head(c: u8, v: u8)
    requires
        c <= 32,
        v == 0 || v == VALUE_FLAG,
    ensures
        (c | v) & VALUE_FLAG != 0 <==> v == VALUE_FLAG,
        (c | v) & LINE_FLAG == 0,
        (c | v) & 0x3f == c,
{
    assert(c <= 32 && (v == 0 || v == 0x40) ==> ((c | v) & 0x40 != 0 <==> v == 0x40) && (c | v)
        & 0x80 == 0 && (c | v) & 0x3f == c) by (bit_vector);
}

proof fn lemma_line_head(v: u8, c: u8)
    requires
        v == 0 || v == VALUE_FLAG,
        c <= 1,
    ensures
        (LINE_FLAG | v | c) & LINE_FLAG != 0,
        (LINE_FLAG | v | c) & VALUE_FLAG != 0 <==> v == VALUE_FLAG,
        (LINE_FLAG | v | c) & 1 != 0 <==> c == 1,
{
    assert((v == 0 || v == 0x40) && c <= 1 ==> (0x80 | v | c) & 0x80 != 0 && ((0x80 | v | c) & 0x40
        != 0 <==> v == 0x40) && ((0x80 | v | c) & 1 != 0 <==> c == 1)) by (bit_vector);
}

proof fn lemma_mask_round_trip(s: Seq<u8>, mask: Set<u8>)
    requires
        s == mask_bytes(mask),
    ensures
        s.len() == 32,
        mask_at(s) == mask,
{
    let m = mask_of(mask).0;
    lemma_mask_of_any(mask);
    lemma_le_round_u64(m@[0]);
    lemma_le_round_u64(m@[1]);
    lemma_le_round_u64(m@[2]);
    lemma_le_round_u64(m@[3]);
    assert(s.subrange(0, 8) =~= le_bytes(m@[0] as nat, 8));
    assert(s.subrange(8, 16) =~= le_bytes(m@[1] as nat, 8));
    assert(s.subrange(16, 24) =~= le_bytes(m@[2] as nat, 8));
    assert(s.subrange(24, 32) =~= le_bytes(m@[3] as nat, 8));
    let w: [u64; 4] = [
        le_nat(s.subrange(0, 8)) as u64,
        le_nat(s.subrange(8, 16)) as u64,
        le_nat(s.subrange(16, 24)) as u64,
        le_nat(s.subrange(24, 32)) as u64,
    ];
    assert(w@ =~= m@);
    assert(w == m);
}

proof fn lemma_members_to_set(mask: Set<u8>)
    ensures
        members(mask).to_set() == mask,
{
    lemma_members(mask);
    assert forall|b: u8| members(mask).to_set().contains(b) == mask.contains(b) by {
        if mask.contains(b) {
            assert(members(mask)[rank(mask, b as nat) as int] == b);
        }
    }
    assert(members(mask).to_set() =~= mask);
}

/// The bytes by which the children are told are as many as the head byte says.
pub proof fn lemma_child_bytes_len(mask: Set<u8>)
    ensures
        child_bytes(mask).len() == head_count(mask),
        head_count(mask) <= 32,
        head_count(mask) == 0 <==> mask == Set::<u8>::empty(),
{
    lemma_members(mask);
    lemma_rank_is_len(mask);
    if rank(mask, 256) >= MASK_CHILDREN {
        lemma_mask_round_trip(mask_bytes(mask), mask);
    }
    if mask == Set::<u8>::empty() {
        assert(rank(mask, 256) == 0);
    }
}

proof fn lemma_line_node_round_trip(
    d: Seq<u8>,
    path: nat,
    value: Option<u64>,
    child: Option<nat>,
    id: nat,
)
    requires
        path <= id <= u64::MAX,
        child matches Some(c) ==> c <= id,
        stands_at(d, id as int, node_bytes(NodeView::Line { path, value, child }, id)),
    ensures
        ({
            let n = NodeView::Line { path, value, child };
            node_at(d, id) == Some((n, node_bytes(n, id).len())) && node_bytes(n, id).len() > 0
        }),
{
    let v: u8 = if value is Some {
        VALUE_FLAG
    } else {
        0
    };
    let c: u8 = if child is Some {
        1
    } else {
        0
    };
    lemma_line_head(v, c);
    let h = seq![LINE_FLAG | v | c];
    let b1 = opt_varint_bytes(value);
    let b2 = opt_varint_bytes(offset_to(id, child));
    let b3 = varint_bytes((id - path) as u64);
    lemma_stands_split(d, id as int, h + b1 + b2, b3);
    lemma_stands_split(d, id as int, h + b1, b2);
    lemma_stands_split(d, id as int, h, b1);
    assert(d[id as int] == d.subrange(id as int, id as int + 1)[0]);
    lemma_opt_varint_round_trip(d, id as int + 1, value);
    lemma_opt_varint_round_trip(d, id as int + 1 + b1.len(), offset_to(id, child));
    lemma_varint_round_trip(d, id as int + 1 + b1.len() + b2.len(), (id - path) as u64);
}

proof fn lemma_branch_round_trip(
    d: Seq<u8>,
    mask: Set<u8>,
    first: Option<nat>,
    value: Option<u64>,
    id: nat,
)
    requires
        id <= u64::MAX,
        first is Some <==> mask != Set::<u8>::empty(),
        first matches Some(c) ==> c <= id,
        stands_at(d, id as int, node_bytes(NodeView::Branch { mask, first, value }, id)),
    ensures
        ({
            let n = NodeView::Branch { mask, first, value };
            node_at(d, id) == Some((n, node_bytes(n, id).len())) && node_bytes(n, id).len() > 0
        }),
{
    let v: u8 = if value is Some {
        VALUE_FLAG
    } else {
        0
    };
    let k = head_count(mask);
    lemma_child_bytes_len(mask);
    lemma_branch_head(k, v);
    let h = seq![k | v];
    let b1 = opt_varint_bytes(value);
    let b2 = opt_varint_bytes(offset_to(id, first));
    let b3 = child_bytes(mask);
    lemma_stands_split(d, id as int, h + b1 + b2, b3);
    lemma_stands_split(d, id as int, h + b1, b2);
    lemma_stands_split(d, id as int, h, b1);
    assert(d[id as int] == d.subrange(id as int, id as int + 1)[0]);
    lemma_opt_varint_round_trip(d, id as int + 1, value);
    lemma_opt_varint_round_trip(d, id as int + 1 + b1.len(), offset_to(id, first));
    lemma_members_to_set(mask);
    if k == 32 {
        lemma_mask_round_trip(b3, mask);
    }
}

/// Reading a node gives back what was written, wherever it stands.
pub proof fn lemma_node_round_trip(d: Seq<u8>, n: NodeView, id: nat)
    requires
        n.fits_at(id),
        id <= u64::MAX,
        stands_at(d, id as int, node_bytes(n, id)),
    ensures
        node_at(d, id) == Some((n, node_bytes(n, id).len())),
        node_bytes(n, id).len() > 0,
{
    match n {
        NodeView::Line { path, value, child } => lemma_line_node_round_trip(
            d,
            path,
            value,
            child,
            id,
        ),
        NodeView::Branch { mask, first, value } => lemma_branch_round_trip(
            d,
            mask,
            first,
            value,
            id,
        ),
    }
}

/// What is read at a place rests on the bytes from there on alone.
pub proof fn lemma_node_agree(d: Seq<u8>, e: Seq<u8>, id: nat)
    requires
        node_at(d, id) is Some,
        d.len() <= e.len(),
        forall|i: int| id <= i < d.len() ==> d[i] == e[i],
    ensures
        node_at(e, id) == node_at(d, id),
        node_at(d, id)->Some_0.1 > 0,
        id + node_at(d, id)->Some_0.1 <= d.len(),
{
    let head = d[id as int];
    let (value, p1) = opt_varint_at(d, id as int + 1, head & VALUE_FLAG != 0)->0;
    if head & VALUE_FLAG != 0 {
        lemma_varint_agree(d, e, id as int + 1);
    }
    if head & LINE_FLAG == 0 {
        let count = head & 0x3f;
        if count > 0 {
            lemma_varint_agree(d, e, p1);
        }
        let p2 = opt_varint_at(d, p1, count > 0)->Some_0.1;
        assert(d.subrange(p2, p2 + count) =~= e.subrange(p2, p2 + count));
    } else {
        if head & 1 != 0 {
            lemma_varint_agree(d, e, p1);
        }
        let p2 = opt_varint_at(d, p1, head & 1 != 0)->Some_0.1;
        lemma_varint_agree(d, e, p2);
    }
}

/// A line reads the same where more text follows.
pub proof fn lemma_line_agree(d: Seq<u8>, e: Seq<u8>, id: nat)
    requires
        line_at(d, id) is Some,
        d.len() <= e.len(),
        forall|i: int| id <= i < d.len() ==> d[i] == e[i],
    ensures
        line_at(e, id) == line_at(d, id),
{
    lemma_varint_agree(d, e, id as int);
    let (len, n) = varint_at(d, id as int)->0;
    assert(d.subrange(id as int + n, id as int + n + len) =~= e.subrange(
        id as int + n,
        id as int + n + len,
    ));
}

/// Reading a line gives back what was written, wherever it stands.
pub proof fn lemma_line_round_trip(d: Seq<u8>, line: Seq<u8>, id: nat)
    requires
        0 < line.len() <= u64::MAX,
        stands_at(d, id as int, line_bytes(line)),
    ensures
        line_at(d, id) == Some(line),
{
    lemma_stands_split(d, id as int, varint_bytes(line.len() as u64), line);
    lemma_varint_round_trip(d, id as int, line.len() as u64);
}

/// Appends the bytes of a line node that stands at `node_id`.
pub(crate) fn write_line(
    dst: &mut Vec<u8>,
    line: &NodeLine,
    node_id: NodeId,
    counters: &mut Counters,
)
    requires
        line@.fits_at(node_id.0 as nat),
    ensures
        final(dst)@ == old(dst)@ + node_bytes(line@, node_id.0 as nat),
        *final(counters) == *old(counters),
{
    let value_flag = if line.value.is_some() {
        VALUE_FLAG
    } else {
        0
    };
    let child_flag = if line.child.is_some() {
        1u8
    } else {
        0
    };
    let head = LINE_FLAG | value_flag | child_flag;
    dst.push(head);
    if let Some(value) = line.value {
        let size = push_varint_u64(dst, value);
        counters.add_value(size);
    }
    if let Some(child) = line.child {
        let size = push_varint_u64(dst, node_id.0 - child.0);
        counters.add_offset(size);
    }
    let size = push_varint_u64(dst, node_id.0 - line.path.0);
    counters.add_offset(size);
    assert(dst@ =~= old(dst)@ + node_bytes(line@, node_id.0 as nat));
}

/// Appends the bytes of a branch node that stands at `node_id`.
pub(crate) fn write_node(
    dst: &mut Vec<u8>,
    node: &NodeBranch,
    node_id: NodeId,
    counters: &mut Counters,
)
    requires
        node@.fits_at(node_id.0 as nat),
    ensures
        final(dst)@ == old(dst)@ + node_bytes(node@, node_id.0 as nat),
        *final(counters) == *old(counters),
{
    let nchildren = node.bytemask.count_bits();
    let value_flag = if node.value.is_some() {
        VALUE_FLAG
    } else {
        0
    };
    let count = if nchildren >= MASK_CHILDREN {
        32u8
    } else {
        nchildren as u8
    };
    dst.push(count | value_flag);
    if let Some(value) = node.value {
        let size = push_varint_u64(dst, value);
        counters.add_value(size);
    }
    if let Some(first_child) = node.first_child {
        let size = push_varint_u64(dst, node_id.0 - first_child.0);
        counters.add_offset(size);
    }
    proof {
        lemma_mask_of(node.bytemask);
    }
    if nchildren >= MASK_CHILDREN {
        counters.add_children(nchildren, 32);
        push_le(dst, node.bytemask.0[0], 8);
        push_le(dst, node.bytemask.0[1], 8);
        push_le(dst, node.bytemask.0[2], 8);
        push_le(dst, node.bytemask.0[3], 8);
    } else {
        counters.add_children(nchildren, nchildren);
        let mut bytes = node.bytemask.to_vec();
        dst.append(&mut bytes);
    }
    assert(dst@ =~= old(dst)@ + node_bytes(node@, node_id.0 as nat));
}

fn read_opt_varint(data: &[u8], pos: usize, present: bool) -> (r: (Option<u64>, usize))
    requires
        pos <= data@.len(),
        opt_varint_at(data@, pos as int, present) is Some,
    ensures
        opt_varint_at(data@, pos as int, present) == Some((r.0, r.1 as int)),
        pos <= r.1 <= data.len(),
{
    if present {
        let (value, off) = read_varint_from(data, pos);
        (Some(value), pos + off)
    } else {
        (None, pos)
    }
}

/// Read the line at `line_id`.
pub(crate) fn read_line(data: &[u8], line_id: LineId) -> (r: &[u8])
    requires
        line_at(data@, line_id.0 as nat) is Some,
    ensures
        line_at(data@, line_id.0 as nat) == Some(r@),
        r@.len() > 0,
{
    assert(line_id.0 < data.len());
    let start = line_id.0 as usize;
    let (len, off) = read_varint_from(data, start);
    part(data, start + off, start + off + len as usize)
}

/// Read the node at `node_id`, and its length.
#[verifier::rlimit(40)]
pub(crate) fn read_node(data: &[u8], node_id: NodeId) -> (r: (Node, usize))
    requires
        node_at(data@, node_id.0 as nat) is Some,
    ensures
        node_at(data@, node_id.0 as nat) == Some((r.0@, r.1 as nat)),
{
    let start = node_id.0 as usize;
    let head = data[start];
    let (value, p1) = read_opt_varint(data, start + 1, head & VALUE_FLAG != 0);
    if head & LINE_FLAG == 0 {
        let nchildren = (head & 0x3f) as usize;
        let (offset, p2) = read_opt_varint(data, p1, nchildren > 0);
        let first_child = match offset {
            Some(off) => Some(NodeId(node_id.0 - off)),
            None => None,
        };
        let ghost bytes = data@.subrange(p2 as int, p2 + nchildren);
        let bytemask = if nchildren == MASK_CHILDREN {
            proof {
                assert(bytes.subrange(0, 8) =~= data@.subrange(p2 as int, p2 + 8));
                assert(bytes.subrange(8, 16) =~= data@.subrange(p2 + 8, p2 + 16));
                assert(bytes.subrange(16, 24) =~= data@.subrange(p2 + 16, p2 + 24));
                assert(bytes.subrange(24, 32) =~= data@.subrange(p2 + 24, p2 + 32));
            }
            ByteMask(
                [
                    read_le(data, p2, 8),
                    read_le(data, p2 + 8, 8),
                    read_le(data, p2 + 16, 8),
                    read_le(data, p2 + 24, 8),
                ],
            )
        } else {
            ByteMask::from_iter(part(data, p2, p2 + nchildren))
        };
        (Node::Branch(NodeBranch { bytemask, first_child, value }), p2 + nchildren - start)
    } else {
        let (offset, p2) = read_opt_varint(data, p1, head & 1 != 0);
        let child = match offset {
            Some(off) => Some(NodeId(node_id.0 - off)),
            None => None,
        };
        let (back, off) = read_varint_from(data, p2);
        (
            Node::Line(NodeLine { path: LineId(node_id.0 - back), value, child }),
            p2 + off - start,
        )
    }
}

} // verus!

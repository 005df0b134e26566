//! An arena that is written out piece by piece.

use vstd::prelude::*;
use std::collections::HashMap;
use vstd::std_specs::hash::group_hash_axioms;

use crate::arena_compact::counters::Counters;
use crate::arena_compact::layout::{
    behind_line, denotes, is_prefix, lemma_add_line, lemma_prefix_trans, lemma_push_node,
    lemma_push_nodes_part, magic, zeros, Arena,
};
use crate::arena_compact::line_hash::hash_line;
use crate::arena_compact::meaning::{
    extends, id_trie, id_wf, lemma_extends_trans, node_trie, node_wf, ARENA_START,
};
use crate::arena_compact::node::{
    id_view, lemma_line_agree, line_at, line_bytes, node_bytes, write_line, write_node, LineId,
    Node, NodeId, NodeLine, NodeView,
};
use crate::arena_compact::varint::{lemma_varint_len, push_varint_u64};
use crate::arena_compact::writer::{node_views, push_magic, push_zeros, same_bytes};
use crate::slices::{part, push_slice};
use crate::trie::{chain, Trie};
use crate::utils::byte_mask::BitMask;

verus! {

/// Why a path cannot be added to a stream.
#[derive(Clone, Copy, PartialEq, Eq, Structural, Debug)]
pub enum StreamError {
    /// The path does not come after the one before it.
    OutOfOrder,
    /// The file would have more bytes than can be addressed.
    TooLarge,
}

/// An arena whose bytes are handed out while it is written. Only the bytes that were not handed
/// out yet are held, and the lines, so that they can be re-used.
pub(crate) struct StreamWriter {
    /// The bytes that were handed out.
    gone: Ghost<Seq<u8>>,
    /// The bytes that were not.
    out: Vec<u8>,
    /// How many bytes there are in all.
    position: u64,
    /// The bytes of all lines, one behind the other.
    line_buf: Vec<u8>,
    /// For the hash of a line where its bytes start in the buffer, how many they are, and where
    /// the line is in the arena.
    line_map: HashMap<u64, (usize, usize, LineId)>,
    counters: Counters,
}

/// The remembered line is there, and has the bytes that are in the buffer.
spec fn entry_ok(bytes: Seq<u8>, buf: Seq<u8>, e: (usize, usize, LineId)) -> bool {
    &&& 0 < e.1
    &&& e.0 + e.1 <= buf.len()
    &&& ARENA_START <= e.2.0 < bytes.len()
    &&& line_at(bytes, e.2.0 as nat) == Some(buf.subrange(e.0 as int, e.0 + e.1))
}

impl StreamWriter {
    pub(crate) closed spec fn arena(&self) -> Arena {
        Arena {
            bytes: self.gone@ + self.out@,
            lines: self.line_map@.map_values(|e: (usize, usize, LineId)| e.2.0 as nat),
        }
    }

    /// The bytes that were handed out.
    pub(crate) closed spec fn handed_out(&self) -> Seq<u8> {
        self.gone@
    }

    pub(crate) closed spec fn counted(&self) -> Counters {
        self.counters
    }

    pub(crate) closed spec fn wf(&self) -> bool {
        &&& ARENA_START <= self.arena().bytes.len()
        &&& self.position == self.arena().bytes.len()
        &&& forall|h: u64| #[trigger]
            self.line_map@.contains_key(h) ==> entry_ok(
                self.arena().bytes,
                self.line_buf@,
                self.line_map@[h],
            )
    }

    /// The remembered lines are there.
    pub(crate) proof fn lemma_wf(&self)
        requires
            self.wf(),
        ensures
            self.arena().wf(),
            self.arena().bytes.len() <= u64::MAX,
            self.handed_out().len() <= self.arena().bytes.len(),
            self.handed_out() =~= self.arena().bytes.subrange(0, self.handed_out().len() as int),
    {
        assert forall|h: u64| #[trigger] self.arena().lines.contains_key(h) implies ARENA_START
            <= self.arena().lines[h] < self.arena().bytes.len() && line_at(
            self.arena().bytes,
            self.arena().lines[h],
        ) is Some by {
            assert(self.line_map@.contains_key(h));
        }
    }

    pub(crate) fn new() -> (r: Self)
        ensures
            r.wf(),
            r.arena() == Arena::start(),
            r.handed_out() == Seq::<u8>::empty(),
            r.counted() == Counters::zero(),
    {
        broadcast use group_hash_axioms;

        let mut out: Vec<u8> = Vec::new();
        push_magic(&mut out);
        push_zeros(&mut out, 8);
        let r = StreamWriter {
            gone: Ghost(Seq::empty()),
            out,
            position: 16,
            line_buf: Vec::new(),
            line_map: HashMap::new(),
            counters: Counters::default(),
        };
        proof {
            assert(r.arena().lines =~= Map::<u64, nat>::empty());
            assert(r.arena().bytes =~= magic() + zeros(8));
        }
        r
    }

    /// Hands out the bytes that were not handed out yet.
    pub(crate) fn take_output(&mut self) -> (r: Vec<u8>)
        requires
            old(self).wf(),
        ensures
            final(self).wf(),
            final(self).arena() == old(self).arena(),
            final(self).handed_out() == old(self).handed_out() + r@,
            final(self).handed_out() == final(self).arena().bytes,
            final(self).counted() == old(self).counted(),
    {
        let mut r: Vec<u8> = Vec::new();
        r.append(&mut self.out);
        self.gone = Ghost(self.gone@ + r@);
        proof {
            assert(r@ =~= old(self).out@);
            assert(self.arena().bytes =~= old(self).arena().bytes);
            assert(self.handed_out() =~= self.arena().bytes);
        }
        r
    }

    /// Appends bytes that are those of a node or a line.
    fn append(&mut self, bytes: Vec<u8>) -> (r: Result<u64, StreamError>)
        requires
            old(self).wf(),
        ensures
            match r {
                Ok(id) => {
                    &&& id == old(self).arena().bytes.len()
                    &&& final(self).arena().bytes == old(self).arena().bytes + bytes@
                    &&& final(self).arena().lines == old(self).arena().lines
                    &&& final(self).wf()
                    &&& final(self).line_map@ == old(self).line_map@
                    &&& final(self).line_buf@ == old(self).line_buf@
                    &&& final(self).handed_out() == old(self).handed_out()
                    &&& final(self).counted() == old(self).counted()
                },
                Err(e) => {
                    &&& e == StreamError::TooLarge
                    &&& old(self).arena().bytes.len() + bytes@.len() > u64::MAX
                    &&& *final(self) == *old(self)
                },
            },
    {
        let len = bytes.len() as u64;
        if u64::MAX - self.position < len {
            return Err(StreamError::TooLarge);
        }
        let id = self.position;
        let ghost before = self.arena();
        push_slice(&mut self.out, bytes.as_slice());
        self.position = self.position + len;
        proof {
            let e = self.arena().bytes;
            assert(e =~= before.bytes + bytes@);
            assert forall|h: u64| #[trigger] self.line_map@.contains_key(h) implies entry_ok(
                e,
                self.line_buf@,
                self.line_map@[h],
            ) by {
                lemma_line_agree(before.bytes, e, self.line_map@[h].2.0 as nat);
            }
        }
        Ok(id)
    }

    /// Writes a node at the end of the arena.
    pub(crate) fn push(&mut self, node: &Node) -> (r: Result<NodeId, StreamError>)
        requires
            old(self).wf(),
            node@.fits_at(old(self).arena().bytes.len()),
        ensures
            match r {
                Ok(id) => {
                    &&& id.0 == old(self).arena().bytes.len()
                    &&& final(self).arena() == old(self).arena().push(node@)
                    &&& final(self).wf()
                    &&& final(self).handed_out() == old(self).handed_out()
                    &&& final(self).counted() == old(self).counted()
                },
                Err(e) => {
                    &&& e == StreamError::TooLarge
                    &&& old(self).arena().push(node@).bytes.len() > u64::MAX
                    &&& *final(self) == *old(self)
                },
            },
    {
        let node_id = NodeId(self.position);
        let mut bytes: Vec<u8> = Vec::new();
        match node {
            Node::Line(line) => {
                write_line(&mut bytes, line, node_id, &mut self.counters);
                self.counters.add_line(bytes.len());
            },
            Node::Branch(branch) => {
                write_node(&mut bytes, branch, node_id, &mut self.counters);
                self.counters.add_node(bytes.len());
            },
        }
        proof {
            assert(bytes@ =~= node_bytes(node@, node_id.0 as nat));
        }
        match self.append(bytes) {
            Ok(_) => Ok(node_id),
            Err(e) => Err(e),
        }
    }

    /// The place of a line, which is written unless it is there already.
    pub(crate) fn add_path(&mut self, path: &[u8]) -> (r: Result<LineId, StreamError>)
        requires
            old(self).wf(),
            path@.len() > 0,
        ensures
            match r {
                Ok(id) => {
                    &&& (final(self).arena(), id.0 as nat) == old(self).arena().add_line(path@)
                    &&& final(self).wf()
                    &&& final(self).handed_out() == old(self).handed_out()
                    &&& final(self).counted() == old(self).counted()
                },
                Err(e) => {
                    &&& e == StreamError::TooLarge
                    &&& old(self).arena().add_line(path@).0.bytes.len() > u64::MAX
                    &&& *final(self) == *old(self)
                },
            },
    {
        broadcast use group_hash_axioms;

        let hash = hash_line(path);
        let known = match self.line_map.get(&hash) {
            Some(entry) => Some(*entry),
            None => None,
        };
        if let Some((start, len, prev)) = known {
            assert(self.line_map@.contains_key(hash));
            assert(entry_ok(self.arena().bytes, self.line_buf@, self.line_map@[hash]));
            assert(self.line_buf.len() == self.line_buf@.len());
            if same_bytes(part(self.line_buf.as_slice(), start, start + len), path) {
                self.counters.add_line_data_reuse(path.len());
                return Ok(prev);
            }
        }
        let mut bytes: Vec<u8> = Vec::new();
        push_varint_u64(&mut bytes, path.len() as u64);
        push_slice(&mut bytes, path);
        let size = bytes.len();
        proof {
            assert(bytes@ =~= line_bytes(path@));
            lemma_varint_len(path@.len() as u64);
        }
        let line_id = match self.append(bytes) {
            Ok(id) => LineId(id),
            Err(e) => {
                return Err(e);
            },
        };
        let ghost mid = *self;
        let line_start = self.line_buf.len();
        push_slice(&mut self.line_buf, path);
        self.counters.add_line_data(size);
        self.line_map.insert(hash, (line_start, path.len(), line_id));
        proof {
            let a = old(self).arena();
            let (b, id) = a.add_line(path@);
            let e = self.arena().bytes;
            let m = mid.arena().bytes;
            assert(m.subrange(line_id.0 as int, m.len() as int) =~= line_bytes(path@));
            self.lemma_added(&mid, hash, path@, line_id);
            assert(self.arena().lines =~= b.lines);
            assert(e =~= b.bytes);
        }
        Ok(line_id)
    }

    /// A line that was just written is remembered.
    proof fn lemma_added(&self, before: &Self, hash: u64, path: Seq<u8>, id: LineId)
        requires
            before.wf(),
            self.gone == before.gone,
            self.out == before.out,
            self.position == before.position,
            path.len() > 0,
            self.line_buf@ == before.line_buf@ + path,
            before.line_buf@.len() <= usize::MAX,
            path.len() <= usize::MAX,
            self.line_map@ == before.line_map@.insert(
                hash,
                (before.line_buf@.len() as usize, path.len() as usize, id),
            ),
            ARENA_START <= id.0,
            id.0 + line_bytes(path).len() == before.arena().bytes.len(),
            before.arena().bytes.subrange(id.0 as int, before.arena().bytes.len() as int)
                == line_bytes(path),
        ensures
            self.wf(),
    {
        let bytes = self.arena().bytes;
        assert(bytes =~= before.arena().bytes);
        lemma_varint_len(path.len() as u64);
        crate::arena_compact::node::lemma_line_round_trip(bytes, path, id.0 as nat);
        assert forall|h: u64| #[trigger] self.line_map@.contains_key(h) implies entry_ok(
            bytes,
            self.line_buf@,
            self.line_map@[h],
        ) by {
            let e = self.line_map@[h];
            if h == hash {
                assert(self.line_buf@.subrange(e.0 as int, e.0 + e.1) =~= path);
            } else {
                assert(before.line_map@.contains_key(h));
                assert(self.line_buf@.subrange(e.0 as int, e.0 + e.1) =~= before.line_buf@.subrange(
                    e.0 as int,
                    e.0 + e.1,
                ));
            }
        }
    }
}

/// A line that ends where a branch without children would stand.
proof fn lemma_line_ends(
    d: Seq<u8>,
    path: nat,
    line: Seq<u8>,
    first: Option<nat>,
    value: Option<u64>,
    t: Trie<u64>,
)
    requires
        ARENA_START <= path <= d.len(),
        line_at(d, path) == Some(line),
        denotes(d, (NodeView::Branch { mask: Set::empty(), first, value }), t),
    ensures
        denotes(d, (NodeView::Line { path, value, child: None }), chain(line, t)),
{
    reveal(node_wf);
    reveal(node_trie);
    assert(t.kids =~= Map::empty());
    assert(t == Trie::leaf(value));
}

/// A line that leads on to a node.
proof fn lemma_line_goes_on(d: Seq<u8>, path: nat, line: Seq<u8>, c: nat, t: Trie<u64>)
    requires
        ARENA_START <= path <= d.len(),
        line_at(d, path) == Some(line),
        c < d.len(),
        id_wf(d, c),
        id_trie(d, c) == t,
    ensures
        denotes(d, (NodeView::Line { path, value: None, child: Some(c) }), chain(line, t)),
{
    reveal(node_wf);
    reveal(node_trie);
}

/// The arena has grown by what the stream wrote.
pub(crate) open spec fn stream_grown(a: &StreamWriter, b: &StreamWriter) -> bool {
    &&& b.wf()
    &&& extends(a.arena().bytes, b.arena().bytes)
    &&& is_prefix(a.arena().bytes, b.arena().bytes)
    &&& b.handed_out() == a.handed_out()
    &&& b.counted() == a.counted()
}

pub(crate) proof fn lemma_stream_grown_trans(a: &StreamWriter, b: &StreamWriter, c: &StreamWriter)
    requires
        stream_grown(a, b),
        stream_grown(b, c),
    ensures
        stream_grown(a, c),
{
    lemma_extends_trans(a.arena().bytes, b.arena().bytes, c.arena().bytes);
    lemma_prefix_trans(a.arena().bytes, b.arena().bytes, c.arena().bytes);
}

impl StreamWriter {
    /// Writes nodes one behind the other, and returns the place of the first.
    pub(crate) fn push_children(&mut self, children: &Vec<Node>) -> (r: Result<
        Option<NodeId>,
        StreamError,
    >)
        requires
            old(self).wf(),
            forall|i: int|
                0 <= i < children@.len() ==> node_wf(
                    old(self).arena().bytes,
                    (#[trigger] children@[i])@,
                    old(self).arena().bytes.len(),
                ),
        ensures
            match r {
                Ok(first) => {
                    &&& final(self).arena() == old(self).arena().push_all(node_views(children@))
                    &&& first == if children@.len() > 0 {
                        Some(NodeId(old(self).arena().bytes.len() as u64))
                    } else {
                        None
                    }
                    &&& stream_grown(old(self), final(self))
                },
                Err(e) => {
                    &&& e == StreamError::TooLarge
                    &&& old(self).arena().push_all(node_views(children@)).bytes.len() > u64::MAX
                },
            },
    {
        let ghost a = self.arena();
        let ghost views = node_views(children@);
        let mut first_child: Option<NodeId> = None;
        let mut i: usize = 0;
        proof {
            self.lemma_wf();
            assert(views.subrange(0, 0) =~= Seq::<NodeView>::empty());
        }
        while i < children.len()
            invariant
                i <= children@.len(),
                views == node_views(children@),
                a == old(self).arena(),
                a.bytes.len() <= u64::MAX,
                self.wf(),
                self.arena() == a.push_all(views.subrange(0, i as int)),
                is_prefix(a.bytes, self.arena().bytes),
                self.handed_out() == old(self).handed_out(),
                self.counted() == old(self).counted(),
                first_child == if i > 0 {
                    Some(NodeId(a.bytes.len() as u64))
                } else {
                    None
                },
                forall|j: int|
                    0 <= j < children@.len() ==> node_wf(
                        a.bytes,
                        (#[trigger] children@[j])@,
                        a.bytes.len(),
                    ),
            decreases children@.len() - i,
        {
            proof {
                reveal(node_wf);
                assert(node_wf(a.bytes, children@[i as int]@, a.bytes.len()));
                assert(views.subrange(0, i + 1).drop_last() =~= views.subrange(0, i as int));
                assert(views.subrange(0, i + 1).last() == children@[i as int]@);
            }
            let id = match self.push(&children[i]) {
                Ok(id) => id,
                Err(e) => {
                    proof {
                        lemma_push_nodes_part(a.bytes, views, i + 1);
                    }
                    return Err(e);
                },
            };
            if first_child.is_none() {
                first_child = Some(id);
            }
            i = i + 1;
        }
        proof {
            assert(views.subrange(0, children@.len() as int) =~= views);
        }
        Ok(first_child)
    }

    /// The node that leads through the bytes of `segment` to `node`. A branch without children
    /// becomes the end of the line; every other node is written behind it.
    pub(crate) fn behind_segment(
        &mut self,
        segment: &[u8],
        node: &Node,
        Ghost(t): Ghost<Trie<u64>>,
    ) -> (r: Result<Node, StreamError>)
        requires
            old(self).wf(),
            segment@.len() > 0,
            denotes(old(self).arena().bytes, node@, t),
        ensures
            match r {
                Ok(n) => {
                    &&& stream_grown(old(self), final(self))
                    &&& denotes(final(self).arena().bytes, n@, chain(segment@, t))
                    &&& (final(self).arena(), n@) == behind_line(
                        old(self).arena(),
                        node@,
                        segment@,
                    )
                },
                Err(e) => {
                    &&& e == StreamError::TooLarge
                    &&& behind_line(old(self).arena(), node@, segment@).0.bytes.len() > u64::MAX
                },
            },
    {
        let ghost a = self.arena();
        proof {
            self.lemma_wf();
        }
        let path = match self.add_path(segment) {
            Ok(id) => id,
            Err(e) => {
                return Err(e);
            },
        };
        let ghost b = self.arena();
        proof {
            self.lemma_wf();
            lemma_add_line(a, segment@);
            crate::arena_compact::layout::lemma_denotes_stable(a.bytes, b.bytes, node@, t);
            lemma_push_node(b.bytes, node@, t);
        }
        if let Node::Branch(branch) = node {
            if branch.bytemask.is_empty_mask() {
                proof {
                    lemma_line_ends(
                        b.bytes,
                        path.0 as nat,
                        segment@,
                        id_view(branch.first_child),
                        branch.value,
                        t,
                    );
                }
                return Ok(Node::Line(NodeLine { path, value: branch.value, child: None }));
            }
        }
        let child = match self.push(node) {
            Ok(id) => id,
            Err(e) => {
                return Err(e);
            },
        };
        proof {
            let e = self.arena().bytes;
            lemma_extends_trans(a.bytes, b.bytes, e);
            lemma_line_agree(b.bytes, e, path.0 as nat);
            lemma_line_goes_on(e, path.0 as nat, segment@, child.0 as nat, t);
        }
        Ok(Node::Line(NodeLine { path, value: None, child: Some(child) }))
    }
}

} // verus!

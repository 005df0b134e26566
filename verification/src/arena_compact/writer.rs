//! Writing a trie into an arena.

use vstd::prelude::*;
use std::collections::HashMap;
use vstd::std_specs::hash::group_hash_axioms;

use crate::arena_compact::counters::Counters;
use crate::arena_compact::growth::{lemma_node_room, NODE_ROOM};
use crate::arena_compact::kept::{leads_through, lemma_line_leads};
use crate::arena_compact::layout::{
    denotes, is_prefix, lemma_add_line, lemma_arena_grows, lemma_push_node, lemma_push_nodes_grows,
    magic, make_node, push_node, with_root, zeros, Arena,
};
use crate::arena_compact::line_hash::{hash_line, line_hash};
use crate::arena_compact::meaning::{extends, node_trie, node_wf, sibling, ARENA_START};
use crate::arena_compact::node::{
    lemma_line_agree, lemma_line_round_trip, lemma_node_agree, line_at, line_bytes, node_at,
    read_line, read_node, write_line, write_node, LineId, Node, NodeBranch, NodeId, NodeLine,
    NodeView,
};
use crate::arena_compact::tree::{ACTVec, ArenaCompactTree, Storage};
use crate::arena_compact::varint::{lemma_le_bytes_len, push_le, push_varint_u64};
use crate::slices::push_slice;
use crate::trie::{chain, Trie};
use crate::utils::bits::{lemma_rank_is_len, rank};
use crate::utils::byte_mask::{BitMask, ByteMask};

verus! {

/// What the nodes of a list say.
pub open spec fn node_views(ns: Seq<Node>) -> Seq<NodeView> {
    ns.map_values(|n: Node| n@)
}

/// Whether two slices hold the same bytes.
pub(crate) fn same_bytes(a: &[u8], b: &[u8]) -> (r: bool)
    ensures
        r == (a@ == b@),
{
    if a.len() != b.len() {
        return false;
    }
    let mut i: usize = 0;
    while i < a.len()
        invariant
            i <= a.len(),
            a.len() == b.len(),
            forall|j: int| 0 <= j < i ==> a@[j] == b@[j],
        decreases a.len() - i,
    {
        if a[i] != b[i] {
            return false;
        }
        i = i + 1;
    }
    assert(a@ =~= b@);
    true
}

/// An arena that is being written.
pub(crate) struct ArenaWriter {
    storage: Vec<u8>,
    /// Used for re-use of lines: where a line with a given hash is. In case of collisions, only
    /// the last line is found.
    line_map: HashMap<u64, LineId>,
    counters: Counters,
}

impl ArenaWriter {
    /// The arena that is being written.
    pub(crate) closed spec fn arena(&self) -> Arena {
        Arena {
            bytes: self.storage@,
            lines: self.line_map@.map_values(|id: LineId| id.0 as nat),
        }
    }

    pub(crate) closed spec fn counted(&self) -> Counters {
        self.counters
    }

    /// An arena that already holds the bytes of a file.
    pub(crate) fn resume(storage: Vec<u8>) -> (r: Self)
        requires
            storage@.len() >= ARENA_START,
        ensures
            r.arena() == (Arena { bytes: storage@, lines: Map::empty() }),
            r.arena().wf(),
            r.counted() == Counters::zero(),
    {
        broadcast use group_hash_axioms;

        let r = ArenaWriter { storage, line_map: HashMap::new(), counters: Counters::default() };
        assert(r.arena().lines =~= Map::<u64, nat>::empty());
        r
    }

    /// What is in memory can be addressed.
    pub(crate) proof fn lemma_len(&self)
        ensures
            self.arena().bytes.len() <= usize::MAX,
            self.arena().bytes.len() <= u64::MAX,
    {
        assert(self.storage.len() == self.storage@.len());
    }

    /// An arena with nothing in it: space for the header, and no root yet.
    pub(crate) fn new() -> (r: Self)
        ensures
            r.arena() == Arena::start(),
            r.counted() == Counters::zero(),
    {
        broadcast use group_hash_axioms;

        let mut storage: Vec<u8> = Vec::new();
        push_magic(&mut storage);
        push_zeros(&mut storage, 8);
        let r = ArenaWriter {
            storage,
            line_map: HashMap::new(),
            counters: Counters::default(),
        };
        proof {
            assert(r.arena().lines =~= Map::<u64, nat>::empty());
            assert(r.arena().bytes =~= magic() + zeros(8));
        }
        r
    }

    /// Writes a node at the end of the arena.
    pub(crate) fn push(&mut self, node: &Node) -> (id: NodeId)
        requires
            node@.fits_at(old(self).arena().bytes.len()),
        ensures
            final(self).arena() == old(self).arena().push(node@),
            id.0 == old(self).arena().bytes.len(),
            final(self).counted() == old(self).counted(),
    {
        let start = self.storage.len();
        let node_id = NodeId(start as u64);
        match node {
            Node::Line(line) => {
                write_line(&mut self.storage, line, node_id, &mut self.counters);
                self.counters.add_line(self.storage.len() - start);
            },
            Node::Branch(branch) => {
                write_node(&mut self.storage, branch, node_id, &mut self.counters);
                self.counters.add_node(self.storage.len() - start);
            },
        }
        node_id
    }

    /// Find existing [LineId] that contains provided line `data`.
    ///
    /// Where two lines have the same hash, only the one that was written last is found.
    fn find_line_reuse(&self, data: &[u8]) -> (r: Option<LineId>)
        requires
            self.arena().wf(),
        ensures
            match r {
                Some(id) => {
                    &&& self.arena().lines.contains_key(line_hash(data@))
                    &&& id.0 == self.arena().lines[line_hash(data@)]
                    &&& line_at(self.arena().bytes, id.0 as nat) == Some(data@)
                },
                None => !(self.arena().lines.contains_key(line_hash(data@)) && line_at(
                    self.arena().bytes,
                    self.arena().lines[line_hash(data@)],
                ) == Some(data@)),
            },
    {
        broadcast use group_hash_axioms;

        let hash = hash_line(data);
        match self.line_map.get(&hash) {
            Some(line_id) => {
                let id = *line_id;
                assert(self.arena().lines.contains_key(hash));
                if same_bytes(read_line(&self.storage, id), data) {
                    Some(id)
                } else {
                    None
                }
            },
            None => None,
        }
    }

    /// The place of a line, which is written unless it is there already.
    pub(crate) fn add_path(&mut self, line: &[u8]) -> (id: LineId)
        requires
            old(self).arena().wf(),
            line@.len() > 0,
        ensures
            final(self).arena() == old(self).arena().add_line(line@).0,
            id.0 == old(self).arena().add_line(line@).1,
            final(self).arena().wf(),
            extends(old(self).arena().bytes, final(self).arena().bytes),
            final(self).counted() == old(self).counted(),
            final(self).arena().bytes.len() <= u64::MAX,
    {
        broadcast use group_hash_axioms;

        let line_id = LineId(self.storage.len() as u64);
        if let Some(prev) = self.find_line_reuse(line) {
            self.counters.add_line_data_reuse(line.len());
            return prev;
        }
        self.line_map.insert(hash_line(line), line_id);
        let start = self.storage.len();
        push_varint_u64(&mut self.storage, line.len() as u64);
        push_slice(&mut self.storage, line);
        self.counters.add_line_data(self.storage.len() - start);
        proof {
            let next = old(self).arena().add_line(line@).0;
            assert(self.arena().bytes =~= next.bytes);
            assert(self.arena().lines =~= next.lines);
            assert(self.storage.len() == self.arena().bytes.len());
            lemma_add_line(old(self).arena(), line@);
        }
        line_id
    }

    /// The node at `id`.
    pub(crate) fn node(&self, id: NodeId) -> (r: Node)
        requires
            node_at(self.arena().bytes, id.0 as nat) is Some,
        ensures
            node_at(self.arena().bytes, id.0 as nat) matches Some((n, _)) && n == r@,
    {
        read_node(self.storage.as_slice(), id).0
    }

    /// The places of the nodes that stand one behind the other from `first` on, `count` of them.
    pub(crate) fn siblings(&self, first: NodeId, count: usize) -> (r: Vec<NodeId>)
        requires
            forall|k: nat|
                k < count ==> node_at(
                    self.arena().bytes,
                    #[trigger] sibling(self.arena().bytes, first.0 as nat, k),
                ) is Some,
        ensures
            r@.len() == count,
            forall|k: int|
                0 <= k < count ==> (#[trigger] r@[k]).0 == sibling(
                    self.arena().bytes,
                    first.0 as nat,
                    k as nat,
                ),
    {
        let ghost d = self.arena().bytes;
        let mut r: Vec<NodeId> = Vec::new();
        let mut cur = first;
        let mut k: usize = 0;
        while k < count
            invariant
                k <= count,
                d == self.arena().bytes,
                d == self.storage@,
                cur.0 == sibling(d, first.0 as nat, k as nat),
                r@.len() == k,
                forall|j: nat|
                    j < count ==> node_at(d, #[trigger] sibling(d, first.0 as nat, j)) is Some,
                forall|j: int|
                    0 <= j < k ==> (#[trigger] r@[j]).0 == sibling(d, first.0 as nat, j as nat),
            decreases count - k,
        {
            proof {
                assert(node_at(d, sibling(d, first.0 as nat, k as nat)) is Some);
                lemma_node_agree(d, d, cur.0 as nat);
                assert(self.storage.len() == d.len());
            }
            r.push(cur);
            let (_, len) = read_node(self.storage.as_slice(), cur);
            cur = NodeId(cur.0 + len as u64);
            k = k + 1;
        }
        r
    }

    /// A copy of the line at `id`.
    pub(crate) fn line(&self, id: LineId) -> (r: Vec<u8>)
        requires
            line_at(self.arena().bytes, id.0 as nat) is Some,
        ensures
            line_at(self.arena().bytes, id.0 as nat) == Some(r@),
    {
        let mut r: Vec<u8> = Vec::new();
        push_slice(&mut r, read_line(self.storage.as_slice(), id));
        assert(r@ =~= line_at(self.arena().bytes, id.0 as nat)->Some_0);
        r
    }

    /// Writes nodes one behind the other, and returns the place of the first.
    pub(crate) fn push_children(&mut self, children: &Vec<Node>) -> (first_child: Option<NodeId>)
        requires
            old(self).arena().bytes.len() >= ARENA_START,
            forall|i: int|
                0 <= i < children@.len() ==> node_wf(
                    old(self).arena().bytes,
                    (#[trigger] children@[i])@,
                    old(self).arena().bytes.len(),
                ),
        ensures
            final(self).arena() == old(self).arena().push_all(node_views(children@)),
            first_child == if children@.len() > 0 {
                Some(NodeId(old(self).arena().bytes.len() as u64))
            } else {
                None
            },
            final(self).counted() == old(self).counted(),
            old(self).arena().bytes.len() <= u64::MAX,
            final(self).arena().bytes.len() <= u64::MAX,
    {
        let ghost a = self.arena();
        let ghost views = node_views(children@);
        let mut first_child: Option<NodeId> = None;
        let mut i: usize = 0;
        proof {
            self.lemma_len();
            assert(views.subrange(0, 0) =~= Seq::<NodeView>::empty());
        }
        while i < children.len()
            invariant
                i <= children@.len(),
                views == node_views(children@),
                a == old(self).arena(),
                self.arena() == a.push_all(views.subrange(0, i as int)),
                is_prefix(a.bytes, self.arena().bytes),
                first_child == if i > 0 {
                    Some(NodeId(a.bytes.len() as u64))
                } else {
                    None
                },
                self.counted() == old(self).counted(),
                self.arena().bytes.len() <= u64::MAX,
                forall|j: int|
                    0 <= j < children@.len() ==> node_wf(
                        a.bytes,
                        (#[trigger] children@[j])@,
                        a.bytes.len(),
                    ),
            decreases children@.len() - i,
        {
            proof {
                reveal(node_wf);
                assert(node_wf(a.bytes, children@[i as int]@, a.bytes.len()));
                assert(views.subrange(0, i + 1).drop_last() =~= views.subrange(0, i as int));
                assert(views.subrange(0, i + 1).last() == children@[i as int]@);
            }
            let id = self.push(&children[i]);
            if first_child.is_none() {
                first_child = Some(id);
            }
            i = i + 1;
            proof {
                self.lemma_len();
            }
        }
        proof {
            assert(views.subrange(0, children@.len() as int) =~= views);
        }
        first_child
    }

    /// Writes a line at the end of the arena, whether or not it is there already.
    pub(crate) fn append_line(&mut self, line: &[u8]) -> (id: LineId)
        requires
            old(self).arena().wf(),
            line@.len() > 0,
        ensures
            final(self).arena() == (Arena {
                bytes: old(self).arena().bytes + line_bytes(line@),
                lines: old(self).arena().lines,
            }),
            final(self).arena().wf(),
            extends(old(self).arena().bytes, final(self).arena().bytes),
            id.0 == old(self).arena().bytes.len(),
            line_at(final(self).arena().bytes, id.0 as nat) == Some(line@),
            final(self).counted() == old(self).counted(),
    {
        let ghost a = self.arena();
        let line_id = LineId(self.storage.len() as u64);
        push_varint_u64(&mut self.storage, line.len() as u64);
        push_slice(&mut self.storage, line);
        proof {
            let e = self.arena().bytes;
            assert(e =~= a.bytes + line_bytes(line@));
            lemma_arena_grows(a, e);
            assert(e.subrange(a.bytes.len() as int, e.len() as int) =~= line_bytes(line@));
            lemma_line_round_trip(e, line@, a.bytes.len());
        }
        line_id
    }

    /// The node that leads through a line to `node`. A branch without children may become the end
    /// of the line; every other node is written behind it.
    pub(crate) fn wrap_line(
        &mut self,
        path: LineId,
        node: &Node,
        may_end: bool,
        Ghost(t): Ghost<Trie<u64>>,
    ) -> (r: Node)
        requires
            old(self).arena().wf(),
            ARENA_START <= path.0 <= old(self).arena().bytes.len(),
            line_at(old(self).arena().bytes, path.0 as nat) is Some,
            denotes(old(self).arena().bytes, node@, t),
        ensures
            final(self).arena().wf(),
            final(self).arena().lines == old(self).arena().lines,
            extends(old(self).arena().bytes, final(self).arena().bytes),
            is_prefix(old(self).arena().bytes, final(self).arena().bytes),
            denotes(
                final(self).arena().bytes,
                r@,
                chain(line_at(old(self).arena().bytes, path.0 as nat)->Some_0, t),
            ),
            leads_through(
                final(self).arena().bytes,
                r@,
                line_at(old(self).arena().bytes, path.0 as nat)->Some_0,
                node@,
            ),
            final(self).arena().bytes.len() <= old(self).arena().bytes.len() + NODE_ROOM,
            final(self).counted() == old(self).counted(),
    {
        let ghost a = self.arena();
        let ghost line = line_at(a.bytes, path.0 as nat)->Some_0;
        proof {
            reveal(node_wf);
            reveal(node_trie);
            self.lemma_len();
            lemma_push_node(a.bytes, node@, t);
            lemma_node_room(node@, a.bytes.len());
        }
        if let Node::Branch(branch) = node {
            if may_end && branch.bytemask.is_empty_mask() {
                proof {
                    assert(t.kids =~= Map::empty());
                    assert(t == Trie::leaf(branch.value));
                }
                let r = Node::Line(NodeLine { path, value: branch.value, child: None });
                proof {
                    lemma_line_leads(a.bytes, r@, line, node@);
                }
                return r;
            }
        }
        let child = self.push(node);
        proof {
            let e = self.arena().bytes;
            lemma_arena_grows(a, e);
            lemma_line_agree(a.bytes, e, path.0 as nat);
        }
        let r = Node::Line(NodeLine { path, value: None, child: Some(child) });
        proof {
            lemma_line_leads(self.arena().bytes, r@, line, node@);
        }
        r
    }

    /// Build the node for a position, `prefix.len()` bytes above a position with `bytemask` /
    /// `children` / `value`.
    pub(crate) fn make_node(
        &mut self,
        bytemask: ByteMask,
        children: &Vec<Node>,
        prefix: &[u8],
        value: Option<u64>,
    ) -> (node: Node)
        requires
            old(self).arena().wf(),
            children@.len() == rank(bytemask@, 256),
            forall|i: int|
                0 <= i < children@.len() ==> node_wf(
                    old(self).arena().bytes,
                    (#[trigger] children@[i])@,
                    old(self).arena().bytes.len(),
                ),
        ensures
            (final(self).arena(), node@) == make_node(
                old(self).arena(),
                bytemask@,
                node_views(children@),
                prefix@,
                value,
            ),
            final(self).counted() == old(self).counted(),
            final(self).arena().bytes.len() <= u64::MAX,
    {
        let ghost a = self.arena();
        proof {
            lemma_rank_is_len(bytemask@);
        }
        let first_child = self.push_children(children);
        proof {
            lemma_push_nodes_grows(a.bytes, node_views(children@));
            lemma_arena_grows(a, self.arena().bytes);
            self.lemma_len();
        }
        let node = NodeBranch { bytemask, first_child, value };
        if prefix.len() == 0 {
            return Node::Branch(node);
        }
        let path = self.add_path(prefix);
        if children.len() > 0 {
            let child = self.push(&Node::Branch(node));
            assert(self.storage.len() == self.arena().bytes.len());
            Node::Line(NodeLine { path, value: None, child: Some(child) })
        } else {
            Node::Line(NodeLine { path, value, child: None })
        }
    }

    /// The trie of the bytes as they are.
    pub(crate) fn into_tree(self) -> (r: ACTVec)
        ensures
            r.bytes() == self.arena().bytes,
            r.counters_view() == self.counted(),
    {
        ArenaCompactTree::from_written(self.storage, self.counters)
    }

    /// Writes the root, and at the start of the file its place; then the zeros at the end.
    pub(crate) fn finish(self, root: &Node) -> (r: ACTVec)
        requires
            root@.fits_at(self.arena().bytes.len()),
            self.arena().bytes.len() >= ARENA_START,
            self.arena().bytes.subrange(0, 8) == magic(),
        ensures
            r.bytes() == with_root(push_node(self.arena().bytes, root@), self.arena().bytes.len())
                + zeros(8),
            r.bytes().len() <= u64::MAX,
            r.counters_view() == self.counted(),
    {
        let mut tail: Vec<u8> = Vec::new();
        push_zeros(&mut tail, 8);
        assert(tail@ =~= zeros(8));
        self.seal(root, tail)
    }

    /// Writes the root, and at the start of the file its place; then `tail` at the end.
    pub(crate) fn seal(self, root: &Node, tail: Vec<u8>) -> (r: ACTVec)
        requires
            root@.fits_at(self.arena().bytes.len()),
            self.arena().bytes.len() >= ARENA_START,
            self.arena().bytes.subrange(0, 8) == magic(),
        ensures
            r.bytes() == with_root(push_node(self.arena().bytes, root@), self.arena().bytes.len())
                + tail@,
            r.bytes().len() <= u64::MAX,
            r.counters_view() == self.counted(),
    {
        let mut w = self;
        let root_id = w.push(root);
        let ArenaWriter { mut storage, counters, .. } = w;
        let ghost d = push_node(self.arena().bytes, root@);
        let mut header: Vec<u8> = Vec::new();
        push_le(&mut header, root_id.0, 8);
        proof {
            lemma_le_bytes_len(root_id.0 as nat, 8);
        }
        let mut i: usize = 0;
        while i < 8
            invariant
                i <= 8,
                d.len() >= ARENA_START,
                header@.len() == 8,
                storage@.len() == d.len(),
                forall|j: int|
                    0 <= j < d.len() ==> #[trigger] storage@[j] == if 8 <= j < 8 + i {
                        header@[j - 8]
                    } else {
                        d[j]
                    },
            decreases 8 - i,
        {
            storage[8 + i] = header[i];
            i = i + 1;
        }
        proof {
            assert(d.subrange(0, 8) =~= magic());
            let e = with_root(d, root_id.0 as nat);
            assert forall|j: int| 0 <= j < e.len() implies storage@[j] == #[trigger] e[j] by {
                if j < 8 {
                    assert(d[j] == d.subrange(0, 8)[j]);
                }
            }
            assert(storage@ =~= e);
        }
        push_slice(&mut storage, tail.as_slice());
        assert(storage.len() == storage@.len());
        ArenaCompactTree::from_written(storage, counters)
    }
}

pub(crate) fn push_magic(dst: &mut Vec<u8>)
    ensures
        final(dst)@ == old(dst)@ + magic(),
{
    dst.push(0x41);
    dst.push(0x43);
    dst.push(0x54);
    dst.push(0x72);
    dst.push(0x65);
    dst.push(0x65);
    dst.push(0x30);
    dst.push(0x33);
    assert(dst@ =~= old(dst)@ + magic());
}

pub(crate) fn push_zeros(dst: &mut Vec<u8>, n: usize)
    ensures
        final(dst)@ == old(dst)@ + zeros(n as nat),
{
    let mut i: usize = 0;
    while i < n
        invariant
            i <= n,
            dst@ =~= old(dst)@ + zeros(i as nat),
        decreases n - i,
    {
        dst.push(0);
        i = i + 1;
    }
}

} // verus!

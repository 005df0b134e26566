//! A trie in compact format, and how its bytes are read.

use vstd::prelude::*;

use crate::arena_compact::counters::Counters;
use crate::arena_compact::file::{
    file_trie, file_wf, history_wf, root_of, roots_from, roots_of, trailers_wf,
};
use crate::arena_compact::layout::magic;
use crate::arena_compact::meaning::{
    child_place, id_wf, lemma_branch_get, lemma_id_node, lemma_line_get, node_trie, node_wf,
    sibling, ARENA_START,
};
use crate::arena_compact::node::{
    line_at, node_at, read_line, read_node, LineId, Node, NodeBranch, NodeId, NodeView,
};
use crate::arena_compact::varint::read_le;
use crate::slices::{part, starts_with};
use crate::trie::Trie;
use crate::utils::bits::{lemma_members, members, rank};
use crate::utils::byte_mask::BitMask;

verus! {

/// Something that holds the bytes of a file.
pub trait Storage {
    /// The bytes.
    spec fn bytes(&self) -> Seq<u8>;

    /// Gives the bytes.
    fn as_bytes(&self) -> (r: &[u8])
        ensures
            r@ == self.bytes(),
    ;
}

impl Storage for Vec<u8> {
    open spec fn bytes(&self) -> Seq<u8> {
        self@
    }

    fn as_bytes(&self) -> (r: &[u8]) {
        self.as_slice()
    }
}

/// Bytes that are held elsewhere, such as a file that is mapped into memory.
impl<'a> Storage for &'a [u8] {
    open spec fn bytes(&self) -> Seq<u8> {
        self@
    }

    fn as_bytes(&self) -> (r: &[u8]) {
        *self
    }
}

/// Represents a trie stored in compact format.
///
/// The bytes start with the magic and the place of the root. Behind them follow lines and nodes,
/// and each node refers only to what stands before it.
pub struct ArenaCompactTree<S> {
    /// Backing storage for the trie.
    storage: S,
    /// Counters to debug storage usage.
    counters: Counters,
}

/// A compact trie in memory.
pub type ACTVec = ArenaCompactTree<Vec<u8>>;

/// Why bytes cannot be opened as a trie.
#[derive(Clone, Copy, PartialEq, Eq, Structural, Debug)]
pub enum ActError {
    /// The bytes do not start with the magic.
    InvalidMagic,
}

/// The child to which a byte leads is one of those that stand one behind the other.
pub proof fn lemma_siblings_sound(d: Seq<u8>, mask: Set<u8>, first: Option<nat>, value: Option<u64>, lim: nat, k: nat)
    requires
        node_wf(d, NodeView::Branch { mask, first, value }, lim),
        k < rank(mask, 256),
    ensures
        first is Some,
        mask.contains(members(mask)[k as int]),
        rank(mask, members(mask)[k as int] as nat) == k,
        ARENA_START <= sibling(d, first->Some_0, k) < lim,
        id_wf(d, sibling(d, first->Some_0, k)),
{
    reveal(node_wf);
    lemma_members(mask);
    let b = members(mask)[k as int];
    assert(mask.contains(b));
    let c = child_place(d, mask, first, b);
    assert(ARENA_START <= c < lim && id_wf(d, c));
}

impl<S> ArenaCompactTree<S> {
    /// The counters of what was written.
    pub fn counters(&self) -> (r: &Counters)
        ensures
            *r == self.counters_view(),
    {
        &self.counters
    }

    pub closed spec fn counters_view(&self) -> Counters {
        self.counters
    }
}

impl ArenaCompactTree<Vec<u8>> {
    /// A trie of bytes that were just written.
    pub(crate) fn from_written(storage: Vec<u8>, counters: Counters) -> (r: Self)
        ensures
            r.bytes() == storage@,
            r.counters_view() == counters,
    {
        ArenaCompactTree { storage, counters }
    }

    /// The bytes of the file.
    pub fn into_data(self) -> (r: Vec<u8>)
        ensures
            r@ == self.bytes(),
    {
        self.storage
    }
}

impl<S: Storage> ArenaCompactTree<S> {
    /// The bytes of the file.
    pub closed spec fn bytes(&self) -> Seq<u8> {
        self.storage.bytes()
    }

    /// The bytes are those of a sound file.
    pub open spec fn wf(&self) -> bool {
        file_wf(self.bytes())
    }

    /// The trie that the file stands for.
    pub open spec fn view(&self) -> Trie<u64> {
        file_trie(self.bytes())
    }

    /// Takes bytes that start with the magic as a trie.
    pub fn open(storage: S) -> (r: Result<Self, ActError>)
        ensures
            match r {
                Ok(tree) => {
                    &&& storage.bytes().len() >= 8
                    &&& storage.bytes().subrange(0, 8) == magic()
                    &&& tree.bytes() == storage.bytes()
                    &&& tree.counters_view() == Counters::zero()
                },
                Err(e) => {
                    &&& e == ActError::InvalidMagic
                    &&& !(storage.bytes().len() >= 8 && storage.bytes().subrange(0, 8) == magic())
                },
            },
    {
        let data = storage.as_bytes();
        if data.len() < 8 {
            return Err(ActError::InvalidMagic);
        }
        let same = data[0] == 0x41 && data[1] == 0x43 && data[2] == 0x54 && data[3] == 0x72
            && data[4] == 0x65 && data[5] == 0x65 && data[6] == 0x30 && data[7] == 0x33;
        proof {
            let head = storage.bytes().subrange(0, 8);
            if same {
                assert(head =~= magic());
            } else {
                assert(head == magic() ==> head[0] == 0x41 && head[1] == 0x43 && head[2] == 0x54
                    && head[3] == 0x72 && head[4] == 0x65 && head[5] == 0x65 && head[6] == 0x30
                    && head[7] == 0x33);
            }
        }
        if !same {
            return Err(ActError::InvalidMagic);
        }
        Ok(ArenaCompactTree { storage, counters: Counters::default() })
    }

    /// Get the reference to the serialized bytes.
    pub fn get_data(&self) -> (r: &[u8])
        ensures
            r@ == self.bytes(),
    {
        self.storage.as_bytes()
    }

    /// Read node provided [NodeId].
    ///
    /// Returns a tuple of the read [Node] and the place behind it.
    pub(crate) fn get_node(&self, node_id: NodeId) -> (r: (Node, NodeId))
        requires
            node_at(self.bytes(), node_id.0 as nat) is Some,
        ensures
            node_at(self.bytes(), node_id.0 as nat) == Some(
                (r.0@, (r.1.0 - node_id.0) as nat),
            ),
            node_id.0 < r.1.0 <= self.bytes().len(),
    {
        let data = self.storage.as_bytes();
        proof {
            crate::arena_compact::node::lemma_node_agree(data@, data@, node_id.0 as nat);
        }
        let len = data.len();
        let (node, off) = read_node(data, node_id);
        (node, NodeId(node_id.0 + off as u64))
    }

    /// Read line data provided [LineId].
    pub(crate) fn get_line(&self, line_id: LineId) -> (r: &[u8])
        requires
            line_at(self.bytes(), line_id.0 as nat) is Some,
        ensures
            line_at(self.bytes(), line_id.0 as nat) == Some(r@),
            r@.len() > 0,
    {
        read_line(self.storage.as_bytes(), line_id)
    }

    /// Read root [Node].
    ///
    /// Returns root [Node], together with root's [NodeId].
    pub(crate) fn get_root(&self) -> (r: (Node, NodeId))
        requires
            self.wf(),
        ensures
            r.1.0 == root_of(self.bytes()),
            node_at(self.bytes(), r.1.0 as nat) matches Some((n, _)) && n == r.0@,
    {
        let data = self.storage.as_bytes();
        let root_id = NodeId(read_le(data, 8, 8));
        (self.get_node(root_id).0, root_id)
    }

    /// The chain of historical roots recorded in the file, newest first.
    ///
    /// Each merge appends a trailer of two words, the place of the trailer before it and the root
    /// that was live just before that merge. So the roots form a list: the current root is the
    /// head, and each trailer leads back to the prior one. A file that has never been merged
    /// yields a single element, its current root.
    pub fn root_history(&self) -> (r: Vec<NodeId>)
        requires
            self.wf(),
            history_wf(self.bytes()),
        ensures
            r@.map_values(|id: NodeId| id.0 as nat) == roots_of(self.bytes()),
    {
        let data = self.storage.as_bytes();
        let ghost d = data@;
        let (_, root_id) = self.get_root();
        let mut roots: Vec<NodeId> = Vec::new();
        roots.push(root_id);
        let len = data.len();
        let mut off: usize = if len >= 16 {
            len - 16
        } else {
            0
        };
        let ghost place = |id: NodeId| id.0 as nat;
        proof {
            assert(roots@.map_values(place) =~= seq![root_of(d)]);
            assert(seq![root_of(d)] + roots_from(d, off as int) == roots_of(d));
        }
        while off >= 16 && off <= len - 16
            invariant_except_break
                roots@.map_values(place) + roots_from(d, off as int) =~= roots_of(d),
            invariant
                len == d.len(),
                d == data@,
                len >= 16,
                trailers_wf(d, off as int),
                place == (|id: NodeId| id.0 as nat),
            ensures
                roots@.map_values(place) =~= roots_of(d),
            decreases off,
        {
            let previous_suffix = read_le(data, off, 8);
            let previous_root = read_le(data, off + 8, 8);
            if previous_root == 0 {
                break ;
            }
            let ghost before = roots@;
            roots.push(NodeId(previous_root));
            proof {
                assert(roots@.map_values(place) =~= before.map_values(place).push(
                    previous_root as nat,
                ));
            }
            if previous_suffix == 0 {
                break ;
            }
            off = previous_suffix as usize;
        }
        roots
    }

    /// Read `index`'th sibling starting from `node_id`.
    ///
    /// Returns [Node] data together with its [NodeId] and the place behind it.
    pub(crate) fn nth_node(&self, node_id: NodeId, index: usize) -> (r: (Node, NodeId, NodeId))
        requires
            forall|k: nat|
                k <= index ==> node_at(
                    self.bytes(),
                    #[trigger] sibling(self.bytes(), node_id.0 as nat, k),
                ) is Some,
        ensures
            r.1.0 == sibling(self.bytes(), node_id.0 as nat, index as nat),
            r.2.0 == sibling(self.bytes(), node_id.0 as nat, (index + 1) as nat),
            node_at(self.bytes(), r.1.0 as nat) matches Some((n, _)) && n == r.0@,
    {
        let ghost d = self.bytes();
        let ghost first = node_id.0 as nat;
        let mut id = node_id;
        assert(sibling(d, first, 0) == first);
        let (mut node, mut next) = self.get_node(id);
        let mut k: usize = 0;
        while k < index
            invariant
                d == self.bytes(),
                k <= index,
                forall|j: nat| j <= index ==> node_at(d, #[trigger] sibling(d, first, j)) is Some,
                id.0 == sibling(d, first, k as nat),
                next.0 == sibling(d, first, (k + 1) as nat),
                node_at(d, id.0 as nat) matches Some((n, _)) && n == node@,
            decreases index - k,
        {
            assert(node_at(d, sibling(d, first, (k + 1) as nat)) is Some);
            let (nnode, nnext) = self.get_node(next);
            id = next;
            next = nnext;
            node = nnode;
            k = k + 1;
        }
        (node, id, next)
    }

    /// The child of a branch to which `byte` leads, its place, and the place behind it.
    pub(crate) fn child_of(&self, node: &NodeBranch, byte: u8, Ghost(lim): Ghost<nat>) -> (r: (
        Node,
        NodeId,
        NodeId,
    ))
        requires
            node_wf(self.bytes(), node@, lim),
            node.bytemask@.contains(byte),
        ensures
            node.first_child is Some,
            r.1.0 == child_place(
                self.bytes(),
                node.bytemask@,
                crate::arena_compact::node::id_view(node.first_child),
                byte,
            ),
            r.2.0 == sibling(
                self.bytes(),
                node.first_child->Some_0.0 as nat,
                (rank(node.bytemask@, byte as nat) + 1) as nat,
            ),
            node_at(self.bytes(), r.1.0 as nat) matches Some((n, _)) && n == r.0@,
            ARENA_START <= r.1.0 < lim,
            id_wf(self.bytes(), r.1.0 as nat),
    {
        let index = node.bytemask.index_of(byte) as usize;
        let ghost mask = node.bytemask@;
        let ghost first = crate::arena_compact::node::id_view(node.first_child);
        proof {
            reveal(node_wf);
            lemma_members(mask);
            assert forall|k: nat| k <= index implies node_at(
                self.bytes(),
                #[trigger] sibling(self.bytes(), first->Some_0, k),
            ) is Some by {
                lemma_siblings_sound(self.bytes(), mask, first, node.value, lim, k);
            }
            lemma_siblings_sound(self.bytes(), mask, first, node.value, lim, index as nat);
        }
        self.nth_node(node.first_child.unwrap(), index)
    }

    /// Returns the value at the specified `path`, or `None` if no value exists.
    pub fn get_val_at(&self, path: &[u8]) -> (r: Option<u64>)
        requires
            self.wf(),
        ensures
            r == self.view().get(path@),
    {
        let (root, root_id) = self.get_root();
        proof {
            assert(path@.subrange(0, path@.len() as int) =~= path@);
            lemma_id_node(self.bytes(), root_id.0 as nat);
        }
        self.value_below(root, path, 0, Ghost(root_id.0 as nat))
    }

    /// Returns the value that the bytes of `path` from `start` on lead to below a node.
    pub(crate) fn value_below(
        &self,
        node: Node,
        path: &[u8],
        start: usize,
        Ghost(before): Ghost<nat>,
    ) -> (r: Option<u64>)
        requires
            node_wf(self.bytes(), node@, before),
            start <= path@.len(),
        ensures
            r == node_trie(self.bytes(), node@, before).get(
                path@.subrange(start as int, path@.len() as int),
            ),
    {
        let ghost d = self.bytes();
        let ghost whole = node_trie(d, node@, before);
        let ghost asked = path@.subrange(start as int, path@.len() as int);
        let mut cur_node = node;
        let mut from = start;
        let ghost mut lim: nat = before;
        loop
            invariant
                d == self.bytes(),
                whole == node_trie(d, node@, before),
                asked == path@.subrange(start as int, path@.len() as int),
                from <= path@.len(),
                node_wf(d, cur_node@, lim),
                whole.get(asked) == node_trie(d, cur_node@, lim).get(
                    path@.subrange(from as int, path@.len() as int),
                ),
            decreases lim,
        {
            let rest = part(path, from, path.len());
            match cur_node {
                Node::Line(line) => {
                    proof {
                        lemma_line_get(d, cur_node@, lim, rest@);
                    }
                    let lpath = self.get_line(line.path);
                    if !starts_with(rest, lpath) {
                        return None;
                    }
                    let ghost next_rest = rest@.subrange(lpath@.len() as int, rest@.len() as int);
                    from = from + lpath.len();
                    proof {
                        assert(path@.subrange(from as int, path@.len() as int) =~= next_rest);
                    }
                    if from == path.len() && line.value.is_some() {
                        return line.value;
                    }
                    match line.child {
                        None => {
                            return None;
                        },
                        Some(child) => {
                            cur_node = self.get_node(child).0;
                            proof {
                                lim = child.0 as nat;
                            }
                        },
                    }
                },
                Node::Branch(node) => {
                    proof {
                        lemma_branch_get(d, cur_node@, lim, rest@);
                    }
                    if from == path.len() {
                        return node.value;
                    }
                    let byte = path[from];
                    assert(rest@[0] == byte);
                    if !node.bytemask.test_bit(byte) {
                        return None;
                    }
                    let (child, child_id, _) = self.child_of(&node, byte, Ghost(lim));
                    cur_node = child;
                    from = from + 1;
                    proof {
                        assert(rest@.drop_first() =~= path@.subrange(
                            from as int,
                            path@.len() as int,
                        ));
                        lim = child_id.0 as nat;
                    }
                },
            }
        }
    }

    /// The same as [Self::get_val_at].
    pub fn get(&self, path: &[u8]) -> (r: Option<u64>)
        requires
            self.wf(),
        ensures
            r == self.view().get(path@),
    {
        self.get_val_at(path)
    }
}

} // verus!

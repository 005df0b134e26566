//! Reading a compact trie step by step.

use vstd::prelude::*;
use core::marker::PhantomData;

use crate::arena_compact::count::lemma_count_chain;
use crate::arena_compact::meaning::{
    child_place, id_trie, id_wf, lemma_chain_lookup, lemma_id_node, node_trie, node_wf, sibling,
};
use crate::arena_compact::node::{id_view, line_at, node_at, Node, NodeBranch, NodeId, NodeView};
use crate::arena_compact::tree::{lemma_siblings_sound, ArenaCompactTree, Storage};
use crate::slices::{part, push_slice, starts_with};
use crate::trie::{chain, lemma_at_concat, lemma_at_prefix, lemma_at_push, lemma_chain_at, Trie};
use crate::trie_order::count_vals;
use crate::trie_walk::{kids_of, look, val_of};
use crate::utils::bits::{lemma_members, lemma_rank_bound, lemma_rank_is_len, members, rank};
use crate::utils::byte_mask::{BitMask, ByteMask};
use crate::zipper::up;

verus! {

/// A node on the way from the zipper's root to its focus.
#[derive(Clone, Copy, Debug)]
pub(crate) struct StackFrame {
    node_id: NodeId,
    /// How many children the node has.
    child_count: usize,
    /// Which of them the zipper went to last.
    child_index: usize,
    /// Where the sibling behind that child is, if that is known.
    next_id: Option<NodeId>,
    /// How many bytes of a line are behind the zipper.
    node_depth: usize,
    /// How many bytes of the path lead to the node.
    start: usize,
}

impl StackFrame {
    fn from(node: &Node, node_id: NodeId, start: usize) -> (r: Self)
        ensures
            r.node_id == node_id,
            r.child_count == node@.child_count(),
            r.child_index == 0,
            r.next_id is None,
            r.node_depth == 0,
            r.start == start,
    {
        StackFrame {
            node_id,
            child_count: node.child_count(),
            child_index: 0,
            next_id: None,
            node_depth: 0,
            start,
        }
    }
}

/// The node at a place.
spec fn node_of(d: Seq<u8>, id: NodeId) -> NodeView {
    node_at(d, id.0 as nat)->Some_0.0
}

/// The bytes of a line node.
spec fn line_of(d: Seq<u8>, n: NodeView) -> Seq<u8> {
    line_at(d, n->path)->Some_0
}

/// The trie at the end of a line.
spec fn line_end(d: Seq<u8>, n: NodeView) -> Trie<u64> {
    match n->Line_child {
        Some(c) => id_trie(d, c),
        None => Trie::leaf(n->Line_value),
    }
}

/// The trie `depth` bytes into a node.
spec fn inside(d: Seq<u8>, n: NodeView, id: nat, depth: int) -> Trie<u64> {
    match n {
        NodeView::Branch { .. } => node_trie(d, n, id),
        NodeView::Line { .. } => chain(
            line_of(d, n).subrange(depth, line_of(d, n).len() as int),
            line_end(d, n),
        ),
    }
}

/// A frame describes a sound node.
spec fn frame_facts(d: Seq<u8>, f: StackFrame) -> bool {
    let n = node_of(d, f.node_id);
    &&& id_wf(d, f.node_id.0 as nat)
    &&& f.child_count == n.child_count()
    &&& match n {
        NodeView::Branch { mask, first, .. } => {
            &&& f.node_depth == 0
            &&& f.next_id matches Some(next) ==> f.child_index < rank(mask, 256) && next.0
                == sibling(d, first->Some_0, (f.child_index + 1) as nat)
        },
        NodeView::Line { child, .. } => {
            &&& f.child_index == 0
            &&& f.node_depth <= line_of(d, n).len()
            &&& child is Some ==> f.node_depth < line_of(d, n).len()
        },
    }
}

/// A frame describes a sound node to which the first `start` bytes of the path lead, and in a
/// line the bytes behind the zipper are those of the path.
#[verifier::opaque]
spec fn frame_ok(d: Seq<u8>, t: Trie<u64>, path: Seq<u8>, f: StackFrame) -> bool {
    let n = node_of(d, f.node_id);
    &&& frame_facts(d, f)
    &&& f.start + f.node_depth <= path.len()
    &&& t.at(path.subrange(0, f.start as int)) == Some(id_trie(d, f.node_id.0 as nat))
    &&& n is Line ==> path.subrange(f.start as int, f.start + f.node_depth) == line_of(d, n).subrange(
        0,
        f.node_depth as int,
    )
}

proof fn lemma_frame_facts(d: Seq<u8>, t: Trie<u64>, path: Seq<u8>, st: Seq<StackFrame>, i: int)
    requires
        frames_ok(d, t, path, st),
        0 <= i < st.len(),
    ensures
        frame_ok(d, t, path, st[i]),
        frame_facts(d, st[i]),
        st[i].start + st[i].node_depth <= path.len(),
{
    reveal(frame_ok);
}

/// The node of `g` is the child of that of `f` to which the path leads.
#[verifier::opaque]
spec fn frame_link(d: Seq<u8>, path: Seq<u8>, f: StackFrame, g: StackFrame) -> bool {
    let n = node_of(d, f.node_id);
    &&& g.start == f.start + f.node_depth + 1
    &&& g.start <= path.len()
    &&& match n {
        NodeView::Branch { mask, first, .. } => {
            &&& mask.contains(path[f.start as int])
            &&& f.child_index == rank(mask, path[f.start as int] as nat)
            &&& g.node_id.0 == child_place(d, mask, first, path[f.start as int])
        },
        NodeView::Line { child, .. } => {
            &&& child == Some(g.node_id.0 as nat)
            &&& f.node_depth + 1 == line_of(d, n).len()
            &&& path[f.start + f.node_depth] == line_of(d, n)[f.node_depth as int]
        },
    }
}

spec fn frames_ok(d: Seq<u8>, t: Trie<u64>, path: Seq<u8>, st: Seq<StackFrame>) -> bool {
    &&& st.len() > 0
    &&& forall|i: int| 0 <= i < st.len() ==> frame_ok(d, t, path, #[trigger] st[i])
    &&& forall|i: int, j: int|
        0 <= i && j == i + 1 && j < st.len() ==> frame_link(
            d,
            path,
            #[trigger] st[i],
            #[trigger] st[j],
        )
}

/// A frame rests on the path up to where the zipper stands in it.
proof fn lemma_frame_path(d: Seq<u8>, t: Trie<u64>, path: Seq<u8>, other: Seq<u8>, f: StackFrame)
    requires
        frame_ok(d, t, path, f),
        f.start + f.node_depth <= other.len(),
        forall|i: int| 0 <= i < f.start + f.node_depth ==> path[i] == other[i],
    ensures
        frame_ok(d, t, other, f),
{
    reveal(frame_ok);
    assert(path.subrange(0, f.start as int) =~= other.subrange(0, f.start as int));
    assert(path.subrange(f.start as int, f.start + f.node_depth) =~= other.subrange(
        f.start as int,
        f.start + f.node_depth,
    ));
}

/// Frames rest on the path up to where the zipper stands in the last of them.
proof fn lemma_frames_path(
    d: Seq<u8>,
    t: Trie<u64>,
    path: Seq<u8>,
    other: Seq<u8>,
    st: Seq<StackFrame>,
)
    requires
        frames_ok(d, t, path, st),
        st.last().start + st.last().node_depth <= other.len(),
        forall|i: int| 0 <= i < st.last().start + st.last().node_depth ==> path[i] == other[i],
    ensures
        frames_ok(d, t, other, st),
{
    reveal(frame_ok);
    reveal(frame_link);
    lemma_starts_ascend(d, t, path, st);
    assert forall|i: int| 0 <= i < st.len() implies frame_ok(d, t, other, #[trigger] st[i]) by {
        lemma_frame_path(d, t, path, other, st[i]);
    }
    assert forall|i: int, j: int| 0 <= i && j == i + 1 && j < st.len() implies frame_link(
        d,
        other,
        #[trigger] st[i],
        #[trigger] st[j],
    ) by {
        assert(frame_link(d, path, st[i], st[j]));
        assert(st[j].start <= st.last().start);
    }
}

/// The frames stand one behind the other.
proof fn lemma_starts_ascend(d: Seq<u8>, t: Trie<u64>, path: Seq<u8>, st: Seq<StackFrame>)
    requires
        frames_ok(d, t, path, st),
    ensures
        forall|i: int, j: int|
            0 <= i < j < st.len() ==> (#[trigger] st[i]).start + st[i].node_depth
                < (#[trigger] st[j]).start,
{
    assert forall|i: int, j: int| 0 <= i < j < st.len() implies (#[trigger] st[i]).start
        + st[i].node_depth < (#[trigger] st[j]).start by {
        lemma_starts_pair(d, t, path, st, i, j);
    }
}

proof fn lemma_starts_pair(
    d: Seq<u8>,
    t: Trie<u64>,
    path: Seq<u8>,
    st: Seq<StackFrame>,
    i: int,
    j: int,
)
    requires
        frames_ok(d, t, path, st),
        0 <= i < j < st.len(),
    ensures
        st[i].start + st[i].node_depth < st[j].start,
    decreases j - i,
{
    reveal(frame_link);
    assert(frame_link(d, path, st[i], st[i + 1]));
    if i + 1 < j {
        lemma_starts_pair(d, t, path, st, i + 1, j);
    }
}

/// Where the zipper stands in a frame, the trie is what is that far inside the node.
proof fn lemma_frame_place(d: Seq<u8>, t: Trie<u64>, path: Seq<u8>, f: StackFrame, depth: int)
    requires
        frame_ok(d, t, path, f),
        0 <= depth <= f.node_depth,
    ensures
        t.at(path.subrange(0, f.start + depth)) == Some(
            inside(d, node_of(d, f.node_id), f.node_id.0 as nat, depth),
        ),
        id_trie(d, f.node_id.0 as nat) == inside(
            d,
            node_of(d, f.node_id),
            f.node_id.0 as nat,
            0,
        ),
{
    reveal(frame_ok);
    let id = f.node_id.0 as nat;
    let n = node_of(d, f.node_id);
    lemma_id_node(d, id);
    reveal(node_wf);
    reveal(node_trie);
    if let NodeView::Line { path: lp, value, child } = n {
        let line = line_of(d, n);
        assert(line.subrange(0, line.len() as int) =~= line);
        lemma_chain_at(line, line_end(d, n), depth);
        lemma_at_concat(t, path.subrange(0, f.start as int), line.subrange(0, depth));
        assert(line.subrange(0, depth) =~= line.subrange(0, f.node_depth as int).subrange(0, depth));
        assert(path.subrange(f.start as int, f.start + f.node_depth).subrange(0, depth)
            =~= path.subrange(f.start as int, f.start + depth));
        assert(path.subrange(0, f.start as int) + line.subrange(0, depth) =~= path.subrange(
            0,
            f.start + depth,
        ));
    }
}

/// A zipper over a compact trie.
pub struct ACTZipper<'tree, S: Storage, Value> {
    tree: &'tree ArenaCompactTree<S>,
    cur_node: Node,
    stack: Vec<StackFrame>,
    /// The bytes from the root of the trie to the focus.
    path: Vec<u8>,
    /// How many of them lead to the zipper's root.
    origin_depth: usize,
    /// How many bytes of a line are behind the zipper's root.
    origin_node_depth: usize,
    /// How many bytes at the end of the zipper's root lead nowhere.
    origin_invalid: usize,
    /// How many bytes at the end of the path lead nowhere.
    invalid: usize,
    marker: PhantomData<Value>,
}

impl<'tree, S: Storage, Value> ACTZipper<'tree, S, Value> {
    /// The trie that the zipper reads.
    pub closed spec fn whole(&self) -> Trie<u64> {
        self.tree.view()
    }

    /// The path from the root of the trie to the zipper's root.
    pub closed spec fn origin(&self) -> Seq<u8> {
        self.path@.subrange(0, self.origin_depth as int)
    }

    /// The path from the zipper's root to the focus.
    pub closed spec fn rel(&self) -> Seq<u8> {
        self.path@.subrange(self.origin_depth as int, self.path@.len() as int)
    }

    /// The place of the zipper's root, if there is one.
    pub open spec fn root(&self) -> Option<Trie<u64>> {
        self.whole().at(self.origin())
    }

    /// The place of the focus, if there is one.
    pub open spec fn here(&self) -> Option<Trie<u64>> {
        look(self.root(), self.rel())
    }

    /// The zipper reads the same trie from the same root as `other`, and its focus is at `rel`.
    pub open spec fn moved(&self, other: &Self, rel: Seq<u8>) -> bool {
        &&& self.wf()
        &&& self.whole() == other.whole()
        &&& self.origin() == other.origin()
        &&& self.rel() == rel
    }

    spec fn data(&self) -> Seq<u8> {
        self.tree.bytes()
    }

    spec fn top(&self) -> StackFrame {
        self.stack@.last()
    }

    /// How many bytes of the path lead to a place.
    spec fn valid(&self) -> int {
        self.path@.len() - self.invalid
    }

    /// The frames lead to the last place on the path, not above the zipper's root.
    spec fn inv(&self) -> bool {
        &&& self.tree.wf()
        &&& frames_ok(self.data(), self.whole(), self.path@, self.stack@)
        &&& self.cur_node@ == node_of(self.data(), self.top().node_id)
        &&& self.origin_depth <= self.path@.len()
        &&& self.top().start + self.top().node_depth == self.valid()
        &&& self.stack@[0].start + self.origin_node_depth + self.origin_invalid
            == self.origin_depth
        &&& self.origin_node_depth <= self.stack@[0].node_depth
        &&& self.invalid > 0 ==> self.whole().at(self.path@.subrange(0, self.valid() + 1)) is None
        &&& self.origin_invalid > 0 ==> self.invalid == self.origin_invalid + (self.path@.len()
            - self.origin_depth)
    }

    pub closed spec fn wf(&self) -> bool {
        self.inv()
    }

    /// The focus is where the whole path leads.
    proof fn lemma_here(&self)
        requires
            self.inv(),
        ensures
            self.here() == self.whole().at(self.path@),
            self.invalid > 0 ==> self.here() is None,
            self.invalid == 0 ==> self.here() == Some(
                inside(
                    self.data(),
                    self.cur_node@,
                    self.top().node_id.0 as nat,
                    self.top().node_depth as int,
                ),
            ),
    {
        lemma_at_concat(self.whole(), self.origin(), self.rel());
        assert(self.origin() + self.rel() =~= self.path@);
        if self.invalid > 0 {
            if self.whole().has(self.path@) {
                lemma_at_prefix(self.whole(), self.path@, self.valid() + 1);
            }
        } else {
            let f = self.top();
            lemma_frame_facts(
                self.data(),
                self.whole(),
                self.path@,
                self.stack@,
                self.stack@.len() - 1,
            );
            lemma_frame_place(self.data(), self.whole(), self.path@, f, f.node_depth as int);
            assert(self.path@.subrange(0, f.start + f.node_depth) =~= self.path@);
        }
    }
}

/// What leads on from a place inside a line, and its value.
proof fn lemma_inside_line(d: Seq<u8>, n: NodeView, id: nat, depth: int)
    requires
        n is Line,
        id_wf(d, id),
        node_at(d, id) matches Some((m, _)) && m == n,
        0 <= depth <= line_of(d, n).len(),
    ensures
        line_at(d, n->path) is Some,
        line_of(d, n).len() > 0,
        n->Line_child matches Some(c) ==> id_wf(d, c) && c < id && n->Line_value is None,
        depth < line_of(d, n).len() ==> {
            let t = inside(d, n, id, depth);
            &&& t.val is None
            &&& t.kids.dom() == Set::<u8>::empty().insert(line_of(d, n)[depth])
            &&& t.kids[line_of(d, n)[depth]] == inside(d, n, id, depth + 1)
        },
        depth == line_of(d, n).len() ==> inside(d, n, id, depth) == line_end(d, n),
{
    reveal(node_wf);
    lemma_id_node(d, id);
    let line = line_of(d, n);
    let rest = line.subrange(depth, line.len() as int);
    if depth < line.len() {
        assert(rest.drop_first() =~= line.subrange(depth + 1, line.len() as int));
        assert(chain(rest, line_end(d, n)).kids.dom() =~= Set::<u8>::empty().insert(line[depth]));
    }
}

impl<'tree, S: Storage, Value> ACTZipper<'tree, S, Value> {
    /// A zipper at the root of a trie.
    pub(crate) fn from_tree(tree: &'tree ArenaCompactTree<S>) -> (r: Self)
        requires
            tree.wf(),
        ensures
            r.wf(),
            r.whole() == tree.view(),
            r.origin() == Seq::<u8>::empty(),
            r.rel() == Seq::<u8>::empty(),
    {
        let (cur_node, node_id) = tree.get_root();
        let frame = StackFrame::from(&cur_node, node_id, 0);
        let mut stack: Vec<StackFrame> = Vec::new();
        stack.push(frame);
        let r = ACTZipper {
            tree,
            cur_node,
            stack,
            path: Vec::new(),
            origin_depth: 0,
            origin_node_depth: 0,
            origin_invalid: 0,
            invalid: 0,
            marker: PhantomData,
        };
        proof {
            let none = Seq::<u8>::empty();
            assert(r.path@.subrange(0, 0) =~= none);
            lemma_fresh_frame(tree.bytes(), r.whole(), r.path@, frame);
            assert(r.origin() =~= none);
            assert(r.rel() =~= none);
        }
        r
    }

    /// The same zipper with its root at the focus.
    pub(crate) fn with_root_here(self) -> (r: Self)
        requires
            self.wf(),
        ensures
            r.wf(),
            r.whole() == self.whole(),
            r.origin() == self.origin() + self.rel(),
            r.rel() == Seq::<u8>::empty(),
    {
        let last = self.stack[self.stack.len() - 1];
        let mut stack: Vec<StackFrame> = Vec::new();
        stack.push(last);
        let ghost frames = stack@;
        proof {
            lemma_frames_last(self.data(), self.whole(), self.path@, self.stack@);
            assert(frames =~= seq![last]);
            assert(self.path@ =~= self.origin() + self.rel());
        }
        let r = ACTZipper {
            tree: self.tree,
            cur_node: self.cur_node,
            stack,
            origin_depth: self.path.len(),
            path: self.path,
            origin_node_depth: last.node_depth,
            origin_invalid: self.invalid,
            invalid: self.invalid,
            marker: PhantomData,
        };
        proof {
            assert(frames_ok(r.data(), r.whole(), r.path@, r.stack@));
            assert(r.origin() =~= r.path@);
            assert(r.rel() =~= Seq::<u8>::empty());
        }
        r
    }

    /// A zipper at the same place.
    pub fn clone(&self) -> (r: Self)
        requires
            self.wf(),
        ensures
            r.moved(self, self.rel()),
    {
        let mut path: Vec<u8> = Vec::new();
        push_slice(&mut path, self.path.as_slice());
        let mut stack: Vec<StackFrame> = Vec::new();
        let mut i: usize = 0;
        while i < self.stack.len()
            invariant
                i <= self.stack@.len(),
                stack@ =~= self.stack@.subrange(0, i as int),
            decreases self.stack@.len() - i,
        {
            stack.push(self.stack[i]);
            i = i + 1;
        }
        proof {
            assert(path@ =~= self.path@);
            assert(stack@ =~= self.stack@);
        }
        ACTZipper {
            tree: self.tree,
            cur_node: self.cur_node,
            stack,
            path,
            origin_depth: self.origin_depth,
            origin_node_depth: self.origin_node_depth,
            origin_invalid: self.origin_invalid,
            invalid: self.invalid,
            marker: PhantomData,
        }
    }

    /// Returns `true` if the zipper's focus is on a path within the trie, otherwise `false`.
    pub fn path_exists(&self) -> (r: bool)
        requires
            self.wf(),
        ensures
            r == self.here() is Some,
    {
        proof {
            self.lemma_here();
        }
        self.invalid == 0
    }

    /// Returns `true` if there is a value at the zipper's focus, otherwise `false`.
    pub fn is_val(&self) -> (r: bool)
        requires
            self.wf(),
        ensures
            r == val_of(self.here()) is Some,
    {
        self.value_ref().is_some()
    }

    /// The value at the focus, where there is one.
    pub(crate) fn value_ref(&self) -> (r: Option<&u64>)
        requires
            self.wf(),
        ensures
            match r {
                Some(v) => val_of(self.here()) == Some(*v),
                None => val_of(self.here()) is None,
            },
    {
        proof {
            self.lemma_here();
        }
        if self.invalid > 0 {
            return None;
        }
        let ghost d = self.data();
        let top = self.stack[self.stack.len() - 1];
        proof {
            lemma_frame_facts(d, self.whole(), self.path@, self.stack@, self.stack@.len() - 1);
        }
        match &self.cur_node {
            Node::Branch(node) => {
                proof {
                    lemma_branch_kids(d, self.cur_node@, top.node_id.0 as nat);
                }
                node.value.as_ref()
            },
            Node::Line(line) => {
                proof {
                    lemma_inside_line(
                        d,
                        self.cur_node@,
                        top.node_id.0 as nat,
                        top.node_depth as int,
                    );
                }
                let bytes = self.tree.get_line(line.path);
                if bytes.len() == top.node_depth {
                    line.value.as_ref()
                } else {
                    None
                }
            },
        }
    }

    /// The value at the focus, where there is one.
    pub fn get_value(&self) -> (r: Option<u64>)
        requires
            self.wf(),
        ensures
            r == val_of(self.here()),
    {
        match self.value_ref() {
            Some(v) => Some(*v),
            None => None,
        }
    }

    /// Returns the number of child branches from the focus node.
    ///
    /// Returns 0 if the focus is on a leaf.
    pub fn child_count(&self) -> (n: usize)
        requires
            self.wf(),
        ensures
            n == rank(kids_of(self.here()), 256),
    {
        self.child_mask().count_bits()
    }

    /// Returns 256-bit mask indicating which children exist from the branch at the zipper's focus.
    ///
    /// Returns an empty mask if the focus is on a leaf or non-existent path.
    pub fn child_mask(&self) -> (r: ByteMask)
        requires
            self.wf(),
        ensures
            r@ == kids_of(self.here()),
    {
        proof {
            self.lemma_here();
        }
        if self.invalid > 0 {
            return ByteMask::new();
        }
        let ghost d = self.data();
        let top = self.stack[self.stack.len() - 1];
        proof {
            lemma_frame_facts(d, self.whole(), self.path@, self.stack@, self.stack@.len() - 1);
        }
        match &self.cur_node {
            Node::Branch(node) => {
                proof {
                    lemma_branch_kids(d, self.cur_node@, top.node_id.0 as nat);
                }
                node.bytemask
            },
            Node::Line(line) => {
                proof {
                    lemma_inside_line(
                        d,
                        self.cur_node@,
                        top.node_id.0 as nat,
                        top.node_depth as int,
                    );
                    assert(Map::<u8, Trie<u64>>::empty().dom() =~= Set::<u8>::empty());
                }
                let bytes = self.tree.get_line(line.path);
                if top.node_depth == bytes.len() {
                    ByteMask::new()
                } else {
                    let mut mask = ByteMask::new();
                    mask.set_bit(bytes[top.node_depth]);
                    mask
                }
            },
        }
    }

    /// Returns the path from the zipper's root to the current focus.
    pub fn path(&self) -> (r: &[u8])
        requires
            self.wf(),
        ensures
            r@ == self.rel(),
    {
        part(self.path.as_slice(), self.origin_depth, self.path.len())
    }

    /// Returns the path from the root of the trie to the current focus.
    pub fn origin_path(&self) -> (r: &[u8])
        requires
            self.wf(),
        ensures
            r@ == self.origin() + self.rel(),
    {
        assert(self.path@ =~= self.origin() + self.rel());
        self.path.as_slice()
    }

    /// Returns the path from the root of the trie to the zipper's root.
    pub fn root_prefix_path(&self) -> (r: &[u8])
        requires
            self.wf(),
        ensures
            r@ == self.origin(),
    {
        part(self.path.as_slice(), 0, self.origin_depth)
    }

    /// How many bytes the focus is below the zipper's root.
    pub fn depth(&self) -> (n: usize)
        requires
            self.wf(),
        ensures
            n == self.rel().len(),
    {
        self.path.len() - self.origin_depth
    }

    /// Returns `true` if the zipper cannot ascend further, otherwise returns `false`.
    pub fn at_root(&self) -> (r: bool)
        requires
            self.wf(),
        ensures
            r == (self.rel().len() == 0),
    {
        self.path.len() <= self.origin_depth
    }

    /// The byte that leads to the focus. At the zipper's root that is the byte that leads to it,
    /// if there is one.
    pub fn focus_byte(&self) -> (r: Option<u8>)
        requires
            self.wf(),
        ensures
            match r {
                Some(b) => (self.origin() + self.rel()).len() > 0 && b == (self.origin()
                    + self.rel()).last(),
                None => (self.origin() + self.rel()).len() == 0,
            },
    {
        assert(self.path@ =~= self.origin() + self.rel());
        if self.path.len() == 0 {
            None
        } else {
            Some(self.path[self.path.len() - 1])
        }
    }

    /// Bytes that were added behind the zipper's root are bytes of the relative path.
    proof fn lemma_moved(&self, before: &Self, more: Seq<u8>)
        requires
            self.inv(),
            self.tree == before.tree,
            self.origin_depth == before.origin_depth,
            before.origin_depth <= before.path@.len(),
            self.path@ == before.path@ + more,
        ensures
            self.moved(before, before.rel() + more),
    {
        assert(self.origin() =~= before.origin());
        assert(self.rel() =~= before.rel() + more);
    }

    /// Adds bytes to the path that lead nowhere.
    pub(crate) fn extend_off(&mut self, bytes: &[u8])
        requires
            old(self).wf(),
            bytes@.len() > 0,
            !kids_of(old(self).here()).contains(bytes@[0]),
        ensures
            final(self).moved(old(self), old(self).rel() + bytes@),
    {
        let ghost before = self.path@;
        proof {
            self.lemma_here();
            lemma_at_push(self.whole(), before, bytes@[0]);
        }
        push_slice(&mut self.path, bytes);
        assert(self.path.len() == before.len() + bytes@.len());
        self.invalid = self.invalid + bytes.len();
        proof {
            lemma_frames_path(self.data(), self.whole(), before, self.path@, self.stack@);
            if old(self).invalid == 0 {
                assert(self.path@.subrange(0, self.valid() + 1) =~= before.push(bytes@[0]));
            } else {
                assert(self.path@.subrange(0, self.valid() + 1) =~= before.subrange(
                    0,
                    old(self).valid() + 1,
                ));
            }
            self.lemma_moved(old(self), bytes@);
        }
    }

    /// The focus is in a line.
    pub(crate) closed spec fn in_line(&self) -> bool {
        self.cur_node is Line
    }

    /// The bytes of the line that are before the zipper.
    pub(crate) closed spec fn line_left(&self) -> Seq<u8> {
        let line = line_of(self.data(), self.cur_node@);
        line.subrange(self.top().node_depth as int, line.len() as int)
    }

    /// What is at the end of the line.
    pub(crate) closed spec fn line_target(&self) -> Trie<u64> {
        line_end(self.data(), self.cur_node@)
    }

    /// The bytes of the line that are before the zipper, where it is in one.
    pub(crate) fn rest_of_line(&self) -> (r: Option<&'tree [u8]>)
        requires
            self.wf(),
            self.here() is Some,
        ensures
            match r {
                Some(rest) => {
                    &&& self.in_line()
                    &&& rest@ == self.line_left()
                    &&& self.here() == Some(chain(rest@, self.line_target()))
                },
                None => !self.in_line(),
            },
    {
        proof {
            self.lemma_here();
        }
        let top = self.stack[self.stack.len() - 1];
        proof {
            lemma_frame_facts(
                self.data(),
                self.whole(),
                self.path@,
                self.stack@,
                self.stack@.len() - 1,
            );
        }
        match self.cur_node {
            Node::Branch(_) => None,
            Node::Line(line) => {
                proof {
                    lemma_inside_line(
                        self.data(),
                        self.cur_node@,
                        top.node_id.0 as nat,
                        top.node_depth as int,
                    );
                }
                let tree = self.tree;
                let bytes = tree.get_line(line.path);
                Some(part(bytes, top.node_depth, bytes.len()))
            },
        }
    }

    /// At the end of a line that goes on to no child nothing leads on.
    pub(crate) proof fn lemma_line_over(&self)
        requires
            self.wf(),
            self.here() is Some,
            self.in_line(),
            self.line_left().len() == 0,
        ensures
            kids_of(self.here()) == Set::<u8>::empty(),
    {
        let d = self.data();
        let top = self.top();
        self.lemma_here();
        lemma_frame_facts(d, self.whole(), self.path@, self.stack@, self.stack@.len() - 1);
        lemma_id_node(d, top.node_id.0 as nat);
        lemma_inside_line(d, self.cur_node@, top.node_id.0 as nat, top.node_depth as int);
        assert(kids_of(self.here()) =~= Set::<u8>::empty());
    }

    /// The path is in memory, so its length can be told.
    pub(crate) proof fn lemma_depth(&self)
        requires
            self.wf(),
        ensures
            self.rel().len() <= usize::MAX,
    {
        assert(self.path.len() == self.path@.len());
    }

    /// Moves `n` bytes down a line, and into its child where that is at the end.
    pub(crate) fn advance_line(&mut self, n: usize)
        requires
            old(self).wf(),
            old(self).here() is Some,
            old(self).in_line(),
            0 < n <= old(self).line_left().len(),
        ensures
            final(self).moved(old(self), old(self).rel() + old(self).line_left().subrange(0, n as int)),
    {
        proof {
            self.lemma_here();
        }
        let ghost d = self.data();
        let ghost t = self.whole();
        let ghost before = self.path@;
        let ghost st = self.stack@;
        let last = self.stack.len() - 1;
        let mut top = self.stack[last];
        let depth = top.node_depth;
        proof {
            lemma_frame_facts(d, t, before, st, last as int);
            lemma_inside_line(d, self.cur_node@, top.node_id.0 as nat, depth as int);
            lemma_id_node(d, top.node_id.0 as nat);
        }
        if let Node::Line(line) = self.cur_node {
            let tree = self.tree;
            let bytes = tree.get_line(line.path);
            assert(depth + n <= bytes.len());
            push_slice(&mut self.path, part(bytes, depth, depth + n));
            let ghost more = bytes@.subrange(depth as int, depth + n);
            assert(self.path.len() == before.len() + n);
            match line.child {
                Some(child_id) if depth + n == bytes.len() => {
                    top.node_depth = depth + n - 1;
                    self.stack[last] = top;
                    let (node, _) = tree.get_node(child_id);
                    let frame = StackFrame::from(&node, child_id, self.path.len());
                    self.stack.push(frame);
                    self.cur_node = node;
                    proof {
                        lemma_advance_into(d, t, before, st, n as int, frame);
                    }
                },
                _ => {
                    top.node_depth = depth + n;
                    self.stack[last] = top;
                    proof {
                        lemma_advance(d, t, before, st, n as int);
                    }
                },
            }
            proof {
                assert(old(self).line_left().subrange(0, n as int) =~= more);
                self.lemma_moved(old(self), more);
            }
        }
    }

    /// Moves one byte down from a branch.
    pub(crate) fn enter_child(&mut self, byte: u8)
        requires
            old(self).wf(),
            !old(self).in_line(),
            kids_of(old(self).here()).contains(byte),
        ensures
            final(self).moved(old(self), old(self).rel().push(byte)),
    {
        proof {
            self.lemma_here();
        }
        let ghost d = self.data();
        let ghost t = self.whole();
        let ghost before = self.path@;
        let ghost st = self.stack@;
        let last = self.stack.len() - 1;
        let mut top = self.stack[last];
        let ghost id = top.node_id.0 as nat;
        proof {
            lemma_frame_facts(d, t, before, st, last as int);
            lemma_id_node(d, id);
            lemma_branch_kids(d, self.cur_node@, id);
        }
        if let Node::Branch(branch) = self.cur_node {
            let idx = branch.bytemask.index_of(byte) as usize;
            let (node, node_id, next_id) = find_child(self.tree, &branch, byte, idx, &top);
            self.path.push(byte);
            assert(self.path.len() == before.len() + 1);
            top.child_index = idx;
            top.next_id = Some(next_id);
            self.stack[last] = top;
            let frame = StackFrame::from(&node, node_id, self.path.len());
            self.stack.push(frame);
            self.cur_node = node;
            proof {
                lemma_enter(d, t, before, st, byte, top, frame);
                assert(self.path@ =~= before + seq![byte]);
                self.lemma_moved(old(self), seq![byte]);
                assert(old(self).rel() + seq![byte] =~= old(self).rel().push(byte));
            }
        }
    }
}

/// The child of a branch to which `byte`, which has `idx` before it, leads: the node, its place
/// and the place behind it.
fn find_child<S: Storage>(
    tree: &ArenaCompactTree<S>,
    branch: &NodeBranch,
    byte: u8,
    idx: usize,
    top: &StackFrame,
) -> (r: (Node, NodeId, NodeId))
    requires
        node_wf(tree.bytes(), branch@, top.node_id.0 as nat),
        branch.bytemask@.contains(byte),
        idx == rank(branch.bytemask@, byte as nat),
        top.next_id matches Some(next) ==> top.child_index < rank(branch.bytemask@, 256) && next.0
            == sibling(
            tree.bytes(),
            branch.first_child->Some_0.0 as nat,
            (top.child_index + 1) as nat,
        ),
    ensures
        branch.first_child is Some,
        r.1.0 == child_place(tree.bytes(), branch.bytemask@, id_view(branch.first_child), byte),
        r.2.0 == sibling(
            tree.bytes(),
            branch.first_child->Some_0.0 as nat,
            (idx + 1) as nat,
        ),
        r.0@ == node_of(tree.bytes(), r.1),
{
    let ghost d = tree.bytes();
    let ghost mask = branch.bytemask@;
    let ghost first = id_view(branch.first_child);
    proof {
        lemma_members(mask);
        lemma_siblings_sound(d, mask, first, branch.value, top.node_id.0 as nat, idx as nat);
        lemma_rank_is_len(mask);
        lemma_rank_bound(mask, 256);
        lemma_id_node(d, sibling(d, first->Some_0, idx as nat));
    }
    if let Some(next) = top.next_id {
        // Where the exact next node is known, go there.
        if top.child_index + 1 == idx {
            let (node, next_id) = tree.get_node(next);
            return (node, next, next_id);
        }
    }
    tree.child_of(branch, byte, Ghost(top.node_id.0 as nat))
}

/// What leads on from a branch, and its value.
proof fn lemma_branch_kids(d: Seq<u8>, n: NodeView, id: nat)
    ensures
        n is Branch ==> node_trie(d, n, id).kids.dom() == n->mask && node_trie(d, n, id).val
            == n->Branch_value,
{
    reveal(node_trie);
    if n is Branch {
        assert(node_trie(d, n, id).kids.dom() =~= n->mask);
    }
}

/// A frame that was just made for a place describes it.
proof fn lemma_fresh_frame(d: Seq<u8>, t: Trie<u64>, path: Seq<u8>, f: StackFrame)
    requires
        id_wf(d, f.node_id.0 as nat),
        f.start <= path.len(),
        t.at(path.subrange(0, f.start as int)) == Some(id_trie(d, f.node_id.0 as nat)),
        f.child_count == node_of(d, f.node_id).child_count(),
        f.child_index == 0,
        f.next_id is None,
        f.node_depth == 0,
    ensures
        frame_ok(d, t, path, f),
{
    reveal(frame_ok);
    let n = node_of(d, f.node_id);
    lemma_id_node(d, f.node_id.0 as nat);
    if let NodeView::Line { .. } = n {
        lemma_inside_line(d, n, f.node_id.0 as nat, 0);
        assert(path.subrange(f.start as int, f.start as int) =~= Seq::<u8>::empty());
        assert(line_of(d, n).subrange(0, 0) =~= Seq::<u8>::empty());
    }
}

/// The last frame alone is sound.
proof fn lemma_frames_last(d: Seq<u8>, t: Trie<u64>, path: Seq<u8>, st: Seq<StackFrame>)
    requires
        frames_ok(d, t, path, st),
    ensures
        frames_ok(d, t, path, seq![st.last()]),
{
    assert(frame_ok(d, t, path, st[st.len() - 1]));
}

/// The last frame may change where it stays sound.
proof fn lemma_frames_update(
    d: Seq<u8>,
    t: Trie<u64>,
    path: Seq<u8>,
    st: Seq<StackFrame>,
    top: StackFrame,
)
    requires
        frames_ok(d, t, path, st),
        frame_ok(d, t, path, top),
        top.node_id == st.last().node_id,
        top.start == st.last().start,
    ensures
        frames_ok(d, t, path, st.update(st.len() - 1, top)),
{
    reveal(frame_link);
    let next = st.update(st.len() - 1, top);
    assert forall|i: int| 0 <= i < next.len() implies frame_ok(d, t, path, #[trigger] next[i]) by {
        assert(frame_ok(d, t, path, st[i]));
    }
    assert forall|i: int, j: int| 0 <= i && j == i + 1 && j < next.len() implies frame_link(
        d,
        path,
        #[trigger] next[i],
        #[trigger] next[j],
    ) by {
        assert(frame_link(d, path, st[i], st[j]));
    }
}

/// The last frame may change where it stays sound, and be followed by one for a child.
proof fn lemma_frames_push(
    d: Seq<u8>,
    t: Trie<u64>,
    path: Seq<u8>,
    st: Seq<StackFrame>,
    top: StackFrame,
    frame: StackFrame,
)
    requires
        frames_ok(d, t, path, st),
        frame_ok(d, t, path, top),
        top.node_id == st.last().node_id,
        top.start == st.last().start,
        frame_ok(d, t, path, frame),
        frame_link(d, path, top, frame),
    ensures
        frames_ok(d, t, path, st.update(st.len() - 1, top).push(frame)),
{
    lemma_frames_update(d, t, path, st, top);
    let mid = st.update(st.len() - 1, top);
    let next = mid.push(frame);
    assert forall|i: int| 0 <= i < next.len() implies frame_ok(d, t, path, #[trigger] next[i]) by {
        if i < mid.len() {
            assert(frame_ok(d, t, path, mid[i]));
        }
    }
    assert forall|i: int, j: int| 0 <= i && j == i + 1 && j < next.len() implies frame_link(
        d,
        path,
        #[trigger] next[i],
        #[trigger] next[j],
    ) by {
        if j < mid.len() {
            assert(frame_link(d, path, mid[i], mid[j]));
        }
    }
}

/// Moving down inside a line.
proof fn lemma_advance(d: Seq<u8>, t: Trie<u64>, before: Seq<u8>, st: Seq<StackFrame>, n: int)
    requires
        frames_ok(d, t, before, st),
        node_of(d, st.last().node_id) is Line,
        st.last().start + st.last().node_depth == before.len(),
        n > 0,
        st.last().node_depth + n <= line_of(d, node_of(d, st.last().node_id)).len(),
        st.last().node_depth + n <= usize::MAX,
    ensures
        ({
            let top = st.last();
            let v = node_of(d, top.node_id);
            let line = line_of(d, v);
            let after = before + line.subrange(top.node_depth as int, top.node_depth + n);
            let m = top.node_depth + n;
            &&& frames_ok(d, t, after, st)
            &&& after.subrange(top.start as int, top.start + m) == line.subrange(0, m)
            &&& v->Line_child is None || m < line.len() ==> frames_ok(
                d,
                t,
                after,
                st.update(st.len() - 1, StackFrame { node_depth: m as usize, ..top }),
            )
        }),
{
    reveal(frame_ok);
    let top = st.last();
    assert(frame_ok(d, t, before, top));
    let v = node_of(d, top.node_id);
    let line = line_of(d, v);
    let depth = top.node_depth as int;
    let m = depth + n;
    let after = before + line.subrange(depth, m);
    lemma_frames_path(d, t, before, after, st);
    assert(before.subrange(top.start as int, top.start + depth) == line.subrange(0, depth));
    assert forall|i: int| 0 <= i < m implies after[top.start + i] == line[i] by {
        if i < depth {
            assert(before.subrange(top.start as int, top.start + depth)[i] == line.subrange(
                0,
                depth,
            )[i]);
        } else {
            assert(line.subrange(depth, m)[i - depth] == line[i]);
        }
    }
    assert(after.subrange(top.start as int, top.start + m) =~= line.subrange(0, m));
    if v->Line_child is None || m < line.len() {
        let next = StackFrame { node_depth: m as usize, ..top };
        assert(frame_ok(d, t, after, st[st.len() - 1]));
        assert(frame_ok(d, t, after, next));
        lemma_frames_update(d, t, after, st, next);
    }
}

/// Moving down to the end of a line and into its child.
proof fn lemma_advance_into(
    d: Seq<u8>,
    t: Trie<u64>,
    before: Seq<u8>,
    st: Seq<StackFrame>,
    n: int,
    frame: StackFrame,
)
    requires
        frames_ok(d, t, before, st),
        node_of(d, st.last().node_id) is Line,
        st.last().start + st.last().node_depth == before.len(),
        n > 0,
        st.last().node_depth + n == line_of(d, node_of(d, st.last().node_id)).len(),
        st.last().node_depth + n <= usize::MAX,
        node_of(d, st.last().node_id)->Line_child == Some(frame.node_id.0 as nat),
        frame.child_count == node_of(d, frame.node_id).child_count(),
        frame.child_index == 0,
        frame.next_id is None,
        frame.node_depth == 0,
        frame.start == before.len() + n,
    ensures
        ({
            let top = st.last();
            let line = line_of(d, node_of(d, top.node_id));
            let after = before + line.subrange(top.node_depth as int, top.node_depth + n);
            frames_ok(
                d,
                t,
                after,
                st.update(
                    st.len() - 1,
                    StackFrame { node_depth: (top.node_depth + n - 1) as usize, ..top },
                ).push(frame),
            )
        }),
{
    reveal(frame_link);
    reveal(frame_ok);
    let top = st.last();
    let id = top.node_id.0 as nat;
    let v = node_of(d, top.node_id);
    let line = line_of(d, v);
    let depth = top.node_depth as int;
    let m = depth + n;
    let after = before + line.subrange(depth, m);
    let next = StackFrame { node_depth: (m - 1) as usize, ..top };
    assert(frame_ok(d, t, before, top));
    lemma_id_node(d, id);
    lemma_inside_line(d, v, id, depth);
    lemma_advance(d, t, before, st, n);
    assert(frame_ok(d, t, after, st[st.len() - 1]));
    let all = after.subrange(top.start as int, top.start + m);
    assert(after.subrange(top.start as int, top.start + m - 1) =~= all.subrange(0, m - 1));
    assert(line.subrange(0, m - 1) =~= line.subrange(0, m).subrange(0, m - 1));
    assert(frame_ok(d, t, after, next));
    assert(after[top.start + m - 1] == all[m - 1]);
    assert(line.subrange(0, m) =~= line);
    lemma_frame_place(d, t, after, next, 0);
    lemma_chain_at(line, line_end(d, v), m);
    lemma_at_concat(t, after.subrange(0, top.start as int), all);
    assert(after.subrange(0, top.start as int) + all =~= after.subrange(0, frame.start as int));
    assert(line.subrange(m, m) =~= Seq::<u8>::empty());
    lemma_fresh_frame(d, t, after, frame);
    lemma_frames_push(d, t, after, st, next, frame);
}

/// Moving down from a branch.
proof fn lemma_enter(
    d: Seq<u8>,
    t: Trie<u64>,
    before: Seq<u8>,
    st: Seq<StackFrame>,
    byte: u8,
    next: StackFrame,
    frame: StackFrame,
)
    requires
        frames_ok(d, t, before, st),
        node_of(d, st.last().node_id) is Branch,
        st.last().start + st.last().node_depth == before.len(),
        ({
            let v = node_of(d, st.last().node_id);
            &&& v->mask.contains(byte)
            &&& next == (StackFrame {
                child_index: next.child_index,
                next_id: next.next_id,
                ..st.last()
            })
            &&& next.child_index == rank(v->mask, byte as nat)
            &&& next.next_id matches Some(x) && x.0 == sibling(
                d,
                v->first->Some_0,
                (next.child_index + 1) as nat,
            )
            &&& frame.node_id.0 == child_place(d, v->mask, v->first, byte)
        }),
        frame.child_count == node_of(d, frame.node_id).child_count(),
        frame.child_index == 0,
        frame.next_id is None,
        frame.node_depth == 0,
        frame.start == before.len() + 1,
    ensures
        frames_ok(d, t, before.push(byte), st.update(st.len() - 1, next).push(frame)),
{
    reveal(frame_link);
    reveal(frame_ok);
    let top = st.last();
    let id = top.node_id.0 as nat;
    let v = node_of(d, top.node_id);
    let after = before.push(byte);
    assert(frame_ok(d, t, before, top));
    lemma_id_node(d, id);
    lemma_members(v->mask);
    lemma_siblings_sound(d, v->mask, v->first, v->Branch_value, id, rank(v->mask, byte as nat));
    lemma_frames_path(d, t, before, after, st);
    assert(frame_ok(d, t, after, st[st.len() - 1]));
    assert(frame_ok(d, t, after, next));
    assert(before.subrange(0, top.start as int) =~= before);
    lemma_at_push(t, before, byte);
    assert(after.subrange(0, frame.start as int) =~= after);
    assert(t.at(after) == Some(id_trie(d, frame.node_id.0 as nat))) by {
        reveal(node_trie);
    }
    lemma_fresh_frame(d, t, after, frame);
    lemma_frames_push(d, t, after, st, next, frame);
}

/// Moving up inside a line.
proof fn lemma_shrink(d: Seq<u8>, t: Trie<u64>, path: Seq<u8>, st: Seq<StackFrame>, m: int)
    requires
        frames_ok(d, t, path, st),
        0 <= m <= st.last().node_depth,
        st.last().start + st.last().node_depth == path.len(),
    ensures
        frames_ok(
            d,
            t,
            path.subrange(0, path.len() - m),
            st.update(
                st.len() - 1,
                StackFrame { node_depth: (st.last().node_depth - m) as usize, ..st.last() },
            ),
        ),
{
    reveal(frame_ok);
    let top = st.last();
    let next = StackFrame { node_depth: (top.node_depth - m) as usize, ..top };
    let after = path.subrange(0, path.len() - m);
    let v = node_of(d, top.node_id);
    assert(frame_ok(d, t, path, st[st.len() - 1]));
    assert(frame_ok(d, t, path, next)) by {
        if let NodeView::Line { .. } = v {
            let line = line_of(d, v);
            assert(path.subrange(top.start as int, top.start + next.node_depth) =~= path.subrange(
                top.start as int,
                top.start + top.node_depth,
            ).subrange(0, next.node_depth as int));
            assert(line.subrange(0, next.node_depth as int) =~= line.subrange(
                0,
                top.node_depth as int,
            ).subrange(0, next.node_depth as int));
        }
    }
    lemma_frames_update(d, t, path, st, next);
    lemma_frames_path(d, t, path, after, st.update(st.len() - 1, next));
}

/// Moving up out of a node.
proof fn lemma_pop(d: Seq<u8>, t: Trie<u64>, path: Seq<u8>, st: Seq<StackFrame>)
    requires
        frames_ok(d, t, path, st),
        st.len() > 1,
        st.last().node_depth == 0,
        st.last().start == path.len(),
    ensures
        path.len() > 0,
        st[st.len() - 2].start + st[st.len() - 2].node_depth == path.len() - 1,
        frames_ok(d, t, path.subrange(0, path.len() - 1), st.subrange(0, st.len() - 1)),
{
    reveal(frame_ok);
    reveal(frame_link);
    let rest = st.subrange(0, st.len() - 1);
    assert(frame_link(d, path, st[st.len() - 2], st[st.len() - 1]));
    assert forall|i: int| 0 <= i < rest.len() implies frame_ok(d, t, path, #[trigger] rest[i]) by {
        assert(frame_ok(d, t, path, st[i]));
    }
    assert forall|i: int, j: int| 0 <= i && j == i + 1 && j < rest.len() implies frame_link(
        d,
        path,
        #[trigger] rest[i],
        #[trigger] rest[j],
    ) by {
        assert(frame_link(d, path, st[i], st[j]));
    }
    assert(rest.last() == st[st.len() - 2]);
    lemma_frames_path(d, t, path, path.subrange(0, path.len() - 1), rest);
}

/// Back at the first frame, where the zipper's root is.
proof fn lemma_first(d: Seq<u8>, t: Trie<u64>, path: Seq<u8>, st: Seq<StackFrame>, depth: int, n: int)
    requires
        frames_ok(d, t, path, st),
        0 <= depth <= st[0].node_depth,
        st[0].start + depth <= n <= path.len(),
    ensures
        frames_ok(
            d,
            t,
            path.subrange(0, n),
            seq![StackFrame { node_depth: depth as usize, ..st[0] }],
        ),
{
    reveal(frame_ok);
    let f = st[0];
    let one = seq![f];
    assert(frame_ok(d, t, path, f));
    let near = path.subrange(0, f.start + f.node_depth);
    lemma_frame_path(d, t, path, near, f);
    lemma_shrink(d, t, near, one, f.node_depth - depth);
    let cut = near.subrange(0, near.len() - (f.node_depth - depth));
    let next = one.update(0, StackFrame { node_depth: depth as usize, ..f });
    lemma_frames_path(d, t, cut, path.subrange(0, n), next);
    assert(next =~= seq![StackFrame { node_depth: depth as usize, ..f }]);
}

/// A place in the middle of a line, from which one byte leads on and which has no value.
pub open spec fn is_plain(r: Option<Trie<u64>>) -> bool {
    rank(kids_of(r), 256) <= 1 && val_of(r) is None
}

impl<'tree, S: Storage, Value> ACTZipper<'tree, S, Value> {
    /// Bytes taken off behind the zipper's root are bytes of the relative path.
    proof fn lemma_moved_up(&self, before: &Self, n: int)
        requires
            self.inv(),
            self.tree == before.tree,
            self.origin_depth == before.origin_depth,
            0 <= n,
            before.origin_depth + n <= before.path@.len(),
            self.path@ == before.path@.subrange(0, before.path@.len() - n),
        ensures
            self.moved(before, up(before.rel(), n)),
    {
        assert(self.origin() =~= before.origin());
        assert(self.rel() =~= up(before.rel(), n));
    }

    /// The place that is `n` bytes up from the focus.
    proof fn lemma_place_up(&self, n: int)
        requires
            self.inv(),
            0 <= n <= self.rel().len(),
        ensures
            look(self.root(), up(self.rel(), n)) == self.whole().at(
                self.path@.subrange(0, self.path@.len() - n),
            ),
    {
        lemma_at_concat(self.whole(), self.origin(), up(self.rel(), n));
        assert(self.origin() + up(self.rel(), n) =~= self.path@.subrange(0, self.path@.len() - n));
    }

    /// Ascends any non-existent portion of the path, by `limit` bytes at most. Returns the number
    /// of bytes ascended.
    pub(crate) fn ascend_invalid(&mut self, limit: usize) -> (n: usize)
        requires
            old(self).wf(),
        ensures
            n <= limit,
            n <= old(self).rel().len(),
            final(self).moved(old(self), up(old(self).rel(), n as int)),
            n < limit && n < old(self).rel().len() ==> final(self).here() is Some,
            old(self).here() is Some ==> n == 0,
            forall|j: int| 0 <= j < n ==> look(old(self).root(), #[trigger] up(old(self).rel(), j)) is None,
    {
        proof {
            self.lemma_here();
        }
        let len = self.path.len();
        let mut cut: usize = self.invalid;
        if len - self.origin_depth < cut {
            cut = len - self.origin_depth;
        }
        if limit < cut {
            cut = limit;
        }
        proof {
            assert forall|j: int| 0 <= j < cut implies look(
                self.root(),
                #[trigger] up(self.rel(), j),
            ) is None by {
                self.lemma_place_up(j);
                let p = self.path@.subrange(0, self.path@.len() - j);
                if self.whole().has(p) {
                    lemma_at_prefix(self.whole(), p, self.valid() + 1);
                    assert(p.subrange(0, self.valid() + 1) =~= self.path@.subrange(
                        0,
                        self.valid() + 1,
                    ));
                }
            }
        }
        self.path.truncate(len - cut);
        self.invalid = self.invalid - cut;
        proof {
            let before = old(self).path@;
            lemma_frames_path(self.data(), self.whole(), before, self.path@, self.stack@);
            if self.invalid > 0 {
                assert(self.path@.subrange(0, self.valid() + 1) =~= before.subrange(
                    0,
                    self.valid() + 1,
                ));
            }
            self.lemma_moved_up(old(self), cut as int);
            self.lemma_here();
        }
        cut
    }

    /// The places behind the zipper in a line.
    proof fn lemma_plain_up(&self, n: int)
        requires
            self.inv(),
            self.invalid == 0,
            n <= self.top().node_depth,
            n <= self.rel().len(),
        ensures
            forall|j: int|
                1 <= j <= n ==> is_plain(look(self.root(), #[trigger] up(self.rel(), j))),
    {
        let d = self.data();
        let t = self.whole();
        let top = self.top();
        lemma_frame_facts(d, t, self.path@, self.stack@, self.stack@.len() - 1);
        lemma_id_node(d, top.node_id.0 as nat);
        assert forall|j: int| 1 <= j <= n implies is_plain(
            look(self.root(), #[trigger] up(self.rel(), j)),
        ) by {
            self.lemma_place_up(j);
            let depth = top.node_depth - j;
            lemma_frame_place(d, t, self.path@, top, depth);
            lemma_inside_line(d, self.cur_node@, top.node_id.0 as nat, depth);
            lemma_one(line_of(d, self.cur_node@)[depth]);
            assert(self.path@.subrange(0, top.start + depth) =~= self.path@.subrange(
                0,
                self.path@.len() - j,
            ));
        }
    }

    /// Moves up `n` bytes inside a line.
    fn retreat_line(&mut self, n: usize)
        requires
            old(self).inv(),
            old(self).invalid == 0,
            n <= old(self).top().node_depth,
            n <= old(self).rel().len(),
        ensures
            final(self).moved(old(self), up(old(self).rel(), n as int)),
            final(self).here() is Some,
    {
        let ghost d = self.data();
        let ghost t = self.whole();
        let ghost before = self.path@;
        let ghost st = self.stack@;
        let len = self.path.len();
        let last = self.stack.len() - 1;
        let mut top = self.stack[last];
        proof {
            lemma_frame_facts(d, t, before, st, last as int);
            lemma_starts_ascend(d, t, before, st);
            if last > 0 {
                assert(st[0].start + st[0].node_depth < st[last as int].start);
            }
            lemma_shrink(d, t, before, st, n as int);
        }
        top.node_depth = top.node_depth - n;
        self.stack[last] = top;
        self.path.truncate(len - n);
        proof {
            self.lemma_moved_up(old(self), n as int);
            self.lemma_here();
        }
    }

    /// Moves up out of a node.
    fn leave_node(&mut self)
        requires
            old(self).inv(),
            old(self).invalid == 0,
            old(self).top().node_depth == 0,
            old(self).rel().len() > 0,
        ensures
            final(self).moved(old(self), up(old(self).rel(), 1)),
            final(self).here() is Some,
    {
        let ghost d = self.data();
        let ghost t = self.whole();
        let ghost before = self.path@;
        let ghost st = self.stack@;
        let len = self.path.len();
        let last = self.stack.len() - 1;
        proof {
            if last == 0 {
                assert(self.rel().len() == 0);
            }
            lemma_pop(d, t, before, st);
            lemma_frame_facts(d, t, before, st, last - 1);
            lemma_frame_facts(d, t, before, st, 0);
            lemma_id_node(d, st[last - 1].node_id.0 as nat);
        }
        self.stack.truncate(last);
        let prev = self.stack[last - 1];
        self.cur_node = self.tree.get_node(prev.node_id).0;
        self.path.truncate(len - 1);
        proof {
            self.lemma_moved_up(old(self), 1);
            self.lemma_here();
        }
    }

    /// Moves up inside a line, or out of a node, by `most` bytes at most. Returns the number of
    /// bytes ascended.
    pub(crate) fn step_up(&mut self, most: usize) -> (n: usize)
        requires
            old(self).wf(),
            old(self).here() is Some,
            old(self).rel().len() > 0,
            most > 0,
        ensures
            1 <= n <= most,
            n <= old(self).rel().len(),
            final(self).moved(old(self), up(old(self).rel(), n as int)),
            final(self).here() is Some,
            forall|j: int|
                1 <= j < n ==> is_plain(look(old(self).root(), #[trigger] up(old(self).rel(), j))),
    {
        proof {
            self.lemma_here();
        }
        let depth = self.stack[self.stack.len() - 1].node_depth;
        if depth > 0 {
            let mut n: usize = depth;
            if self.path.len() - self.origin_depth < n {
                n = self.path.len() - self.origin_depth;
            }
            if most < n {
                n = most;
            }
            proof {
                self.lemma_plain_up(n as int);
            }
            self.retreat_line(n);
            n
        } else {
            self.leave_node();
            1
        }
    }

    /// Resets the zipper's focus back to the root.
    pub fn reset(&mut self)
        requires
            old(self).wf(),
        ensures
            final(self).moved(old(self), Seq::empty()),
    {
        let ghost d = self.data();
        let ghost t = self.whole();
        let ghost before = self.path@;
        let ghost st = self.stack@;
        proof {
            self.lemma_here();
            lemma_frame_facts(d, t, before, st, 0);
            lemma_id_node(d, st[0].node_id.0 as nat);
            lemma_first(
                d,
                t,
                before,
                st,
                self.origin_node_depth as int,
                self.origin_depth as int,
            );
            lemma_starts_ascend(d, t, before, st);
            if st.len() > 1 {
                assert(st[0].start + st[0].node_depth < st[st.len() - 1].start);
            }
        }
        let mut first = self.stack[0];
        self.cur_node = self.tree.get_node(first.node_id).0;
        first.node_depth = self.origin_node_depth;
        self.stack.truncate(1);
        self.stack[0] = first;
        self.path.truncate(self.origin_depth);
        self.invalid = self.origin_invalid;
        proof {
            assert(self.stack@ =~= seq![first]);
            if self.invalid > 0 {
                assert(self.path@.subrange(0, self.valid() + 1) =~= before.subrange(
                    0,
                    old(self).valid() + 1,
                ));
            }
            let n = before.len() - self.origin_depth;
            self.lemma_moved_up(old(self), n);
            assert(up(old(self).rel(), n) =~= Seq::<u8>::empty());
        }
    }
}

/// A set of one byte.
pub(crate) proof fn lemma_single(s: Set<u8>)
    ensures
        rank(s, 256) == 1 ==> members(s).len() == 1 && s == Set::<u8>::empty().insert(members(s)[0]),
{
    lemma_members(s);
    if rank(s, 256) == 1 {
        let b = members(s)[0];
        assert forall|c: u8| s.contains(c) == Set::<u8>::empty().insert(b).contains(c) by {
            if s.contains(c) {
                assert(members(s)[rank(s, c as nat) as int] == c);
            }
        }
        assert(s =~= Set::<u8>::empty().insert(b));
    }
}

/// A set of one byte has one member.
pub(crate) proof fn lemma_one(b: u8)
    ensures
        rank(Set::<u8>::empty().insert(b), 256) == 1,
{
    lemma_rank_is_len(Set::<u8>::empty().insert(b));
}

/// The byte next to `b` in a set, above it or below it.
pub open spec fn is_neighbour(s: Set<u8>, b: u8, next: bool, r: Option<u8>) -> bool {
    match r {
        Some(c) => {
            &&& s.contains(c)
            &&& if next {
                b < c && forall|x: u8| b < x < c ==> !#[trigger] s.contains(x)
            } else {
                c < b && forall|x: u8| c < x < b ==> !#[trigger] s.contains(x)
            }
        },
        None => forall|x: u8| #[trigger]
            s.contains(x) ==> if next {
                x <= b
            } else {
                b <= x
            },
    }
}

/// The neighbours of a member are those of the rank before and behind it.
proof fn lemma_neighbour_rank(s: Set<u8>, b: u8)
    requires
        s.contains(b),
    ensures
        ({
            let k = rank(s, b as nat) as int;
            let n = members(s).len() as int;
            &&& 0 <= k < n
            &&& is_neighbour(
                s,
                b,
                true,
                if k + 1 < n {
                    Some(members(s)[k + 1])
                } else {
                    None
                },
            )
            &&& is_neighbour(
                s,
                b,
                false,
                if k > 0 {
                    Some(members(s)[k - 1])
                } else {
                    None
                },
            )
        }),
{
    lemma_members(s);
    let k = rank(s, b as nat) as int;
    let n = members(s).len() as int;
    assert(members(s)[k] == b);
    assert forall|x: u8| s.contains(x) implies {
        let m = rank(s, x as nat) as int;
        &&& 0 <= m < n
        &&& members(s)[m] == x
        &&& (m < k ==> x < b)
        &&& (m > k ==> x > b)
        &&& (m == k ==> x == b)
        &&& (k + 1 < n && m > k + 1 ==> x > members(s)[k + 1])
        &&& (k > 0 && m < k - 1 ==> x < members(s)[k - 1])
    } by {
        let m = rank(s, x as nat) as int;
        assert(members(s)[m] == x);
    }
    if k + 1 < n {
        assert(s.contains(members(s)[k + 1]));
    }
    if k > 0 {
        assert(s.contains(members(s)[k - 1]));
    }
}

impl<'tree, S: Storage, Value> ACTZipper<'tree, S, Value> {
    /// The rank of the byte next to the one that leads to the focus, where there is one.
    pub(crate) fn sibling_index(&self, next: bool) -> (r: Option<usize>)
        requires
            self.wf(),
            self.here() is Some,
            self.rel().len() > 0,
        ensures
            ({
                let kids = kids_of(look(self.root(), up(self.rel(), 1)));
                match r {
                    Some(i) => {
                        &&& i < members(kids).len()
                        &&& is_neighbour(kids, self.rel().last(), next, Some(members(kids)[i as int]))
                    },
                    None => is_neighbour(kids, self.rel().last(), next, None),
                }
            }),
    {
        let ghost d = self.data();
        let ghost t = self.whole();
        let ghost st = self.stack@;
        let ghost b = self.rel().last();
        let ghost before = self.path@.subrange(0, self.path@.len() - 1);
        let last = self.stack.len() - 1;
        let top = self.stack[last];
        proof {
            self.lemma_here();
            self.lemma_place_up(1);
            lemma_frame_facts(d, t, self.path@, st, last as int);
            lemma_id_node(d, top.node_id.0 as nat);
            assert(b == self.path@.last());
            lemma_one(b);
            lemma_members(Set::<u8>::empty().insert(b));
        }
        if top.node_depth > 0 {
            // Along a line there are no siblings.
            proof {
                lemma_last_of_line(d, t, self.path@, top);
                assert(before =~= self.path@.subrange(0, top.start + top.node_depth - 1));
            }
            return None;
        }
        proof {
            if last == 0 {
                assert(self.rel().len() == 0);
            }
            lemma_frame_facts(d, t, self.path@, st, last - 1);
            lemma_parent(d, t, self.path@, st);
        }
        let parent = self.stack[last - 1];
        proof {
            let kids = kids_of(look(self.root(), up(self.rel(), 1)));
            assert(kids.contains(b));
            lemma_neighbour_rank(kids, b);
            lemma_members(kids);
        }
        if next {
            let idx = parent.child_index + 1;
            if idx >= parent.child_count {
                return None;
            }
            Some(idx)
        } else {
            if parent.child_index == 0 {
                return None;
            }
            Some(parent.child_index - 1)
        }
    }
}

/// The byte before the zipper in a line is the only one that leads on from the place before.
proof fn lemma_last_of_line(d: Seq<u8>, t: Trie<u64>, path: Seq<u8>, f: StackFrame)
    requires
        frame_ok(d, t, path, f),
        f.node_depth > 0,
        f.start + f.node_depth == path.len(),
    ensures
        t.at(path.subrange(0, f.start + f.node_depth - 1)) matches Some(u) && u.kids.dom() == Set::<
            u8,
        >::empty().insert(path.last()),
{
    reveal(frame_ok);
    let v = node_of(d, f.node_id);
    let id = f.node_id.0 as nat;
    lemma_id_node(d, id);
    lemma_inside_line(d, v, id, f.node_depth - 1);
    lemma_frame_place(d, t, path, f, f.node_depth - 1);
    assert(path.subrange(f.start as int, f.start + f.node_depth)[f.node_depth - 1] == line_of(
        d,
        v,
    ).subrange(0, f.node_depth as int)[f.node_depth - 1]);
}

/// What leads on from the node above the last one, and which of its children the last one is.
proof fn lemma_parent(d: Seq<u8>, t: Trie<u64>, path: Seq<u8>, st: Seq<StackFrame>)
    requires
        frames_ok(d, t, path, st),
        st.len() > 1,
        st.last().node_depth == 0,
        st.last().start == path.len(),
    ensures
        path.len() > 0,
        t.at(path.subrange(0, path.len() - 1)) matches Some(u) && {
            &&& u.kids.dom().contains(path.last())
            &&& st[st.len() - 2].child_index == rank(u.kids.dom(), path.last() as nat)
            &&& st[st.len() - 2].child_count == rank(u.kids.dom(), 256)
        },
{
    let f = st[st.len() - 2];
    lemma_frame_facts(d, t, path, st, st.len() - 2);
    assert(frame_link(d, path, st[st.len() - 2], st[st.len() - 1]));
    reveal(frame_link);
    lemma_frame_place(d, t, path, f, f.node_depth as int);
    let v = node_of(d, f.node_id);
    let id = f.node_id.0 as nat;
    lemma_id_node(d, id);
    assert(path.subrange(0, f.start + f.node_depth) =~= path.subrange(0, path.len() - 1));
    match v {
        NodeView::Branch { .. } => lemma_branch_kids(d, v, id),
        NodeView::Line { .. } => {
            lemma_inside_line(d, v, id, f.node_depth as int);
            let one = Set::<u8>::empty().insert(path.last());
            lemma_one(path.last());
            lemma_members(one);
            assert(one.contains(path.last()));
            assert(rank(one, path.last() as nat) < 1);
        },
    }
}

impl<'tree, S: Storage, Value> ACTZipper<'tree, S, Value> {
    /// The value that `path` leads to from the focus, where there is one. The zipper stays where
    /// it is.
    pub fn get_value_at(&self, path: &[u8]) -> (r: Option<u64>)
        requires
            self.wf(),
        ensures
            r == val_of(look(self.here(), path@)),
    {
        proof {
            self.lemma_here();
        }
        if self.invalid > 0 {
            return None;
        }
        let ghost d = self.data();
        let top = self.stack[self.stack.len() - 1];
        let ghost id = top.node_id.0 as nat;
        proof {
            lemma_frame_facts(d, self.whole(), self.path@, self.stack@, self.stack@.len() - 1);
            lemma_id_node(d, id);
            assert(path@.subrange(0, path@.len() as int) =~= path@);
        }
        match self.cur_node {
            Node::Branch(_) => self.tree.value_below(self.cur_node, path, 0, Ghost(id)),
            Node::Line(line) => {
                proof {
                    lemma_inside_line(d, self.cur_node@, id, top.node_depth as int);
                }
                let bytes = self.tree.get_line(line.path);
                let rest = part(bytes, top.node_depth, bytes.len());
                proof {
                    lemma_chain_lookup(rest@, line_end(d, self.cur_node@), path@);
                }
                if !starts_with(path, rest) {
                    return None;
                }
                match line.child {
                    None => if rest.len() == path.len() {
                        line.value
                    } else {
                        None
                    },
                    Some(child) => {
                        proof {
                            lemma_id_node(d, child.0 as nat);
                        }
                        let node = self.tree.get_node(child).0;
                        self.tree.value_below(node, path, rest.len(), Ghost(child.0 as nat))
                    },
                }
            },
        }
    }
}

impl<'tree, S: Storage, Value> ACTZipper<'tree, S, Value> {
    /// The number of values at and below the focus, where a machine word can tell it.
    pub(crate) fn count_below(&self) -> (r: Option<usize>)
        requires
            self.wf(),
        ensures
            ({
                let count = match self.here() {
                    Some(t) => count_vals(t),
                    None => 0,
                };
                match r {
                    Some(n) => n == count,
                    None => count > usize::MAX,
                }
            }),
    {
        proof {
            self.lemma_here();
        }
        if self.invalid > 0 {
            return Some(0);
        }
        let ghost d = self.data();
        let top = self.stack[self.stack.len() - 1];
        let ghost id = top.node_id.0 as nat;
        proof {
            lemma_frame_facts(d, self.whole(), self.path@, self.stack@, self.stack@.len() - 1);
            lemma_id_node(d, id);
            if self.cur_node is Line {
                // The bytes behind the zipper in a line lead past no values.
                lemma_inside_line(d, self.cur_node@, id, 0);
                lemma_frame_place(
                    d,
                    self.whole(),
                    self.path@,
                    top,
                    top.node_depth as int,
                );
                let line = line_of(d, self.cur_node@);
                lemma_count_chain(line.subrange(0, line.len() as int), line_end(d, self.cur_node@));
                lemma_count_chain(
                    line.subrange(top.node_depth as int, line.len() as int),
                    line_end(d, self.cur_node@),
                );
            }
        }
        self.tree.count_node(self.cur_node, Ghost(id))
    }
}

} // verus!

//! Building a compact trie from a stream of ordered paths.

use vstd::prelude::*;

use crate::arena_compact::counters::Counters;
use crate::arena_compact::file::{
    file_trie, file_wf, history_wf, lemma_no_trailer, lemma_with_root, root_of, roots_of,
};
use crate::arena_compact::layout::{
    behind_line, build, build_along, build_kids, denotes, is_prefix, lemma_branch, lemma_build_chain, lemma_build_kids_agree,
    lemma_build_kids_append, lemma_build_kids_gap, lemma_build_kids_grows, lemma_denotes_stable, lemma_make_node_grows, lemma_push_node,
    lemma_with_root_len, make_node,
    push_node, stream_layout, with_root, zeros, Arena,
};
use crate::arena_compact::meaning::{
    extends, id_trie, id_wf, lemma_extends_append, node_wf, ARENA_START,
};
use crate::arena_compact::node::{Node, NodeBranch, NodeId, NodeView};
use crate::arena_compact::stream_writer::{
    lemma_stream_grown_trans, stream_grown, StreamError, StreamWriter,
};
use crate::arena_compact::tree::{ACTVec, ArenaCompactTree};
use crate::arena_compact::varint::{lemma_le_bytes_len, push_le};
use crate::arena_compact::writer::{node_views, push_zeros};
use crate::path_map::map::{put, Edit};
use crate::slices::{find_prefix_overlap, lemma_overlap, part, push_slice};
use crate::trie::{chain, lemma_link, Trie};
use crate::trie_order::less;
use crate::utils::bits::{lemma_members, lemma_rank_gap, lemma_rank_is_len, members, rank};
use crate::utils::byte_mask::{BitMask, ByteMask};

verus! {

/// A single in-construction trie node.
///
/// One frame exists per byte of the most recently pushed path. A frame accumulates completed child
/// subtrees, in ascending byte order, until the input stream moves past it, at which point it is
/// sealed and written to the arena.
struct StreamFrame {
    /// Bytes of the children attached so far.
    mask: ByteMask,
    /// Completed child nodes, parallel to the set bits of `mask`.
    children: Vec<Node>,
    /// Value at this node, if the exact path was pushed.
    value: Option<u64>,
    /// What the children stand for.
    kids: Ghost<Map<u8, Trie<u64>>>,
}

impl StreamFrame {
    fn empty() -> (r: Self)
        ensures
            r.mask@ == Set::<u8>::empty(),
            r.children@.len() == 0,
            r.value is None,
            r.kids@ == Map::<u8, Trie<u64>>::empty(),
    {
        StreamFrame {
            mask: ByteMask::new(),
            children: Vec::new(),
            value: None,
            kids: Ghost(Map::empty()),
        }
    }

    /// A frame with no children and no value is a pure pass-through and can be folded into a line
    /// node instead of becoming a branch node.
    fn is_passthrough(&self) -> (r: bool)
        ensures
            r == (self.mask@ == Set::<u8>::empty() && self.value is None),
    {
        self.mask.is_empty_mask() && self.value.is_none()
    }

    /// The children are there as nodes.
    spec fn ok(&self, bytes: Seq<u8>) -> bool {
        &&& self.kids@.dom() == self.mask@
        &&& self.children@.len() == rank(self.mask@, 256)
        &&& forall|b: u8| #[trigger]
            self.mask@.contains(b) ==> rank(self.mask@, b as nat) < self.children@.len()
                && denotes(
                bytes,
                self.children@[rank(self.mask@, b as nat) as int]@,
                self.kids@[b],
            )
    }

    /// The place without the child that is still open.
    spec fn closed_part(&self) -> Trie<u64> {
        Trie { val: self.value, kids: self.kids@ }
    }

    proof fn lemma_ok_grows(&self, bytes: Seq<u8>, more: Seq<u8>)
        requires
            self.ok(bytes),
            extends(bytes, more),
        ensures
            self.ok(more),
    {
        assert forall|b: u8| #[trigger] self.mask@.contains(b) implies rank(self.mask@, b as nat)
            < self.children@.len() && denotes(
            more,
            self.children@[rank(self.mask@, b as nat) as int]@,
            self.kids@[b],
        ) by {
            lemma_denotes_stable(
                bytes,
                more,
                self.children@[rank(self.mask@, b as nat) as int]@,
                self.kids@[b],
            );
        }
    }
}

/// The place of frame `d` with all that is below it: its finished children, and the open one to
/// which the path leads.
spec fn open_trie(st: Seq<StreamFrame>, path: Seq<u8>, d: int) -> Trie<u64>
    decreases st.len() - d,
{
    if d < 0 || d >= st.len() {
        Trie::empty()
    } else if d + 1 >= st.len() {
        st[d].closed_part()
    } else {
        Trie {
            val: st[d].value,
            kids: st[d].kids@.insert(path[d], open_trie(st, path, d + 1)),
        }
    }
}

/// All finished children of a frame come before the open one.
spec fn frames_ok(bytes: Seq<u8>, st: Seq<StreamFrame>, path: Seq<u8>) -> bool {
    &&& 1 <= st.len() <= path.len() + 1
    &&& forall|d: int| 0 <= d < st.len() ==> (#[trigger] st[d]).ok(bytes)
    &&& forall|d: int, b: u8|
        0 <= d < st.len() - 1 && #[trigger] st[d].mask@.contains(b) ==> b < path[d]
}

/// The arena with all the finished children of the first `d` frames.
spec fn arena_upto(st: Seq<StreamFrame>, d: int) -> Arena
    decreases d,
{
    if d <= 0 {
        Arena::start()
    } else {
        build_kids(arena_upto(st, d - 1), st[d - 1].closed_part(), 256).0
    }
}

/// The finished children of the frames are in the arena, in the order in which a trie is built.
#[verifier::opaque]
spec fn laid_out(st: Seq<StreamFrame>, a: Arena) -> bool {
    &&& a == arena_upto(st, st.len() as int)
    &&& forall|d: int|
        0 <= d < st.len() ==> node_views((#[trigger] st[d]).children@) == build_kids(
            arena_upto(st, d),
            st[d].closed_part(),
            256,
        ).1
}

/// Only the children of the frames matter.
proof fn lemma_arena_agree(st: Seq<StreamFrame>, st2: Seq<StreamFrame>, d: int)
    requires
        d <= st.len(),
        d <= st2.len(),
        forall|i: int| 0 <= i < d ==> (#[trigger] st[i]).kids@ == st2[i].kids@,
    ensures
        arena_upto(st, d) == arena_upto(st2, d),
    decreases d,
{
    if d > 0 {
        lemma_arena_agree(st, st2, d - 1);
        assert(st[d - 1].kids@ == st2[d - 1].kids@);
        lemma_build_kids_agree(
            arena_upto(st, d - 1),
            st[d - 1].closed_part(),
            st2[d - 1].closed_part(),
            256,
        );
    }
}

/// Frames without finished children add nothing.
proof fn lemma_arena_through(st: Seq<StreamFrame>, i: int, top: int)
    requires
        0 <= i <= top <= st.len(),
        forall|d: int| i <= d < top ==> (#[trigger] st[d]).kids@ == Map::<u8, Trie<u64>>::empty(),
    ensures
        arena_upto(st, top) == arena_upto(st, i),
    decreases top - i,
{
    if i < top {
        lemma_arena_through(st, i, top - 1);
        assert(st[top - 1].kids@ == Map::<u8, Trie<u64>>::empty());
        lemma_build_kids_gap(arena_upto(st, top - 1), st[top - 1].closed_part(), 0, 256);
    }
}

/// New frames without children keep the arena as it is.
proof fn lemma_laid_out_open(
    st: Seq<StreamFrame>,
    opened: Seq<StreamFrame>,
    a: Arena,
)
    requires
        laid_out(st, a),
        st.len() <= opened.len(),
        forall|d: int|
            0 <= d < st.len() ==> (#[trigger] opened[d]).kids@ == st[d].kids@
                && opened[d].children@ == st[d].children@,
        forall|d: int|
            st.len() <= d < opened.len() ==> (#[trigger] opened[d]).kids@ == Map::<
                u8,
                Trie<u64>,
            >::empty() && opened[d].children@.len() == 0,
    ensures
        laid_out(opened, a),
{
    reveal(laid_out);
    let n = st.len() as int;
    assert forall|i: int| 0 <= i < n implies (#[trigger] st[i]).kids@ == opened[i].kids@ by {
        assert(opened[i].kids@ == st[i].kids@);
    }
    lemma_arena_agree(st, opened, n);
    lemma_arena_through(opened, n, opened.len() as int);
    assert forall|d: int| 0 <= d < opened.len() implies node_views(
        (#[trigger] opened[d]).children@,
    ) == build_kids(arena_upto(opened, d), opened[d].closed_part(), 256).1 by {
        if d < n {
            assert(st[d].kids@ == opened[d].kids@);
            lemma_arena_agree(st, opened, d);
            lemma_build_kids_agree(
                arena_upto(st, d),
                st[d].closed_part(),
                opened[d].closed_part(),
                256,
            );
        } else {
            lemma_build_kids_gap(arena_upto(opened, d), opened[d].closed_part(), 0, 256);
            assert(node_views(opened[d].children@) =~= Seq::empty());
        }
    }
}

/// The finished children of the root are the first in the arena.
proof fn lemma_laid_out_root(st: Seq<StreamFrame>, a: Arena)
    requires
        laid_out(st, a),
        st.len() == 1,
    ensures
        (a, node_views(st[0].children@)) == build_kids(Arena::start(), st[0].closed_part(), 256),
{
    reveal(laid_out);
    assert(arena_upto(st, 1) == build_kids(arena_upto(st, 0), st[0].closed_part(), 256).0);
    assert(node_views(st[0].children@) == build_kids(
        arena_upto(st, 0),
        st[0].closed_part(),
        256,
    ).1);
}

/// The file of a stream is as long as the arena with the root, and the zeros.
proof fn lemma_stream_len(t: Trie<u64>)
    ensures
        ({
            let (a, ns) = build_kids(Arena::start(), t, 256);
            let (a1, n) = make_node(a, t.kids.dom(), ns, Seq::empty(), t.val);
            &&& stream_layout(t).len() == push_node(a1.bytes, n).len() + 8
            &&& a.bytes.len() <= a1.bytes.len() <= push_node(a1.bytes, n).len()
        }),
{
    let (a, ns) = build_kids(Arena::start(), t, 256);
    let (a1, n) = make_node(a, t.kids.dom(), ns, Seq::empty(), t.val);
    lemma_build_kids_grows(Arena::start(), t, 256);
    lemma_make_node_grows(a, t.kids.dom(), ns, Seq::empty(), t.val);
    lemma_with_root_len(push_node(a1.bytes, n), a1.bytes.len());
}

/// The file that ends behind the root and zeros.
proof fn lemma_finished(all: Seq<u8>, root: nat, content: Trie<u64>, a: Arena, n: NodeView)
    requires
        ({
            let (b, ns) = build_kids(Arena::start(), content, 256);
            (a, n) == make_node(b, content.kids.dom(), ns, Seq::empty(), content.val)
        }),
        all == push_node(a.bytes, n),
        root == a.bytes.len(),
        is_prefix(Arena::start().bytes, a.bytes),
        a.bytes.len() < all.len() <= u64::MAX,
        id_wf(all, root),
        id_trie(all, root) == content,
    ensures
        ({
            let d = all + zeros(8);
            let file = with_root(d, root);
            &&& d.len() >= ARENA_START
            &&& d.subrange(0, 16) == Arena::start().bytes
            &&& file_wf(file)
            &&& history_wf(file)
            &&& file_trie(file) == content
            &&& root_of(file) == root
            &&& roots_of(file) == seq![root_of(file)]
            &&& file == stream_layout(content)
        }),
{
    let d = all + zeros(8);
    let file = with_root(d, root);
    assert(d.subrange(16, d.len() as int) =~= all.subrange(16, all.len() as int) + zeros(8));
    assert(file =~= with_root(all, root) + zeros(8));
    lemma_with_root(all, root, zeros(8));
    assert(file.subrange(file.len() - 8, file.len() as int) =~= zeros(8));
    lemma_no_trailer(file);
    assert(roots_of(file) =~= seq![root_of(file)]);
    assert forall|i: int| 0 <= i < 16 implies d[i] == Arena::start().bytes[i] by {
        assert(Arena::start().bytes[i] == a.bytes[i]);
        assert(all[i] == a.bytes[i]);
    }
    assert(d.subrange(0, 16) =~= Arena::start().bytes);
}

/// The arena in which all the children of frame `d` are, the open one too.
spec fn arena_goal(st: Seq<StreamFrame>, path: Seq<u8>, d: int) -> Arena {
    build_kids(arena_upto(st, d), open_trie(st, path, d), 256).0
}

/// All finished children of the frames come before the open one.
spec fn ascending(st: Seq<StreamFrame>, path: Seq<u8>) -> bool {
    forall|d: int, b: u8|
        0 <= d < st.len() - 1 && #[trigger] st[d].kids@.contains_key(b) ==> b < path[d]
}

proof fn lemma_ascending(bytes: Seq<u8>, st: Seq<StreamFrame>, path: Seq<u8>)
    requires
        frames_ok(bytes, st, path),
    ensures
        ascending(st, path),
{
    assert forall|d: int, b: u8|
        0 <= d < st.len() - 1 && #[trigger] st[d].kids@.contains_key(b) implies b < path[d] by {
        assert(st[d].ok(bytes));
        assert(st[d].kids@.dom().contains(b));
        assert(st[d].mask@.contains(b));
    }
}

/// The open child of a frame is built behind the finished ones.
proof fn lemma_goal_open(st: Seq<StreamFrame>, path: Seq<u8>, d: int)
    requires
        ascending(st, path),
        0 <= d < st.len() - 1,
    ensures
        arena_goal(st, path, d) == build(
            arena_upto(st, d + 1),
            open_trie(st, path, d + 1),
            Seq::empty(),
        ).0,
{
    assert forall|c: u8| #[trigger] st[d].closed_part().kids.contains_key(c) implies c
        < path[d] by {
        assert(st[d].kids@.contains_key(c));
    }
    lemma_build_kids_append(
        arena_upto(st, d),
        st[d].closed_part(),
        open_trie(st, path, d),
        path[d],
        open_trie(st, path, d + 1),
    );
}

/// Building a frame builds the children of those below it.
proof fn lemma_goal_below(
    st: Seq<StreamFrame>,
    path: Seq<u8>,
    d: int,
    start: int,
    prefix: Seq<u8>,
)
    requires
        ascending(st, path),
        0 <= d <= start < st.len() - 1,
        !open_trie(st, path, start).is_link(),
    ensures
        arena_goal(st, path, start).bytes.len() <= build(
            arena_upto(st, d),
            open_trie(st, path, d),
            prefix,
        ).0.bytes.len(),
    decreases start - d,
{
    let t = open_trie(st, path, d);
    let a = arena_upto(st, d);
    if t.is_link() && t.kids.contains_key(t.link_byte()) {
        let b = t.link_byte();
        lemma_link(t);
        assert(t.kids.dom() == Set::<u8>::empty().insert(b));
        assert(t.kids.dom().contains(path[d]));
        assert(b == path[d]);
        assert forall|c: u8| !#[trigger] st[d].closed_part().kids.contains_key(c) by {
            if st[d].kids@.contains_key(c) {
                assert(t.kids.dom().contains(c));
            }
        }
        lemma_build_kids_gap(a, st[d].closed_part(), 0, 256);
        lemma_goal_below(st, path, d + 1, start, prefix.push(b));
    } else {
        let (a1, ns) = build_kids(a, t, 256);
        lemma_make_node_grows(a1, t.kids.dom(), ns, prefix, t.val);
        if d < start {
            lemma_goal_open(st, path, d);
            lemma_goal_below(st, path, d + 1, start, Seq::empty());
        }
    }
}

/// What the top frame and the bytes to it take is no more than the children of frame `target` take.
proof fn lemma_goal_of_top(
    st: Seq<StreamFrame>,
    path: Seq<u8>,
    target: int,
    start: int,
    a: Arena,
)
    requires
        laid_out(st, a),
        frames_ok(a.bytes, st, path),
        0 <= target <= start < st.len() - 1,
        start > target ==> st[start].mask@ != Set::<u8>::empty() || st[start].value is Some,
        forall|d: int|
            start < d < st.len() - 1 ==> (#[trigger] st[d]).value is None && st[d].mask@ == Set::<
                u8,
            >::empty(),
        !st.last().closed_part().is_link(),
    ensures
        make_node(
            a,
            st.last().mask@,
            node_views(st.last().children@),
            path.subrange(start + 1, st.len() - 1),
            st.last().value,
        ).0.bytes.len() <= arena_goal(st, path, target).bytes.len(),
{
    reveal(laid_out);
    let top = st.len() - 1;
    let done = st[top].closed_part();
    let seg = path.subrange(start + 1, top);
    let none = Seq::<u8>::empty();
    assert(st[top] == st.last());
    assert(st[top].ok(a.bytes));
    lemma_ascending(a.bytes, st, path);
    assert forall|d: int| start + 1 <= d < top implies (#[trigger] st[d]).value is None
        && st[d].kids@.dom() == Set::<u8>::empty() && st[d].kids@ == Map::<
        u8,
        Trie<u64>,
    >::empty() by {
        assert(st[d].ok(a.bytes));
        assert(st[d].kids@ =~= Map::<u8, Trie<u64>>::empty());
    }
    lemma_arena_through(st, start + 1, top);
    let from = arena_upto(st, start + 1);
    assert(arena_upto(st, st.len() as int) == build_kids(from, done, 256).0);
    assert(node_views(st[top].children@) == build_kids(from, done, 256).1);
    lemma_build_chain(from, seg, done, none);
    assert(none + seg =~= seg);
    lemma_open_chain(st, path, start + 1, top);
    lemma_goal_open(st, path, start);
    if target < start {
        let t = open_trie(st, path, start);
        assert(st[start].ok(a.bytes));
        if t.is_link() {
            let only = choose|b: u8| t.kids.dom() == Set::<u8>::empty().insert(b);
            assert(exists|c: u8| st[start].mask@.contains(c)) by {
                if forall|x: u8| !st[start].mask@.contains(x) {
                    assert(st[start].mask@ =~= Set::<u8>::empty());
                }
            }
            let c = choose|c: u8| st[start].mask@.contains(c);
            assert(st[start].kids@.dom().contains(c));
            assert(st[start].kids@.contains_key(c));
            assert(t.kids.dom().contains(c));
            assert(t.kids.dom().contains(path[start]));
            assert(Set::<u8>::empty().insert(only).contains(c));
            assert(Set::<u8>::empty().insert(only).contains(path[start]));
        }
        lemma_goal_open(st, path, target);
        lemma_goal_below(st, path, target + 1, start, none);
    }
}

/// A line to a node takes more than the node; it is written behind what the node refers to.
proof fn lemma_make_longer(
    a: Arena,
    mask: Set<u8>,
    ns: Seq<NodeView>,
    prefix: Seq<u8>,
    value: Option<u64>,
)
    ensures
        ({
            let (a1, n) = make_node(a, mask, ns, Seq::empty(), value);
            &&& a1.bytes.len() <= make_node(a, mask, ns, prefix, value).0.bytes.len()
            &&& prefix.len() > 0 ==> make_node(a, mask, ns, prefix, value) == behind_line(
                a1,
                n,
                prefix,
            )
        }),
{
}

/// The children of a frame stay what they are where the frames above are attached to one another.
proof fn lemma_goal_kept(
    st: Seq<StreamFrame>,
    now: Seq<StreamFrame>,
    path: Seq<u8>,
    start: int,
    target: int,
)
    requires
        0 <= target <= start,
        start < st.len(),
        start < now.len(),
        forall|d: int| 0 <= d < start ==> #[trigger] now[d] == st[d],
        open_trie(now, path, start) == open_trie(st, path, start),
    ensures
        arena_goal(now, path, target) == arena_goal(st, path, target),
{
    assert forall|d: int| 0 <= d < start implies #[trigger] st[d] == now[d] by {
        assert(now[d] == st[d]);
    }
    lemma_arena_agree(st, now, target);
    lemma_open_replace(st, path, now, path, start, target);
}

/// What is written is what branches off along the path.
proof fn lemma_laid_out_along(st: Seq<StreamFrame>, path: Seq<u8>, a: Arena, d: int)
    requires
        laid_out(st, a),
        ascending(st, path),
        0 <= d < st.len() <= path.len() + 1,
    ensures
        build_along(
            arena_upto(st, d),
            open_trie(st, path, d),
            path.subrange(d, st.len() - 1),
        ) == a,
    decreases st.len() - d,
{
    reveal(laid_out);
    let rest = path.subrange(d, st.len() - 1);
    if d < st.len() - 1 {
        let t = open_trie(st, path, d);
        assert(!st[d].kids@.contains_key(path[d]));
        assert(t.kids.remove(path[d]) =~= st[d].kids@);
        assert(rest.drop_first() =~= path.subrange(d + 1, st.len() - 1));
        lemma_laid_out_along(st, path, a, d + 1);
    }
}

/// Along a path that is alone nothing branches off.
proof fn lemma_along_alone(a: Arena, path: Seq<u8>, e: Edit<u64>)
    requires
        e.kids is None,
    ensures
        build_along(a, put(Trie::<u64>::empty(), path, e), path) == a,
    decreases path.len(),
{
    let t = put(Trie::<u64>::empty(), path, e);
    if path.len() == 0 {
        lemma_build_kids_gap(a, t, 0, 256);
    } else {
        let beside = Trie { val: t.val, kids: t.kids.remove(path[0]) };
        lemma_build_kids_gap(a, beside, 0, 256);
        lemma_along_alone(a, path.drop_first(), e);
    }
}

/// What branches off along a new path: all the children of the frame from which it leads on.
proof fn lemma_goal_of_push(
    st: Seq<StreamFrame>,
    old_path: Seq<u8>,
    path: Seq<u8>,
    e: Edit<u64>,
    common: int,
    d: int,
)
    requires
        ascending(st, old_path),
        0 <= d <= common < st.len() <= old_path.len() + 1,
        common <= path.len(),
        forall|i: int| 0 <= i < common ==> path[i] == old_path[i],
        common < path.len() ==> !open_trie(st, old_path, common).kids.contains_key(path[common]),
        e.kids is None,
    ensures
        build_along(
            arena_upto(st, d),
            put(open_trie(st, old_path, d), path.subrange(d, path.len() as int), e),
            path.subrange(d, path.len() as int),
        ) == arena_goal(st, old_path, common),
    decreases common - d,
{
    let n = path.len() as int;
    let rest = path.subrange(d, n);
    let t = open_trie(st, old_path, d);
    let u = put(t, rest, e);
    let a = arena_upto(st, d);
    if d < n {
        assert(rest[0] == path[d]);
        assert(rest.drop_first() =~= path.subrange(d + 1, n));
    }
    if d < common {
        assert(!st[d].kids@.contains_key(path[d]));
        assert(u.kids.remove(path[d]) =~= st[d].kids@);
        lemma_goal_of_push(st, old_path, path, e, common, d + 1);
    } else if d == n {
        assert(rest =~= Seq::<u8>::empty());
        lemma_build_kids_agree(a, t, u, 256);
    } else {
        assert(u.kids.remove(path[d]) =~= t.kids);
        assert(Trie { val: u.val, kids: u.kids.remove(path[d]) } == t);
        lemma_along_alone(arena_goal(st, old_path, common), rest.drop_first(), e);
    }
}

/// The top frame has become a child of the frame at `start`; between them the bytes just lead on.
proof fn lemma_laid_out_attached(
    st: Seq<StreamFrame>,
    now: Seq<StreamFrame>,
    path: Seq<u8>,
    start: int,
    a: Arena,
    after: Arena,
    node: Node,
)
    requires
        laid_out(st, a),
        st.len() <= path.len() + 1,
        0 <= start < st.len() - 1,
        now.len() == start + 1,
        forall|d: int| 0 <= d < start ==> #[trigger] now[d] == st[d],
        forall|d: int|
            start < d < st.len() - 1 ==> (#[trigger] st[d]).kids@ == Map::<u8, Trie<u64>>::empty(),
        !st.last().closed_part().is_link(),
        st.last().kids@.dom() == st.last().mask@,
        forall|c: u8| #[trigger] st[start].kids@.contains_key(c) ==> c < path[start],
        now[start].kids@ == st[start].kids@.insert(
            path[start],
            chain(path.subrange(start + 1, st.len() - 1), st.last().closed_part()),
        ),
        now[start].children@ == st[start].children@.push(node),
        (after, node@) == make_node(
            a,
            st.last().mask@,
            node_views(st.last().children@),
            path.subrange(start + 1, st.len() - 1),
            st.last().value,
        ),
    ensures
        laid_out(now, after),
{
    reveal(laid_out);
    let top = st.len() - 1;
    let done = st[top].closed_part();
    let seg = path.subrange(start + 1, top);
    let kid = chain(seg, done);
    let none = Seq::<u8>::empty();
    assert(st[top] == st.last());
    assert forall|i: int| 0 <= i < start implies (#[trigger] st[i]).kids@ == now[i].kids@ by {
        assert(now[i] == st[i]);
    }
    lemma_arena_agree(st, now, start);
    lemma_arena_through(st, start + 1, top);
    let from = arena_upto(st, start + 1);
    assert(arena_upto(st, st.len() as int) == build_kids(from, done, 256).0);
    assert(node_views(st[top].children@) == build_kids(from, done, 256).1);
    assert((after, node@) == build(from, done, seg));
    lemma_build_chain(from, seg, done, none);
    assert(none + seg =~= seg);
    lemma_build_kids_append(
        arena_upto(st, start),
        st[start].closed_part(),
        now[start].closed_part(),
        path[start],
        kid,
    );
    assert forall|d: int| 0 <= d < now.len() implies node_views((#[trigger] now[d]).children@)
        == build_kids(arena_upto(now, d), now[d].closed_part(), 256).1 by {
        if d < start {
            assert(now[d] == st[d]);
            lemma_arena_agree(st, now, d);
            assert(node_views(st[d].children@) == build_kids(
                arena_upto(st, d),
                st[d].closed_part(),
                256,
            ).1);
        } else {
            assert(node_views(st[start].children@) == build_kids(
                arena_upto(st, start),
                st[start].closed_part(),
                256,
            ).1);
            assert(node_views(now[start].children@) =~= node_views(st[start].children@).push(
                node@,
            ));
        }
    }
}

/// The top frame has become a child of the frame at `start`: the frames are sound still, and stand
/// for what they stood for.
proof fn lemma_attached_frames(
    st: Seq<StreamFrame>,
    now: Seq<StreamFrame>,
    path: Seq<u8>,
    start: int,
    a: Arena,
    after: Arena,
    node: Node,
)
    requires
        laid_out(st, a),
        frames_ok(a.bytes, st, path),
        extends(a.bytes, after.bytes),
        0 <= start < st.len() - 1,
        now.len() == start + 1,
        forall|d: int| 0 <= d < start ==> #[trigger] now[d] == st[d],
        forall|d: int|
            start < d < st.len() - 1 ==> (#[trigger] st[d]).value is None && st[d].mask@ == Set::<
                u8,
            >::empty(),
        !st.last().closed_part().is_link(),
        now[start].mask@ == st[start].mask@.insert(path[start]),
        now[start].value == st[start].value,
        now[start].kids@ == st[start].kids@.insert(
            path[start],
            chain(path.subrange(start + 1, st.len() - 1), st.last().closed_part()),
        ),
        now[start].children@ == st[start].children@.push(node),
        denotes(
            after.bytes,
            node@,
            chain(path.subrange(start + 1, st.len() - 1), st.last().closed_part()),
        ),
        (after, node@) == make_node(
            a,
            st.last().mask@,
            node_views(st.last().children@),
            path.subrange(start + 1, st.len() - 1),
            st.last().value,
        ),
    ensures
        frames_ok(after.bytes, now, path),
        laid_out(now, after),
        open_trie(now, path, start) == open_trie(st, path, start),
        open_trie(now, path, 0) == open_trie(st, path, 0),
        forall|b: u8| #[trigger] now[start].mask@.contains(b) ==> b <= path[start],
        st[start].mask@ != Set::<u8>::empty() || st[start].value is Some
            ==> !now[start].closed_part().is_link(),
{
    let top = st.len() - 1;
    let byte = path[start];
    let parent = now[start];
    let old_parent = st[start];
    let segment = path.subrange(start + 1, top);
    let child = chain(segment, st[top].closed_part());
    assert(old_parent.ok(a.bytes));
    assert(st[top].ok(a.bytes));
    old_parent.lemma_ok_grows(a.bytes, after.bytes);
    assert forall|c: u8| #[trigger] old_parent.mask@.contains(c) implies c < byte by {
        assert(st[start].mask@.contains(c));
    }
    lemma_attached(&old_parent, &parent, after.bytes, byte, node, child);
    assert forall|d: int| start + 1 <= d < top implies (#[trigger] st[d]).value is None
        && st[d].kids@.dom() == Set::<u8>::empty() && st[d].kids@ == Map::<
        u8,
        Trie<u64>,
    >::empty() by {
        assert(st[d].ok(a.bytes));
        assert(st[d].kids@ =~= Map::<u8, Trie<u64>>::empty());
    }
    lemma_open_chain(st, path, start + 1, top);
    assert(open_trie(now, path, start).kids =~= open_trie(st, path, start).kids);
    assert(open_trie(now, path, start) == open_trie(st, path, start));
    assert forall|d: int| 0 <= d < start implies (#[trigger] st[d]) == now[d] by {
        assert(now[d] == st[d]);
    }
    lemma_open_replace(st, path, now, path, start, 0);
    assert forall|d: int| 0 <= d < now.len() implies (#[trigger] now[d]).ok(after.bytes) by {
        if d < start {
            assert(st[d] == now[d]);
            assert(st[d].ok(a.bytes));
            st[d].lemma_ok_grows(a.bytes, after.bytes);
        }
    }
    assert forall|d: int, b: u8|
        0 <= d < now.len() - 1 && #[trigger] now[d].mask@.contains(b) implies b < path[d] by {
        assert(st[d] == now[d]);
        assert(st[d].mask@.contains(b));
    }
    assert forall|c: u8| #[trigger] st[start].kids@.contains_key(c) implies c < path[start] by {
        assert(old_parent.kids@.dom().contains(c));
        assert(old_parent.mask@.contains(c));
    }
    lemma_laid_out_attached(st, now, path, start, a, after, node);
    if old_parent.mask@ != Set::<u8>::empty() || old_parent.value is Some {
        let t = parent.closed_part();
        if t.is_link() {
            let only = choose|b: u8| t.kids.dom() == Set::<u8>::empty().insert(b);
            assert(exists|c: u8| old_parent.mask@.contains(c)) by {
                if forall|x: u8| !old_parent.mask@.contains(x) {
                    assert(old_parent.mask@ =~= Set::<u8>::empty());
                }
            }
            let c = choose|c: u8| old_parent.mask@.contains(c);
            assert(t.kids.dom().contains(c));
            assert(t.kids.dom().contains(byte));
            assert(Set::<u8>::empty().insert(only).contains(c));
            assert(Set::<u8>::empty().insert(only).contains(byte));
        }
    }
}

/// Where the place of frame `d` does not change, nor does any above it.
proof fn lemma_open_replace(
    st: Seq<StreamFrame>,
    path: Seq<u8>,
    st2: Seq<StreamFrame>,
    path2: Seq<u8>,
    d: int,
    c: int,
)
    requires
        0 <= c <= d,
        d < st.len(),
        d < st2.len(),
        open_trie(st, path, d) == open_trie(st2, path2, d),
        forall|i: int| 0 <= i < d ==> (#[trigger] st[i]).value == st2[i].value && st[i].kids == st2[i].kids,
        forall|i: int| 0 <= i < d ==> path[i] == path2[i],
    ensures
        open_trie(st, path, c) == open_trie(st2, path2, c),
    decreases d - c,
{
    if c < d {
        lemma_open_replace(st, path, st2, path2, d, c + 1);
        assert(st[c].value == st2[c].value);
    }
}

/// Frames that only pass through make a chain.
proof fn lemma_open_chain(st: Seq<StreamFrame>, path: Seq<u8>, i: int, top: int)
    requires
        0 <= i <= top,
        top < st.len(),
        top <= path.len(),
        forall|d: int|
            i <= d < top ==> (#[trigger] st[d]).value is None && st[d].kids@.dom() == Set::<
                u8,
            >::empty(),
    ensures
        open_trie(st, path, i) == chain(path.subrange(i, top), open_trie(st, path, top)),
    decreases top - i,
{
    if i < top {
        lemma_open_chain(st, path, i + 1, top);
        assert(path.subrange(i, top).drop_first() =~= path.subrange(i + 1, top));
        assert(st[i].value is None && st[i].kids@ =~= Map::<u8, Trie<u64>>::empty());
        assert(open_trie(st, path, i).kids =~= chain(
            path.subrange(i, top),
            open_trie(st, path, top),
        ).kids);
    } else {
        assert(path.subrange(i, top) =~= Seq::<u8>::empty());
    }
}

/// A byte behind all others is the last one.
proof fn lemma_rank_append(s: Set<u8>, b: u8)
    requires
        forall|c: u8| #[trigger] s.contains(c) ==> c < b,
    ensures
        rank(s.insert(b), 256) == rank(s, 256) + 1,
        rank(s.insert(b), b as nat) == rank(s, 256),
        forall|c: u8| #[trigger]
            s.contains(c) ==> rank(s.insert(b), c as nat) == rank(s, c as nat) && rank(s, c as nat)
                < rank(s, 256),
{
    let t = s.insert(b);
    crate::utils::bits::lemma_rank_agree(s, t, b as nat);
    lemma_rank_gap(s, b as nat, 256);
    lemma_rank_gap(t, (b + 1) as nat, 256);
    lemma_members(s);
    assert forall|c: u8| #[trigger] s.contains(c) implies rank(t, c as nat) == rank(s, c as nat) by {
        crate::utils::bits::lemma_rank_agree(s, t, c as nat);
    }
}

/// Builds an [ArenaCompactTree] from a stream of ordered paths.
///
/// Paths must be pushed in strictly increasing lexicographic (byte) order. The bytes of the file
/// can be taken out while it is written, so that memory usage is bounded by the longest path
/// pushed, plus the line-reuse cache.
pub struct ACTOutputStream {
    act: StreamWriter,
    /// `stack[d]` is the in-construction node at depth `d` along `prev_path`; `stack[0]` is the
    /// root.
    stack: Vec<StreamFrame>,
    /// The most recently pushed path.
    prev_path: Vec<u8>,
    /// Some path was pushed.
    any: bool,
}

impl ACTOutputStream {
    pub closed spec fn wf(&self) -> bool {
        &&& self.act.wf()
        &&& is_prefix(Arena::start().bytes, self.act.arena().bytes)
        &&& frames_ok(self.act.arena().bytes, self.stack@, self.prev_path@)
        &&& self.stack@.len() == self.prev_path@.len() + 1
        &&& self.stack@.last().mask@ == Set::<u8>::empty()
        &&& !self.any ==> self.prev_path@.len() == 0 && self.stack@[0].value is None
        &&& self.any ==> self.stack@.last().value is Some
        &&& laid_out(self.stack@, self.act.arena())
        &&& self.act.counted() == Counters::zero()
    }

    /// The trie of the paths that were pushed.
    pub closed spec fn content(&self) -> Trie<u64> {
        open_trie(self.stack@, self.prev_path@, 0)
    }

    /// The path that was pushed last.
    pub closed spec fn last(&self) -> Option<Seq<u8>> {
        if self.any {
            Some(self.prev_path@)
        } else {
            None
        }
    }

    /// The bytes that were taken out.
    pub closed spec fn taken(&self) -> Seq<u8> {
        self.act.handed_out()
    }

    /// The bytes that were written.
    pub closed spec fn written(&self) -> Seq<u8> {
        self.act.arena().bytes
    }

    /// Starts a stream.
    pub fn new() -> (r: Self)
        ensures
            r.wf(),
            r.content() == Trie::<u64>::empty(),
            r.last() is None,
            r.taken() == Seq::<u8>::empty(),
            r.written() == Arena::start().bytes,
            r.written().len() == ARENA_START,
    {
        let mut stack: Vec<StreamFrame> = Vec::new();
        stack.push(StreamFrame::empty());
        let r = ACTOutputStream {
            act: StreamWriter::new(),
            stack,
            prev_path: Vec::new(),
            any: false,
        };
        proof {
            reveal(laid_out);
            lemma_rank_is_len(Set::<u8>::empty());
            assert(r.stack@[0].kids@.dom() =~= Set::<u8>::empty());
            let top = r.stack@[0].closed_part();
            lemma_build_kids_gap(Arena::start(), top, 0, 256);
            assert(arena_upto(r.stack@, 1) == build_kids(arena_upto(r.stack@, 0), top, 256).0);
            assert(node_views(r.stack@[0].children@) =~= Seq::empty());
        }
        r
    }

    /// Takes out the bytes that were written since the last time. The file begins with them, in
    /// the order in which they were taken, but for the place of the root, which is known at the
    /// end.
    pub fn take_output(&mut self) -> (r: Vec<u8>)
        requires
            old(self).wf(),
        ensures
            final(self).wf(),
            final(self).content() == old(self).content(),
            final(self).last() == old(self).last(),
            final(self).taken() == old(self).taken() + r@,
            final(self).taken() == final(self).written(),
            final(self).written() == old(self).written(),
    {
        self.act.take_output()
    }

    /// Add `path` to the trie with a value of `0`.
    ///
    /// Paths must arrive in strictly increasing lexicographic order, otherwise an error is
    /// returned. A path that extends the previous one is fine; both keep their values.
    pub fn push(&mut self, path: &[u8]) -> (r: Result<(), StreamError>)
        requires
            old(self).wf(),
        ensures
            push_result(old(self), final(self), path@, 0, r),
    {
        self.push_val(path, 0)
    }

    /// Add `path` to the trie with the given `value`.
    ///
    /// See [push](Self::push) for the ordering requirements.
    pub fn push_val(&mut self, path: &[u8], value: u64) -> (r: Result<(), StreamError>)
        requires
            old(self).wf(),
        ensures
            push_result(old(self), final(self), path@, value, r),
    {
        let common = find_prefix_overlap(path, self.prev_path.as_slice());
        proof {
            lemma_overlap(path@, self.prev_path@);
            crate::trie_order::lemma_overlap_at(self.prev_path@, path@, common as int);
        }
        if self.any {
            let later = common < path.len() && (common == self.prev_path.len()
                || self.prev_path[common] < path[common]);
            if !later {
                return Err(StreamError::OutOfOrder);
            }
        }
        let ghost before = *self;
        match self.collapse_to(common) {
            Ok(()) => {},
            Err(e) => {
                proof {
                    before.lemma_no_room(path@, value, common as int);
                }
                return Err(e);
            },
        }
        let ghost mid = *self;
        // The path leads on from the frame that it shares with the last one.
        self.prev_path.truncate(common);
        push_slice(&mut self.prev_path, part(path, common, path.len()));
        proof {
            assert(self.prev_path@ =~= path@);
        }
        let mut i: usize = common;
        while i < path.len()
            invariant
                common <= i <= path@.len(),
                self.act == mid.act,
                self.prev_path@ == path@,
                self.stack@.len() == i + 1,
                mid.stack@.len() == common + 1,
                forall|d: int|
                    0 <= d <= common ==> #[trigger] self.stack@[d] == mid.stack@[d],
                forall|d: int|
                    common < d <= i ==> {
                        let f = #[trigger] self.stack@[d];
                        &&& f.mask@ == Set::<u8>::empty()
                        &&& f.children@.len() == 0
                        &&& f.value is None
                        &&& f.kids@ == Map::<u8, Trie<u64>>::empty()
                    },
            decreases path@.len() - i,
        {
            self.stack.push(StreamFrame::empty());
            i = i + 1;
        }
        let ghost opened = self.stack@;
        let top = self.stack.pop();
        if let Some(mut frame) = top {
            frame.value = Some(value);
            self.stack.push(frame);
        }
        self.any = true;
        proof {
            self.lemma_pushed(&mid, opened, path@, value, common as int);
            self.lemma_written();
        }
        Ok(())
    }

    /// What was written is what branches off along the last path.
    proof fn lemma_written(&self)
        requires
            self.wf(),
        ensures
            self.written() == build_along(Arena::start(), self.content(), self.prev_path@).bytes,
            self.written().len() <= u64::MAX,
    {
        let n = self.prev_path@.len() as int;
        lemma_ascending(self.act.arena().bytes, self.stack@, self.prev_path@);
        lemma_laid_out_along(self.stack@, self.prev_path@, self.act.arena(), 0);
        assert(self.prev_path@.subrange(0, n) =~= self.prev_path@);
        self.act.lemma_wf();
    }

    /// Where the children of the frame from which the path leads on do not fit, the path does not.
    proof fn lemma_no_room(&self, path: Seq<u8>, value: u64, common: int)
        requires
            self.wf(),
            0 <= common <= path.len(),
            common <= self.prev_path@.len(),
            forall|i: int| 0 <= i < common ==> path[i] == self.prev_path@[i],
            common < path.len() ==> common == self.prev_path@.len() || self.prev_path@[common]
                < path[common],
            arena_goal(self.stack@, self.prev_path@, common).bytes.len() > u64::MAX,
        ensures
            build_along(
                Arena::start(),
                put(self.content(), path, (Edit { val: Some(value), kids: None })),
                path,
            ).bytes.len() > u64::MAX,
    {
        let st = self.stack@;
        let e = Edit::<u64> { val: Some(value), kids: None };
        lemma_ascending(self.act.arena().bytes, st, self.prev_path@);
        if common < path.len() {
            assert(st[common].ok(self.act.arena().bytes));
            if common == self.prev_path@.len() {
                assert(st[common] == st.last());
                assert(!st[common].kids@.dom().contains(path[common]));
            } else if st[common].kids@.contains_key(path[common]) {
                assert(path[common] < self.prev_path@[common]);
            }
        }
        lemma_goal_of_push(st, self.prev_path@, path, e, common, 0);
        assert(path.subrange(0, path.len() as int) =~= path);
    }

    /// What the new frames stand for.
    proof fn lemma_pushed(
        &self,
        mid: &Self,
        opened: Seq<StreamFrame>,
        path: Seq<u8>,
        value: u64,
        common: int,
    )
        requires
            mid.act.wf(),
            frames_ok(mid.act.arena().bytes, mid.stack@, mid.prev_path@),
            laid_out(mid.stack@, mid.act.arena()),
            is_prefix(Arena::start().bytes, mid.act.arena().bytes),
            mid.act.counted() == Counters::zero(),
            mid.stack@.len() == common + 1,
            0 <= common <= path.len(),
            common <= mid.prev_path@.len(),
            forall|i: int| 0 <= i < common ==> path[i] == mid.prev_path@[i],
            common < path.len() ==> forall|b: u8| #[trigger]
                mid.stack@[common].mask@.contains(b) ==> b < path[common],
            common == path.len() ==> mid.stack@[common].mask@ == Set::<u8>::empty(),
            self.act == mid.act,
            self.any,
            self.prev_path@ == path,
            opened.len() == path.len() + 1,
            forall|d: int| 0 <= d <= common ==> #[trigger] opened[d] == mid.stack@[d],
            forall|d: int|
                common < d <= path.len() ==> {
                    let f = #[trigger] opened[d];
                    &&& f.mask@ == Set::<u8>::empty()
                    &&& f.children@.len() == 0
                    &&& f.value is None
                    &&& f.kids@ == Map::<u8, Trie<u64>>::empty()
                },
            self.stack@.len() == opened.len(),
            forall|d: int| 0 <= d < path.len() ==> #[trigger] self.stack@[d] == opened[d],
            self.stack@.last() == (StreamFrame { value: Some(value), ..opened.last() }),
        ensures
            self.wf(),
            self.content() == put(
                open_trie(mid.stack@, mid.prev_path@, 0),
                path,
                (Edit { val: Some(value), kids: None }),
            ),
    {
        let st = self.stack@;
        let bytes = self.act.arena().bytes;
        let e = Edit::<u64> { val: Some(value), kids: None };
        lemma_rank_is_len(Set::<u8>::empty());
        assert forall|d: int| 0 <= d < st.len() implies (#[trigger] st[d]).ok(bytes) by {
            if d <= common {
                assert(mid.stack@[d].ok(bytes));
                if d < path.len() {
                    assert(st[d] == opened[d]);
                }
                assert(opened[d] == mid.stack@[d]);
            } else {
                if d < path.len() {
                    assert(st[d] == opened[d]);
                }
                assert(opened[d].mask@ == Set::<u8>::empty());
                assert(st[d].kids@.dom() =~= Set::<u8>::empty());
            }
        }
        assert forall|d: int, b: u8|
            0 <= d < st.len() - 1 && #[trigger] st[d].mask@.contains(b) implies b < path[d] by {
            assert(st[d] == opened[d]);
            if d < common {
                assert(opened[d] == mid.stack@[d]);
                assert(mid.stack@[d].mask@.contains(b));
            } else if d == common {
                assert(opened[d] == mid.stack@[d]);
            } else {
                assert(opened[d].mask@ == Set::<u8>::empty());
            }
        }
        let n = path.len() as int;
        if n > common {
            assert(opened[n].mask@ == Set::<u8>::empty());
        } else {
            assert(opened[n] == mid.stack@[n]);
        }
        self.lemma_put_open(mid, opened, path, e, common, 0);
        assert(path.subrange(0, n) =~= path);
        assert forall|d: int| 0 <= d < mid.stack@.len() implies (#[trigger] st[d]).kids@
            == mid.stack@[d].kids@ && st[d].children@ == mid.stack@[d].children@ by {
            assert(opened[d] == mid.stack@[d]);
            if d < n {
                assert(st[d] == opened[d]);
            }
        }
        assert forall|d: int| mid.stack@.len() <= d < st.len() implies (#[trigger] st[d]).kids@
            == Map::<u8, Trie<u64>>::empty() && st[d].children@.len() == 0 by {
            assert(opened[d].children@.len() == 0);
            if d < n {
                assert(st[d] == opened[d]);
            }
        }
        lemma_laid_out_open(mid.stack@, st, mid.act.arena());
    }

    /// Below the frames that stay, the new ones make a chain to the value.
    proof fn lemma_put_open(
        &self,
        mid: &Self,
        opened: Seq<StreamFrame>,
        path: Seq<u8>,
        e: Edit<u64>,
        common: int,
        d: int,
    )
        requires
            mid.stack@.len() == common + 1,
            0 <= d <= common <= path.len(),
            common <= mid.prev_path@.len(),
            forall|i: int| 0 <= i < common ==> path[i] == mid.prev_path@[i],
            mid.stack@[common].kids@.dom() == mid.stack@[common].mask@,
            common < path.len() ==> !mid.stack@[common].mask@.contains(path[common]),
            common == path.len() ==> mid.stack@[common].mask@ == Set::<u8>::empty(),
            e.val is Some,
            e.kids is None,
            opened.len() == path.len() + 1,
            forall|k: int| 0 <= k <= common ==> #[trigger] opened[k] == mid.stack@[k],
            forall|k: int|
                common < k <= path.len() ==> {
                    let f = #[trigger] opened[k];
                    &&& f.mask@ == Set::<u8>::empty()
                    &&& f.children@.len() == 0
                    &&& f.value is None
                    &&& f.kids@ == Map::<u8, Trie<u64>>::empty()
                },
            self.stack@.len() == opened.len(),
            forall|k: int| 0 <= k < path.len() ==> #[trigger] self.stack@[k] == opened[k],
            self.stack@.last() == (StreamFrame { value: e.val, ..opened.last() }),
        ensures
            open_trie(self.stack@, path, d) == put(
                open_trie(mid.stack@, mid.prev_path@, d),
                path.subrange(d, path.len() as int),
                e,
            ),
        decreases common - d,
    {
        let st = self.stack@;
        let n = path.len() as int;
        let rest = path.subrange(d, n);
        let old_t = open_trie(mid.stack@, mid.prev_path@, d);
        if d < n {
            assert(st[d] == opened[d]);
            assert(rest.drop_first() =~= path.subrange(d + 1, n));
            assert(rest[0] == path[d]);
        }
        assert(opened[d] == mid.stack@[d]);
        if d < common {
            self.lemma_put_open(mid, opened, path, e, common, d + 1);
            assert(open_trie(st, path, d).kids =~= put(old_t, rest, e).kids);
        } else if d == n {
            assert(rest =~= Seq::<u8>::empty());
            assert(open_trie(st, path, d) == put(old_t, rest, e));
        } else {
            let leaf = Trie::<u64> { val: e.val, kids: Map::empty() };
            assert(st[n] == st.last());
            assert(opened[n].mask@ == Set::<u8>::empty());
            assert forall|k: int| d + 1 <= k < n implies (#[trigger] st[k]).value is None
                && st[k].kids@.dom() == Set::<u8>::empty() by {
                assert(st[k] == opened[k]);
                assert(opened[k].mask@ == Set::<u8>::empty());
                assert(Map::<u8, Trie<u64>>::empty().dom() =~= Set::<u8>::empty());
            }
            lemma_open_chain(st, path, d + 1, n);
            assert(open_trie(st, path, n) == leaf);
            lemma_put_none(path.subrange(d + 1, n), e);
            assert(put(Trie::<u64>::empty(), Seq::empty(), e) == leaf);
            assert(!old_t.kids.contains_key(path[d]));
            assert(open_trie(st, path, d).kids =~= put(old_t, rest, e).kids);
        }
    }

    /// Seal every frame deeper than `target`, writing completed subtrees to the arena and attaching
    /// them as children of the frame at `target`.
    fn collapse_to(&mut self, target: usize) -> (r: Result<(), StreamError>)
        requires
            old(self).act.wf(),
            frames_ok(old(self).act.arena().bytes, old(self).stack@, old(self).prev_path@),
            laid_out(old(self).stack@, old(self).act.arena()),
            old(self).stack@.len() > target + 1 ==> old(self).stack@.last().value is Some,
            target < old(self).stack@.len(),
        ensures
            final(self).prev_path@ == old(self).prev_path@,
            final(self).any == old(self).any,
            match r {
                Ok(()) => {
                    &&& stream_grown(&old(self).act, &final(self).act)
                    &&& frames_ok(
                        final(self).act.arena().bytes,
                        final(self).stack@,
                        final(self).prev_path@,
                    )
                    &&& laid_out(final(self).stack@, final(self).act.arena())
                    &&& final(self).stack@.len() == target + 1
                    &&& open_trie(final(self).stack@, final(self).prev_path@, 0) == open_trie(
                        old(self).stack@,
                        old(self).prev_path@,
                        0,
                    )
                    &&& target + 1 == old(self).stack@.len() ==> final(self).stack@ == old(
                        self,
                    ).stack@
                    &&& target + 1 < old(self).stack@.len() ==> forall|b: u8| #[trigger]
                        final(self).stack@[target as int].mask@.contains(b) ==> b <= old(
                            self,
                        ).prev_path@[target as int]
                },
                Err(e) => {
                    &&& e == StreamError::TooLarge
                    &&& arena_goal(
                        old(self).stack@,
                        old(self).prev_path@,
                        target as int,
                    ).bytes.len() > u64::MAX
                },
            },
    {
        let ghost path = self.prev_path@;
        let ghost st0 = self.stack@;
        while self.stack.len() - 1 > target
            invariant
                path == self.prev_path@,
                path == old(self).prev_path@,
                self.any == old(self).any,
                st0 == old(self).stack@,
                target < self.stack@.len() <= st0.len(),
                stream_grown(&old(self).act, &self.act),
                frames_ok(self.act.arena().bytes, self.stack@, path),
                laid_out(self.stack@, self.act.arena()),
                self.stack@.len() > target + 1 ==> !self.stack@.last().closed_part().is_link(),
                arena_goal(self.stack@, path, target as int) == arena_goal(
                    st0,
                    path,
                    target as int,
                ),
                open_trie(self.stack@, path, 0) == open_trie(st0, path, 0),
                self.stack@.len() == st0.len() ==> self.stack@ == st0,
                target + 1 < st0.len() && self.stack@.len() == target + 1 ==> forall|b: u8| #[trigger]
                    self.stack@[target as int].mask@.contains(b) ==> b <= path[target as int],
            decreases self.stack@.len(),
        {
            let ghost before = *self;
            match self.attach_top(target) {
                Ok(()) => {
                    proof {
                        lemma_stream_grown_trans(&old(self).act, &before.act, &self.act);
                    }
                },
                Err(e) => {
                    return Err(e);
                },
            }
        }
        Ok(())
    }

    /// Drop the pure pass-through frames at the top, down to `target`.
    fn drop_passthrough(&mut self, target: usize)
        requires
            target < old(self).stack@.len(),
        ensures
            final(self).act == old(self).act,
            final(self).prev_path == old(self).prev_path,
            final(self).any == old(self).any,
            target < final(self).stack@.len() <= old(self).stack@.len(),
            final(self).stack@ == old(self).stack@.subrange(0, final(self).stack@.len() as int),
            forall|d: int|
                final(self).stack@.len() <= d < old(self).stack@.len() ==> (#[trigger] old(
                    self,
                ).stack@[d]).value is None && old(self).stack@[d].mask@ == Set::<u8>::empty(),
            final(self).stack@.len() > target + 1 ==> final(self).stack@.last().mask@ != Set::<
                u8,
            >::empty() || final(self).stack@.last().value is Some,
    {
        let ghost st = self.stack@;
        assert(st.subrange(0, st.len() as int) =~= st);
        while self.stack.len() - 1 > target && self.stack[self.stack.len() - 1].is_passthrough()
            invariant
                target < self.stack@.len() <= st.len(),
                self.stack@ == st.subrange(0, self.stack@.len() as int),
                self.act == old(self).act,
                self.prev_path == old(self).prev_path,
                self.any == old(self).any,
                forall|d: int|
                    self.stack@.len() <= d < st.len() ==> (#[trigger] st[d]).value is None
                        && st[d].mask@ == Set::<u8>::empty(),
            ensures
                self.stack@.len() > target + 1 ==> self.stack@.last().mask@ != Set::<u8>::empty()
                    || self.stack@.last().value is Some,
            decreases self.stack@.len(),
        {
            let ghost n = self.stack@.len() as int;
            let _ = self.stack.pop();
            assert(self.stack@ =~= st.subrange(0, n - 1));
            assert(st[n - 1] == st.subrange(0, n)[n - 1]);
        }
    }

    /// Seal the top frame, and attach it to the frame below that is at `target` or more than a pure
    /// pass-through.
    #[verifier::rlimit(40)]
    fn attach_top(&mut self, target: usize) -> (r: Result<(), StreamError>)
        requires
            old(self).act.wf(),
            frames_ok(old(self).act.arena().bytes, old(self).stack@, old(self).prev_path@),
            laid_out(old(self).stack@, old(self).act.arena()),
            !old(self).stack@.last().closed_part().is_link(),
            target + 1 < old(self).stack@.len(),
        ensures
            final(self).prev_path@ == old(self).prev_path@,
            final(self).any == old(self).any,
            match r {
                Ok(()) => {
                    let path = old(self).prev_path@;
                    let (st, now) = (old(self).stack@, final(self).stack@);
                    &&& stream_grown(&old(self).act, &final(self).act)
                    &&& frames_ok(final(self).act.arena().bytes, now, path)
                    &&& laid_out(now, final(self).act.arena())
                    &&& target < now.len() < st.len()
                    &&& now.len() > target + 1 ==> !now.last().closed_part().is_link()
                    &&& arena_goal(now, path, target as int) == arena_goal(
                        st,
                        path,
                        target as int,
                    )
                    &&& open_trie(now, path, 0) == open_trie(st, path, 0)
                    &&& forall|b: u8| #[trigger]
                        now.last().mask@.contains(b) ==> b <= path[now.len() - 1]
                },
                Err(e) => {
                    &&& e == StreamError::TooLarge
                    &&& arena_goal(
                        old(self).stack@,
                        old(self).prev_path@,
                        target as int,
                    ).bytes.len() > u64::MAX
                },
            },
    {
        let ghost path = self.prev_path@;
        let ghost st = self.stack@;
        let ghost a0 = self.act;
        let top = self.stack.len() - 1;
        assert(st[top as int].ok(self.act.arena().bytes));
        let frame = self.stack.pop().unwrap();
        let ghost done = frame.closed_part();
        let ghost (made, views) = (frame.mask@, node_views(frame.children@));
        assert(frame == st.last());
        // Fold pure pass-through ancestors into a line segment.
        let ghost below = self.stack@;
        assert(below =~= st.subrange(0, top as int));
        self.drop_passthrough(target);
        let start = self.stack.len() - 1;
        let ghost segment = path.subrange(start + 1, top as int);
        proof {
            assert(self.stack@ =~= st.subrange(0, start + 1));
            assert forall|d: int| start < d < top implies (#[trigger] st[d]).value is None
                && st[d].mask@ == Set::<u8>::empty() by {
                assert(below[d] == st[d]);
            }
            assert(st[start as int] == st.subrange(0, start + 1)[start as int]);
            lemma_goal_of_top(st, path, target as int, start as int, a0.arena());
            lemma_make_longer(a0.arena(), made, views, segment, done.val);
        }
        let node = match self.seal(frame) {
            Ok(node) => node,
            Err(e) => {
                return Err(e);
            },
        };
        let ghost a1 = self.act;
        // `prev_path[start]` goes into the parent's mask; if the chain is longer, the remaining
        // bytes become line data.
        let node = if top - start >= 2 {
            match self.act.behind_segment(
                part(self.prev_path.as_slice(), start + 1, top),
                &node,
                Ghost(done),
            ) {
                Ok(node) => node,
                Err(e) => {
                    return Err(e);
                },
            }
        } else {
            assert(segment =~= Seq::<u8>::empty());
            proof {
                lemma_extends_append(a1.arena().bytes, Seq::empty());
            }
            node
        };
        let ghost child = chain(segment, done);
        let byte = self.prev_path[start];
        let mut parent = self.stack.pop().unwrap();
        parent.mask.set_bit(byte);
        parent.children.push(node);
        parent.kids = Ghost(parent.kids@.insert(byte, child));
        self.stack.push(parent);
        proof {
            assert(stream_grown(&a1, &self.act));
            lemma_stream_grown_trans(&a0, &a1, &self.act);
            let now = self.stack@;
            assert(now =~= st.subrange(0, start as int).push(parent));
            assert forall|d: int| 0 <= d < start implies #[trigger] now[d] == st[d] by {
                assert(st.subrange(0, start as int)[d] == st[d]);
            }
            lemma_attached_frames(
                st,
                now,
                path,
                start as int,
                a0.arena(),
                self.act.arena(),
                node,
            );
            lemma_goal_kept(st, now, path, start as int, target as int);
        }
        Ok(())
    }

    /// Write `frame`'s children to the arena, contiguously, so that the first child suffices to
    /// address them, and return the branch node.
    fn seal(&mut self, frame: StreamFrame) -> (r: Result<Node, StreamError>)
        requires
            old(self).act.wf(),
            frame.ok(old(self).act.arena().bytes),
        ensures
            final(self).stack@ == old(self).stack@,
            final(self).prev_path@ == old(self).prev_path@,
            final(self).any == old(self).any,
            match r {
                Ok(node) => {
                    &&& stream_grown(&old(self).act, &final(self).act)
                    &&& denotes(final(self).act.arena().bytes, node@, frame.closed_part())
                    &&& (final(self).act.arena(), node@) == make_node(
                        old(self).act.arena(),
                        frame.mask@,
                        node_views(frame.children@),
                        Seq::empty(),
                        frame.value,
                    )
                },
                Err(e) => {
                    &&& e == StreamError::TooLarge
                    &&& make_node(
                        old(self).act.arena(),
                        frame.mask@,
                        node_views(frame.children@),
                        Seq::empty(),
                        frame.value,
                    ).0.bytes.len() > u64::MAX
                },
            },
    {
        let ghost bytes = self.act.arena().bytes;
        let ghost views = node_views(frame.children@);
        let ghost mask = frame.mask@;
        proof {
            self.act.lemma_wf();
            lemma_members(mask);
            lemma_rank_is_len(mask);
            crate::utils::bits::lemma_rank_bound(mask, 256);
            assert(frame.children@.len() <= 256);
            assert forall|i: int| 0 <= i < frame.children@.len() implies node_wf(
                bytes,
                (#[trigger] frame.children@[i])@,
                bytes.len(),
            ) by {
                assert(mask.contains(members(mask)[i]));
            }
        }
        let first_child = match self.act.push_children(&frame.children) {
            Ok(first) => first,
            Err(e) => {
                return Err(e);
            },
        };
        proof {
            self.act.lemma_wf();
            assert forall|b: u8| #[trigger] mask.contains(b) implies denotes(
                bytes,
                views[rank(mask, b as nat) as int],
                frame.kids@[b],
            ) by {
                assert(views[rank(mask, b as nat) as int] == frame.children@[rank(
                    mask,
                    b as nat,
                ) as int]@);
            }
            lemma_branch(bytes, mask, views, frame.kids@, frame.value);
        }
        Ok(
            Node::Branch(
                NodeBranch { bytemask: frame.mask, first_child, value: frame.value },
            ),
        )
    }

    /// Seal the remaining frames and write the root.
    ///
    /// Returns the bytes that were not taken out yet, and the place of the root, which stands
    /// behind the magic.
    pub fn finish_output(self) -> (r: Result<(Vec<u8>, NodeId), StreamError>)
        requires
            self.wf(),
        ensures
            match r {
                Ok((tail, root)) => {
                    let d = self.taken() + tail@;
                    let file = with_root(d, root.0 as nat);
                    &&& d.len() >= ARENA_START
                    &&& d.subrange(0, 16) == Arena::start().bytes
                    &&& file_wf(file)
                    &&& history_wf(file)
                    &&& file_trie(file) == self.content()
                    &&& root_of(file) == root.0
                    &&& roots_of(file) == seq![root_of(file)]
                    &&& file == stream_layout(self.content())
                    &&& file.len() <= u64::MAX + 8
                },
                Err(e) => {
                    &&& e == StreamError::TooLarge
                    &&& stream_layout(self.content()).len() > u64::MAX + 8
                },
            },
    {
        let mut s = self;
        let ghost content = self.content();
        proof {
            lemma_stream_len(content);
        }
        match s.collapse_to(0) {
            Ok(()) => {},
            Err(e) => {
                return Err(e);
            },
        }
        let ghost mid = s;
        let frame = s.stack.pop().unwrap();
        assert(frame == mid.stack@[0]);
        assert(mid.stack@[0].ok(s.act.arena().bytes));
        proof {
            assert(content == frame.closed_part());
            lemma_laid_out_root(mid.stack@, mid.act.arena());
        }
        let root = match s.seal(frame) {
            Ok(node) => node,
            Err(e) => {
                return Err(e);
            },
        };
        let ghost a = s.act.arena();
        proof {
            lemma_stream_grown_trans(&self.act, &mid.act, &s.act);
            s.act.lemma_wf();
            crate::arena_compact::layout::lemma_prefix_trans(
                Arena::start().bytes,
                self.act.arena().bytes,
                a.bytes,
            );
            lemma_push_node(a.bytes, root@, content);
            reveal(node_wf);
        }
        let root_id = match s.act.push(&root) {
            Ok(id) => id,
            Err(e) => {
                return Err(e);
            },
        };
        proof {
            s.act.lemma_wf();
        }
        let ghost gone = s.act.handed_out();
        let ghost all = s.act.arena().bytes;
        let mut tail = s.act.take_output();
        let ghost rest = tail@;
        push_zeros(&mut tail, 8);
        proof {
            let d = self.taken() + tail@;
            assert(d =~= all + zeros(8));
            lemma_finished(all, root_id.0 as nat, content, a, root@);
        }
        Ok((tail, root_id))
    }

    /// Seal the remaining frames, write the root, and return the finished tree. No bytes may have
    /// been taken out.
    pub fn finish(self) -> (r: Result<ACTVec, StreamError>)
        requires
            self.wf(),
            self.taken() == Seq::<u8>::empty(),
        ensures
            match r {
                Ok(tree) => {
                    &&& tree.wf()
                    &&& history_wf(tree.bytes())
                    &&& tree.view() == self.content()
                    &&& roots_of(tree.bytes()) == seq![root_of(tree.bytes())]
                    &&& tree.bytes() == stream_layout(self.content())
                    &&& tree.bytes().len() <= u64::MAX + 8
                    &&& tree.counters_view() == Counters::zero()
                },
                Err(e) => {
                    &&& e == StreamError::TooLarge
                    &&& stream_layout(self.content()).len() > u64::MAX + 8
                },
            },
    {
        let (mut data, root) = match self.finish_output() {
            Ok(r) => r,
            Err(e) => {
                return Err(e);
            },
        };
        let ghost d = data@;
        assert(self.taken() + d =~= d);
        let mut header: Vec<u8> = Vec::new();
        push_le(&mut header, root.0, 8);
        proof {
            lemma_le_bytes_len(root.0 as nat, 8);
        }
        let mut i: usize = 0;
        while i < 8
            invariant
                i <= 8,
                d.len() >= ARENA_START,
                header@.len() == 8,
                data@.len() == d.len(),
                forall|j: int|
                    0 <= j < d.len() ==> #[trigger] data@[j] == if 8 <= j < 8 + i {
                        header@[j - 8]
                    } else {
                        d[j]
                    },
            decreases 8 - i,
        {
            data[8 + i] = header[i];
            i = i + 1;
        }
        proof {
            let file = with_root(d, root.0 as nat);
            assert forall|j: int| 0 <= j < file.len() implies data@[j] == #[trigger] file[j] by {
                if j < 8 {
                    assert(d[j] == d.subrange(0, 16)[j]);
                }
            }
            assert(data@ =~= file);
        }
        Ok(ArenaCompactTree::from_written(data, Counters::default()))
    }
}

/// A path into nothing becomes a chain.
proof fn lemma_put_none(path: Seq<u8>, e: Edit<u64>)
    ensures
        put(Trie::<u64>::empty(), path, e) == chain(
            path,
            put(Trie::<u64>::empty(), Seq::empty(), e),
        ),
    decreases path.len(),
{
    if path.len() > 0 {
        lemma_put_none(path.drop_first(), e);
        assert(put(Trie::<u64>::empty(), path, e).kids =~= chain(
            path,
            put(Trie::<u64>::empty(), Seq::empty(), e),
        ).kids);
    } else {
        assert(path =~= Seq::<u8>::empty());
    }
}

/// A frame with one more child, behind the others.
proof fn lemma_attached(
    old_parent: &StreamFrame,
    parent: &StreamFrame,
    bytes: Seq<u8>,
    byte: u8,
    node: Node,
    child: Trie<u64>,
)
    requires
        old_parent.ok(bytes),
        forall|c: u8| #[trigger] old_parent.mask@.contains(c) ==> c < byte,
        denotes(bytes, node@, child),
        parent.mask@ == old_parent.mask@.insert(byte),
        parent.children@ == old_parent.children@.push(node),
        parent.kids@ == old_parent.kids@.insert(byte, child),
    ensures
        parent.ok(bytes),
{
    let s = old_parent.mask@;
    let t = parent.mask@;
    lemma_rank_append(s, byte);
    assert(parent.kids@.dom() =~= t);
    assert forall|b: u8| #[trigger] t.contains(b) implies rank(t, b as nat) < parent.children@.len()
        && denotes(
        bytes,
        parent.children@[rank(t, b as nat) as int]@,
        parent.kids@[b],
    ) by {
        if b != byte {
            assert(s.contains(b));
        }
    }
}

/// What pushing a path gives: the trie gets the path and its value; or the path does not come
/// after the last one, and nothing changes; or what then branches off along the path does not fit. What
/// branches off along the path is what is written.
pub open spec fn push_result(
    before: &ACTOutputStream,
    after: &ACTOutputStream,
    path: Seq<u8>,
    value: u64,
    r: Result<(), StreamError>,
) -> bool {
    let ordered = before.last() matches Some(last) ==> less(last, path);
    let content = put(before.content(), path, (Edit { val: Some(value), kids: None }));
    match r {
        Ok(()) => {
            &&& ordered
            &&& after.wf()
            &&& after.content() == content
            &&& after.last() == Some(path)
            &&& after.taken() == before.taken()
            &&& is_prefix(before.written(), after.written())
            &&& after.written() == build_along(Arena::start(), content, path).bytes
            &&& after.written().len() <= u64::MAX
        },
        Err(StreamError::OutOfOrder) => !ordered && *after == *before,
        Err(StreamError::TooLarge) => {
            &&& ordered
            &&& build_along(Arena::start(), content, path).bytes.len() > u64::MAX
        },
    }
}

} // verus!

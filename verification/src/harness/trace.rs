//! What is told of a zipper after each step.

use vstd::prelude::*;

use crate::arena_compact::act_iter::{any_place, count_at};
use crate::arena_compact::act_zipper::ACTZipper;
use crate::arena_compact::tree::Storage;
use crate::harness::op::{name_of, op_name, DUMP_CAP};
use crate::harness::show::{
    bool_text, byte_text, hex_path, path_text, show_bool, show_byte_opt, show_number, show_val,
    val_text,
};
use crate::slices::same_bytes;
use crate::text::decimal;
use crate::trie::Trie;
use crate::trie_order::{is_next, kids_vals};
use crate::trie_walk::{kids_of, look, val_of};
use crate::utils::bits::rank;

verus! {

/// What is told of a zipper: where it is, below its root and from the root of the trie, whether
/// that leads somewhere, the value there, how many bytes lead on, how many values are below, and
/// the byte that leads to it, which is not told at its root.
pub open spec fn description(
    escaped: bool,
    path: Seq<u8>,
    origin: Seq<u8>,
    exists: bool,
    val: Option<u64>,
    children: nat,
    count: nat,
    focus: Option<u8>,
) -> Seq<char> {
    (if escaped {
        "ESCAPED-ROOT "@
    } else {
        Seq::empty()
    }) + path_text(path) + " o"@ + path_text(origin) + " e"@ + bool_text(exists) + " v"@ + val_text(
        val,
    ) + " c"@ + decimal(children) + " n"@ + decimal(count) + " f"@ + (if path.len() == 0 {
        "?"@
    } else {
        byte_text(focus)
    })
}

/// Tells of a zipper.
pub fn describe(
    escaped: bool,
    path: &[u8],
    origin: &[u8],
    exists: bool,
    val: Option<u64>,
    children: usize,
    count: usize,
    focus: Option<u8>,
) -> (r: String)
    ensures
        r@ == description(
            escaped,
            path@,
            origin@,
            exists,
            val,
            children as nat,
            count as nat,
            focus,
        ),
{
    let mut s = String::new();
    if escaped {
        s.push_str("ESCAPED-ROOT ");
    }
    s.push_str(hex_path(path).as_str());
    s.push_str(" o");
    s.push_str(hex_path(origin).as_str());
    s.push_str(" e");
    s.push_str(show_bool(exists));
    s.push_str(" v");
    s.push_str(show_val(val.as_ref()).as_str());
    s.push_str(" c");
    s.push_str(show_number(children).as_str());
    s.push_str(" n");
    s.push_str(show_number(count).as_str());
    s.push_str(" f");
    if path.len() == 0 {
        s.push_str("?");
    } else {
        s.push_str(show_byte_opt(focus).as_str());
    }
    assert(Seq::<char>::empty() + "ESCAPED-ROOT "@ =~= "ESCAPED-ROOT "@);
    assert(s@ =~= description(
        escaped,
        path@,
        origin@,
        exists,
        val,
        children as nat,
        count as nat,
        focus,
    ));
    s
}

/// What is told of a zipper over a compact trie that was made at `root`.
pub open spec fn fingerprint_of<S: Storage>(z: &ACTZipper<S, u64>, root: Seq<u8>) -> Seq<char> {
    description(
        z.origin() != root,
        z.rel(),
        z.origin() + z.rel(),
        z.here() is Some,
        val_of(z.here()),
        rank(kids_of(z.here()), 256),
        count_at(z.here()),
        if z.rel().len() == 0 {
            None
        } else {
            Some(z.rel().last())
        },
    )
}

/// Per-step fingerprint of a zipper.
///
/// `expected_root` is the root the zipper was created at. A zipper must never leave it, so a
/// mismatch is tagged.
pub fn fingerprint<'t, S: Storage>(z: &ACTZipper<'t, S, u64>, expected_root: &[u8]) -> (r: String)
    requires
        z.wf(),
        count_at(z.here()) <= usize::MAX,
    ensures
        r@ == fingerprint_of(z, expected_root@),
{
    let focus = if z.at_root() {
        None
    } else {
        z.focus_byte()
    };
    proof {
        if z.rel().len() > 0 {
            assert((z.origin() + z.rel()).last() == z.rel().last());
        }
    }
    describe(
        !same_bytes(z.root_prefix_path(), expected_root),
        z.path(),
        z.origin_path(),
        z.path_exists(),
        z.get_value(),
        z.child_count(),
        z.val_count(),
        focus,
    )
}

/// What a zipper tells of itself.
pub struct Standing<'a> {
    pub at_root: bool,
    pub path: &'a [u8],
    pub origin_path: &'a [u8],
    pub root_prefix_path: &'a [u8],
    pub focus_byte: Option<u8>,
    pub path_exists: bool,
    pub is_val: bool,
    pub child_count: usize,
    /// How many bytes its mask of children has.
    pub listed: usize,
    pub val_count: usize,
}

impl<'a> Standing<'a> {
    /// The zipper was made at `root`, its path and the byte that leads to it agree, its full path is
    /// that of its root and its own, values and children are on paths that exist, the children are
    /// counted right, and so are the values below.
    pub open spec fn is_sound(&self, root: Seq<u8>) -> bool {
        &&& self.at_root == (self.path@.len() == 0)
        &&& self.origin_path@ == self.root_prefix_path@ + self.path@
        &&& self.root_prefix_path@ == root
        &&& !self.at_root ==> self.focus_byte == Some(self.path@.last())
        &&& self.is_val ==> self.path_exists && self.val_count >= 1
        &&& self.child_count == self.listed
        &&& self.child_count > 0 ==> self.path_exists
        &&& self.child_count == 0 ==> self.val_count == if self.is_val {
            1int
        } else {
            0
        }
    }

    /// Structural invariants every zipper must satisfy at every moment.
    pub fn check(&self, expected_root: &[u8]) -> (r: bool)
        ensures
            r == self.is_sound(expected_root@),
    {
        let mut want: Vec<u8> = Vec::new();
        crate::slices::push_slice(&mut want, self.root_prefix_path);
        crate::slices::push_slice(&mut want, self.path);
        assert(want@ =~= self.root_prefix_path@ + self.path@);
        if self.at_root != (self.path.len() == 0) || !same_bytes(
            self.origin_path,
            want.as_slice(),
        ) {
            return false;
        }
        if !same_bytes(self.root_prefix_path, expected_root) {
            return false;
        }
        if !self.at_root {
            match self.focus_byte {
                Some(b) => if b != self.path[self.path.len() - 1] {
                    return false;
                },
                None => {
                    return false;
                },
            }
        }
        if self.is_val && (!self.path_exists || self.val_count < 1) {
            return false;
        }
        if self.child_count != self.listed || (self.child_count > 0 && !self.path_exists) {
            return false;
        }
        self.child_count > 0 || self.val_count == if self.is_val {
            1
        } else {
            0
        }
    }
}

/// Whether the structural invariants of [Standing::is_sound] hold of a zipper. All that can be amiss
/// is that it was not made at `expected_root`.
pub fn check_zipper<'t, S: Storage>(z: &ACTZipper<'t, S, u64>, expected_root: &[u8]) -> (r: bool)
    requires
        z.wf(),
        count_at(z.here()) <= usize::MAX,
    ensures
        r == (z.origin() == expected_root@),
{
    let focus_byte = if z.at_root() {
        None
    } else {
        z.focus_byte()
    };
    let standing = Standing {
        at_root: z.at_root(),
        path: z.path(),
        origin_path: z.origin_path(),
        root_prefix_path: z.root_prefix_path(),
        focus_byte,
        path_exists: z.path_exists(),
        is_val: z.is_val(),
        child_count: z.child_count(),
        listed: z.child_mask().to_vec().len(),
        val_count: z.val_count(),
    };
    proof {
        if z.rel().len() > 0 {
            assert((z.origin() + z.rel()).last() == z.rel().last());
        }
        crate::utils::bits::lemma_members(kids_of(z.here()));
        crate::utils::bits::lemma_rank_is_len(Set::<u8>::empty());
        lemma_count(z.here());
    }
    standing.check(expected_root)
}

/// Where no byte leads on there are no values below.
proof fn lemma_no_kids(t: Trie<u64>, n: nat)
    requires
        n <= 256,
        rank(t.kids.dom(), n) == 0,
    ensures
        kids_vals(t, n) == 0,
    decreases n,
{
    if n > 0 {
        lemma_no_kids(t, (n - 1) as nat);
    }
}

/// A value at a place is counted, and where nothing leads on it is all that is.
proof fn lemma_count(r: Option<Trie<u64>>)
    ensures
        val_of(r) is Some ==> count_at(r) >= 1,
        rank(kids_of(r), 256) == 0 ==> count_at(r) == if val_of(r) is Some {
            1nat
        } else {
            0nat
        },
{
    if r is Some {
        let t = r->Some_0;
        if rank(kids_of(r), 256) == 0 {
            lemma_no_kids(t, 256);
        }
    }
}

/// Whether the focus has no descendants at all.
pub fn focus_node_empty<'t, S: Storage>(z: &ACTZipper<'t, S, u64>) -> (r: bool)
    requires
        z.wf(),
    ensures
        r == (kids_of(z.here()) == Set::<u8>::empty()),
{
    proof {
        crate::utils::bits::lemma_rank_is_len(kids_of(z.here()));
        crate::utils::bits::lemma_rank_is_len(Set::<u8>::empty());
        crate::utils::bits::lemma_members(kids_of(z.here()));
        if rank(kids_of(z.here()), 256) == 0 {
            assert(kids_of(z.here()) =~= Set::<u8>::empty());
        }
    }
    z.child_count() == 0
}

/// What a dump tells of a place.
pub open spec fn entry_text(path: Seq<u8>, val: Option<u64>) -> Seq<char> {
    path_text(path) + ":"@ + val_text(val)
}

/// What a dump tells of a place.
pub fn dump_entry(path: &[u8], val: Option<u64>) -> (r: String)
    ensures
        r@ == entry_text(path@, val),
{
    let mut s = hex_path(path);
    s.push_str(":");
    s.push_str(show_val(val.as_ref()).as_str());
    s
}

/// What a dump tells of the places `l`, with commas between.
pub open spec fn dump_text(root: Option<Trie<u64>>, l: Seq<Seq<u8>>) -> Seq<char>
    decreases l.len(),
{
    if l.len() == 0 {
        Seq::empty()
    } else {
        let last = entry_text(l.last(), val_of(look(root, l.last())));
        if l.len() == 1 {
            last
        } else {
            dump_text(root, l.drop_last()) + ","@ + last
        }
    }
}

/// `l` is the root and the places after it, in order, one next to the other.
pub open spec fn in_order(root: Option<Trie<u64>>, l: Seq<Seq<u8>>) -> bool {
    &&& l.len() > 0
    &&& l[0] == Seq::<u8>::empty()
    &&& forall|i: int, j: int|
        0 <= i && j == i + 1 && j < l.len() ==> is_next(
            root,
            Seq::empty(),
            #[trigger] l[i],
            any_place(),
            Some(#[trigger] l[j]),
        )
}

/// `l` is the root and the places after it, all of them or the first so many.
pub open spec fn is_dump(root: Option<Trie<u64>>, l: Seq<Seq<u8>>) -> bool {
    &&& in_order(root, l)
    &&& l.len() <= DUMP_CAP
    &&& l.len() < DUMP_CAP ==> is_next(root, Seq::empty(), l.last(), any_place(), None)
}

/// Depth-first dump of everything at and below the zipper's root, relative to it.
pub fn dump<'t, S: Storage>(z: &mut ACTZipper<'t, S, u64>) -> (r: String)
    requires
        old(z).wf(),
    ensures
        exists|l: Seq<Seq<u8>>| #[trigger]
            is_dump(old(z).root(), l) && r@ == dump_text(old(z).root(), l) && final(z).moved(
                old(z),
                if l.len() == DUMP_CAP {
                    l.last()
                } else {
                    Seq::empty()
                },
            ),
{
    z.reset();
    let ghost root = z.root();
    let ghost mut l: Seq<Seq<u8>> = seq![Seq::<u8>::empty()];
    let mut lines: usize = 1;
    let mut s = dump_entry(z.path(), z.get_value());
    proof {
        assert(l.last() =~= Seq::<u8>::empty());
        assert(dump_text(root, l) == entry_text(z.rel(), val_of(z.here())));
    }
    while lines < DUMP_CAP
        invariant
            lines == l.len(),
            1 <= lines <= DUMP_CAP,
            root == old(z).root(),
            in_order(root, l),
            z.moved(old(z), l.last()),
            s@ == dump_text(root, l),
        decreases DUMP_CAP - lines,
    {
        if !z.to_next_step() {
            assert(is_dump(root, l));
            return s;
        }
        let ghost l2 = l.push(z.rel());
        s.push_str(",");
        s.push_str(dump_entry(z.path(), z.get_value()).as_str());
        proof {
            assert(l2.drop_last() =~= l);
            assert(l2.last() == z.rel());
            l = l2;
        }
        lines = lines + 1;
        assert(s@ =~= dump_text(root, l));
    }
    assert(is_dump(root, l));
    s
}

/// What is told of a step: its number, the name of the operation, what it answered, and the two
/// zippers.
pub open spec fn trace_text(
    step: nat,
    code: u8,
    ret: Seq<char>,
    w: Seq<char>,
    r: Seq<char>,
) -> Seq<char> {
    decimal(step) + " "@ + name_of(code) + " ret="@ + ret + " W="@ + w + " R="@ + r + "\n"@
}

/// Tells of a step.
pub fn trace_line(step: usize, code: u8, ret: &str, w: &str, r: &str) -> (s: String)
    ensures
        s@ == trace_text(step as nat, code, ret@, w@, r@),
{
    let mut s = show_number(step);
    s.push_str(" ");
    s.push_str(op_name(code));
    s.push_str(" ret=");
    s.push_str(ret);
    s.push_str(" W=");
    s.push_str(w);
    s.push_str(" R=");
    s.push_str(r);
    s.push_str("\n");
    s
}

/// What is told at the end: the two maps and the two roots.
pub open spec fn closing_text(
    map0: Seq<char>,
    map1: Seq<char>,
    root0: Seq<u8>,
    root1: Seq<u8>,
) -> Seq<char> {
    "MAP0 "@ + map0 + "\nMAP1 "@ + map1 + "\nROOT0 "@ + path_text(root0) + "\nROOT1 "@ + path_text(
        root1,
    ) + "\n"@
}

/// Tells of the two maps and the two roots.
pub fn closing_lines(map0: &str, map1: &str, root0: &[u8], root1: &[u8]) -> (s: String)
    ensures
        s@ == closing_text(map0@, map1@, root0@, root1@),
{
    let mut s = "MAP0 ".to_owned();
    s.push_str(map0);
    s.push_str("\nMAP1 ");
    s.push_str(map1);
    s.push_str("\nROOT0 ");
    s.push_str(hex_path(root0).as_str());
    s.push_str("\nROOT1 ");
    s.push_str(hex_path(root1).as_str());
    s.push_str("\n");
    s
}

} // verus!

//! Telling whether bytes are those of a sound file.

use vstd::prelude::*;
use std::collections::HashMap;
use vstd::std_specs::hash::group_hash_axioms;

use crate::arena_compact::file::{history_wf, trailers_wf};
use crate::arena_compact::layout::magic;
use crate::arena_compact::meaning::{child_place, id_wf, node_wf, sibling, ARENA_START};
use crate::arena_compact::node::{
    line_at, node_at, opt_varint_at, read_node, Node, NodeId, LINE_FLAG, VALUE_FLAG,
};
use crate::arena_compact::tree::{ArenaCompactTree, Storage};
use crate::arena_compact::varint::{read_le, read_varint_from, varint_at, VARINT_LEN_BIAS};
use crate::utils::bits::{lemma_members, lemma_rank_is_len, members, rank};
use crate::utils::byte_mask::BitMask;

verus! {

/// The integer at `pos`, where all of its bytes are there.
fn try_varint(data: &[u8], pos: usize) -> (r: Option<(u64, usize)>)
    ensures
        match r {
            Some((v, n)) => varint_at(data@, pos as int) == Some((v, n as nat)) && pos + n
                <= data.len(),
            None => varint_at(data@, pos as int) is None,
        },
{
    if pos >= data.len() {
        return None;
    }
    let first = data[pos];
    let len = if first <= VARINT_LEN_BIAS {
        1
    } else {
        (first - VARINT_LEN_BIAS) as usize + 1
    };
    if len > data.len() - pos {
        return None;
    }
    Some(read_varint_from(data, pos))
}

/// The integer at `pos` where one is said to be, and the place behind it.
fn try_opt_varint(data: &[u8], pos: usize, present: bool) -> (r: Option<(Option<u64>, usize)>)
    requires
        pos <= data@.len(),
    ensures
        match r {
            Some((v, p)) => opt_varint_at(data@, pos as int, present) == Some((v, p as int)) && pos
                <= p <= data.len(),
            None => opt_varint_at(data@, pos as int, present) is None,
        },
{
    if !present {
        return Some((None, pos));
    }
    match try_varint(data, pos) {
        Some((v, n)) => Some((Some(v), pos + n)),
        None => None,
    }
}

/// Whether the offset leads to a place in the arena.
fn leads_back(id: u64, off: Option<u64>) -> (r: bool)
    ensures
        r == crate::arena_compact::node::offset_ok(id as nat, off),
{
    match off {
        Some(o) => o <= id,
        None => true,
    }
}

/// Whether a whole node is at `id`.
fn node_is_there(data: &[u8], id: u64) -> (r: bool)
    ensures
        r == node_at(data@, id as nat) is Some,
{
    let len = data.len();
    if id >= len as u64 {
        return false;
    }
    let start = id as usize;
    let head = data[start];
    let (value, p1) = match try_opt_varint(data, start + 1, head & VALUE_FLAG != 0) {
        None => {
            return false;
        },
        Some(found) => found,
    };
    if head & LINE_FLAG == 0 {
        let count = (head & 0x3f) as usize;
        match try_opt_varint(data, p1, count > 0) {
            None => false,
            Some((off, p2)) => count <= 32 && count <= len - p2 && leads_back(id, off),
        }
    } else {
        match try_opt_varint(data, p1, head & 1 != 0) {
            None => false,
            Some((off, p2)) => match try_varint(data, p2) {
                None => false,
                Some((back, _)) => back <= id && leads_back(id, off),
            },
        }
    }
}

/// Whether a whole line is at `id`.
fn line_is_there(data: &[u8], id: u64) -> (r: bool)
    ensures
        r == line_at(data@, id as nat) is Some,
{
    let len = data.len();
    if id >= len as u64 {
        return false;
    }
    match try_varint(data, id as usize) {
        None => false,
        Some((n, off)) => n > 0 && n <= (len - id as usize - off) as u64,
    }
}

/// The nodes at these places are known to be sound.
spec fn known_sound(d: Seq<u8>, known: Map<u64, bool>) -> bool {
    forall|id: u64| #[trigger] known.contains_key(id) ==> id_wf(d, id as nat)
}

/// Whether the children that stand one behind the other from `first` on are sound, all of the
/// `count` of them.
fn children_are_sound(
    data: &[u8],
    first: u64,
    count: usize,
    lim: u64,
    known: &mut HashMap<u64, bool>,
) -> (r: bool)
    requires
        known_sound(data@, old(known)@),
    ensures
        known_sound(data@, final(known)@),
        r == forall|k: nat|
            k < count ==> ARENA_START <= #[trigger] sibling(data@, first as nat, k) < lim && id_wf(
                data@,
                sibling(data@, first as nat, k),
            ),
    decreases lim, 0nat,
{
    let ghost d = data@;
    let mut p: u64 = first;
    let mut i: usize = 0;
    while i < count
        invariant
            i <= count,
            d == data@,
            known_sound(d, known@),
            p == sibling(d, first as nat, i as nat),
            forall|k: nat|
                k < i ==> ARENA_START <= #[trigger] sibling(d, first as nat, k) < lim && id_wf(
                    d,
                    sibling(d, first as nat, k),
                ),
        decreases count - i,
    {
        assert(sibling(d, first as nat, i as nat) == p);
        if p < ARENA_START || p >= lim || !id_is_sound(data, p, known) {
            return false;
        }
        let len = data.len();
        let (_, n) = read_node(data, NodeId(p));
        proof {
            crate::arena_compact::node::lemma_node_agree(d, d, p as nat);
        }
        p = p + n as u64;
        i = i + 1;
    }
    true
}

/// Whether a sound node is at `id`. Nodes that are found to be sound are not looked at again.
fn id_is_sound(data: &[u8], id: u64, known: &mut HashMap<u64, bool>) -> (r: bool)
    requires
        known_sound(data@, old(known)@),
    ensures
        known_sound(data@, final(known)@),
        r == id_wf(data@, id as nat),
    decreases id, 1nat,
{
    broadcast use group_hash_axioms;

    reveal(node_wf);
    let ghost d = data@;
    if known.contains_key(&id) {
        return true;
    }
    if id < ARENA_START || !node_is_there(data, id) {
        return false;
    }
    let (node, _) = read_node(data, NodeId(id));
    let ghost n = node@;
    let sound = match &node {
        Node::Branch(branch) => {
            let count = branch.bytemask.count_bits();
            let ghost mask = branch.bytemask@;
            proof {
                lemma_members(mask);
                lemma_rank_is_len(mask);
                lemma_rank_is_len(Set::<u8>::empty());
                if count == 0 {
                    assert(mask =~= Set::<u8>::empty());
                }
            }
            match branch.first_child {
                None => count == 0,
                Some(first) => {
                    let r = count > 0 && first.0 < id && children_are_sound(
                        data,
                        first.0,
                        count,
                        id,
                        known,
                    );
                    proof {
                        let f = first.0 as nat;
                        if r {
                            assert forall|b: u8| #[trigger] mask.contains(b) implies {
                                let c = child_place(d, mask, Some(f), b);
                                ARENA_START <= c < id && id_wf(d, c)
                            } by {
                                assert(rank(mask, b as nat) < rank(mask, 256));
                                let k = rank(mask, b as nat);
                                assert(ARENA_START <= sibling(d, f, k) < id);
                            }
                        } else if count > 0 && first.0 < id {
                            let k = choose|k: nat|
                                k < count && !(ARENA_START <= #[trigger] sibling(d, f, k) < id
                                    && id_wf(d, sibling(d, f, k)));
                            let b = members(mask)[k as int];
                            assert(mask.contains(b));
                            assert(child_place(d, mask, Some(f), b) == sibling(d, f, k));
                        }
                    }
                    r
                },
            }
        },
        Node::Line(line) => {
            let path = line.path.0;
            let here = ARENA_START <= path && path <= id && line_is_there(data, path);
            match line.child {
                None => here,
                Some(child) => here && line.value.is_none() && ARENA_START <= child.0 && child.0
                    < id && id_is_sound(data, child.0, known),
            }
        },
    };
    assert(sound == node_wf(d, n, id as nat));
    if sound {
        let ghost before = known@;
        known.insert(id, true);
        assert forall|k: u64| #[trigger] known@.contains_key(k) implies id_wf(d, k as nat) by {
            if k != id {
                assert(before.contains_key(k));
            }
        }
    }
    sound
}

/// Whether the trailers from `off` on lead back.
fn trailers_are_sound(data: &[u8], off: usize) -> (r: bool)
    ensures
        r == trailers_wf(data@, off as int),
    decreases off,
{
    let len = data.len();
    if off < 16 || len < 16 || off > len - 16 {
        return true;
    }
    let earlier = read_le(data, off, 8);
    let root = read_le(data, off + 8, 8);
    if root == 0 || earlier == 0 {
        return true;
    }
    if earlier >= off as u64 {
        return false;
    }
    trailers_are_sound(data, earlier as usize)
}

impl<S: Storage> ArenaCompactTree<S> {
    /// Whether the bytes are those of a sound file. Only such a file can be read.
    pub fn is_sound(&self) -> (r: bool)
        ensures
            r == self.wf(),
    {
        let data = self.get_data();
        let ghost d = data@;
        let len = data.len();
        if len < 16 {
            return false;
        }
        let same = data[0] == 0x41 && data[1] == 0x43 && data[2] == 0x54 && data[3] == 0x72
            && data[4] == 0x65 && data[5] == 0x65 && data[6] == 0x30 && data[7] == 0x33;
        proof {
            let head = d.subrange(0, 8);
            if same {
                assert(head =~= magic());
            } else {
                assert(head == magic() ==> head[0] == 0x41 && head[1] == 0x43 && head[2] == 0x54
                    && head[3] == 0x72 && head[4] == 0x65 && head[5] == 0x65 && head[6] == 0x30
                    && head[7] == 0x33);
            }
        }
        if !same {
            return false;
        }
        let root = read_le(data, 8, 8);
        let mut known: HashMap<u64, bool> = HashMap::new();
        id_is_sound(data, root, &mut known)
    }

    /// Whether the trailers of the file lead back, so that its earlier roots can be told.
    pub fn has_sound_history(&self) -> (r: bool)
        ensures
            r == history_wf(self.bytes()),
    {
        let data = self.get_data();
        data.len() < 16 || trailers_are_sound(data, data.len() - 16)
    }
}

} // verus!

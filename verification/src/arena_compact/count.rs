//! Counting the values of a compact trie.

use vstd::prelude::*;

use crate::arena_compact::meaning::{
    child_place, id_trie, lemma_id_node, node_trie, node_wf, sibling,
};
use crate::arena_compact::node::{id_view, line_at, Node};
use crate::arena_compact::tree::{lemma_siblings_sound, ArenaCompactTree, Storage};
use crate::trie::{chain, Trie};
use crate::trie_order::{count_vals, kids_vals};
use crate::utils::bits::{lemma_members, lemma_rank_is_len, members, rank};
use crate::utils::byte_mask::BitMask;

verus! {

/// A chain has the values of what is at its end.
pub proof fn lemma_count_chain<V>(line: Seq<u8>, t: Trie<V>)
    ensures
        count_vals(chain(line, t)) == count_vals(t),
    decreases line.len(),
{
    if line.len() > 0 {
        let c = chain(line, t);
        lemma_count_chain(line.drop_first(), t);
        lemma_kids_vals_gap(c, 0, line[0] as nat);
        lemma_kids_vals_gap(c, (line[0] + 1) as nat, 256);
        assert(c.kids.contains_key(line[0]));
    }
}

/// Where no byte leads on there are no values.
proof fn lemma_kids_vals_gap<V>(t: Trie<V>, m: nat, n: nat)
    requires
        m <= n <= 256,
        forall|b: u8| m <= b < n ==> !#[trigger] t.kids.contains_key(b),
    ensures
        kids_vals(t, n) == kids_vals(t, m),
    decreases n,
{
    if m < n {
        lemma_kids_vals_gap(t, m, (n - 1) as nat);
        assert(!t.kids.contains_key((n - 1) as u8));
    }
}

proof fn lemma_kids_vals_mono<V>(t: Trie<V>, m: nat, n: nat)
    requires
        m <= n,
    ensures
        kids_vals(t, m) <= kids_vals(t, n),
    decreases n,
{
    if m < n {
        lemma_kids_vals_mono(t, m, (n - 1) as nat);
    }
}

/// The values below the children up to the `k`th.
proof fn lemma_kids_vals_step<V>(t: Trie<V>, k: int)
    requires
        0 <= k < members(t.kids.dom()).len(),
    ensures
        ({
            let b = members(t.kids.dom())[k];
            &&& t.kids.contains_key(b)
            &&& kids_vals(t, (b + 1) as nat) == vals_before(t, k) + count_vals(t.kids[b])
            &&& kids_vals(t, (b + 1) as nat) <= kids_vals(t, 256)
        }),
{
    let s = t.kids.dom();
    lemma_members(s);
    let b = members(s)[k];
    assert(s.contains(b));
    lemma_kids_vals_mono(t, (b + 1) as nat, 256);
    let from: nat = if k == 0 {
        0
    } else {
        (members(s)[k - 1] + 1) as nat
    };
    if k > 0 {
        assert(members(s)[k - 1] < members(s)[k]);
    }
    assert forall|c: u8| from <= c < b implies !#[trigger] t.kids.contains_key(c) by {
        if s.contains(c) {
            let m = rank(s, c as nat) as int;
            assert(members(s)[m] == c);
            if m > k {
                assert(members(s)[k] < members(s)[m]);
            }
            if m < k - 1 {
                assert(members(s)[m] < members(s)[k - 1]);
            }
        }
    }
    lemma_kids_vals_gap(t, from, b as nat);
}

/// The values below the first `k` children.
spec fn vals_before<V>(t: Trie<V>, k: int) -> nat {
    if k <= 0 {
        0
    } else {
        kids_vals(t, (members(t.kids.dom())[k - 1] + 1) as nat)
    }
}

/// The values below all children.
proof fn lemma_vals_all<V>(t: Trie<V>)
    ensures
        vals_before(t, members(t.kids.dom()).len() as int) == kids_vals(t, 256),
{
    let s = t.kids.dom();
    let n = members(s).len() as int;
    lemma_members(s);
    lemma_rank_is_len(s);
    let from: nat = if n == 0 {
        0
    } else {
        (members(s)[n - 1] + 1) as nat
    };
    assert forall|c: u8| from <= c < 256 implies !#[trigger] t.kids.contains_key(c) by {
        if s.contains(c) {
            let m = rank(s, c as nat) as int;
            assert(members(s)[m] == c);
            if m < n - 1 {
                assert(members(s)[m] < members(s)[n - 1]);
            }
        }
    }
    lemma_kids_vals_gap(t, from, 256);
}

impl<S: Storage> ArenaCompactTree<S> {
    /// The number of values at and below a node, where a machine word can tell it.
    pub(crate) fn count_node(&self, node: Node, Ghost(lim): Ghost<nat>) -> (r: Option<usize>)
        requires
            node_wf(self.bytes(), node@, lim),
        ensures
            match r {
                Some(n) => n == count_vals(node_trie(self.bytes(), node@, lim)),
                None => count_vals(node_trie(self.bytes(), node@, lim)) > usize::MAX,
            },
        decreases lim,
    {
        let ghost d = self.bytes();
        let ghost t = node_trie(d, node@, lim);
        proof {
            reveal(node_wf);
            reveal(node_trie);
        }
        match node {
            Node::Line(line) => {
                let ghost bytes = line_at(d, line.path.0 as nat)->Some_0;
                match line.child {
                    Some(child) => {
                        proof {
                            lemma_count_chain(bytes, id_trie(d, child.0 as nat));
                            lemma_id_node(d, child.0 as nat);
                        }
                        let (next, _) = self.get_node(child);
                        self.count_node(next, Ghost(child.0 as nat))
                    },
                    None => {
                        proof {
                            let leaf = Trie::leaf(line.value);
                            lemma_count_chain(bytes, leaf);
                            lemma_kids_vals_gap(leaf, 0, 256);
                        }
                        if line.value.is_some() {
                            Some(1)
                        } else {
                            Some(0)
                        }
                    },
                }
            },
            Node::Branch(branch) => {
                let ghost mask = branch.bytemask@;
                let ghost first = id_view(branch.first_child);
                let mut total: usize = if branch.value.is_some() {
                    1
                } else {
                    0
                };
                let ghost own = total as nat;
                let count = branch.bytemask.count_bits();
                proof {
                    assert(t.kids.dom() =~= mask);
                    lemma_members(mask);
                    lemma_rank_is_len(mask);
                }
                if count > 0 {
                    let mut id = branch.first_child.unwrap();
                    let mut k: usize = 0;
                    while k < count
                        invariant
                            d == self.bytes(),
                            t == node_trie(d, node@, lim),
                            node is Branch,
                            node->Branch_0 == branch,
                            mask == branch.bytemask@,
                            first == id_view(branch.first_child),
                            first is Some,
                            node_wf(d, node@, lim),
                            t.kids.dom() == mask,
                            count == rank(mask, 256),
                            count == members(mask).len(),
                            k <= count,
                            id.0 == sibling(d, first->Some_0, k as nat),
                            total == own + vals_before(t, k as int),
                            count_vals(t) == own + kids_vals(t, 256),
                        decreases count - k,
                    {
                        let ghost b = members(mask)[k as int];
                        proof {
                            lemma_siblings_sound(d, mask, first, branch.value, lim, k as nat);
                            lemma_id_node(d, id.0 as nat);
                            lemma_kids_vals_step(t, k as int);
                            reveal(node_trie);
                            assert(t.kids[b] == id_trie(d, child_place(d, mask, first, b)));
                        }
                        let (child, next) = self.get_node(id);
                        let n = match self.count_node(child, Ghost(id.0 as nat)) {
                            Some(n) => n,
                            None => {
                                return None;
                            },
                        };
                        if n > usize::MAX - total {
                            return None;
                        }
                        total = total + n;
                        id = next;
                        k = k + 1;
                    }
                }
                proof {
                    lemma_vals_all(t);
                }
                Some(total)
            },
        }
    }
}

} // verus!

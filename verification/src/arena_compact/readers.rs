//! Getting zippers and iterators over a compact trie, and reading values through them.

use vstd::prelude::*;

use crate::arena_compact::act_iter::with_value;
use crate::arena_compact::act_zipper::ACTZipper;
use crate::arena_compact::tree::{ArenaCompactTree, Storage};
use crate::slices::push_slice;
use crate::trie::Trie;
use crate::trie_order::{
    is_next, lemma_less_total, lemma_less_transitive, lemma_places_after_bound,
    lemma_places_after_less, less, picked, places_after,
};
use crate::trie_walk::{look, val_of};
use crate::utils::byte_mask::{BitMask, ByteMask};
use crate::zipper::{bytes_at, Zipper};

verus! {

impl<S: Storage> ArenaCompactTree<S> {
    /// A zipper at the root of the trie, which reads its values.
    pub fn read_zipper_u64<'tree>(&'tree self) -> (r: ACTZipper<'tree, S, u64>)
        requires
            self.wf(),
        ensures
            r.wf(),
            r.whole() == self.view(),
            r.origin() == Seq::<u8>::empty(),
            r.rel() == Seq::<u8>::empty(),
    {
        ACTZipper::from_tree(self)
    }

    /// A zipper whose root is at the end of `path`, which reads the values.
    pub fn read_zipper_at_path_u64<'tree>(&'tree self, path: &[u8]) -> (r: ACTZipper<'tree, S, u64>)
        requires
            self.wf(),
        ensures
            r.wf(),
            r.whole() == self.view(),
            r.origin() == path@,
            r.rel() == Seq::<u8>::empty(),
    {
        let mut rz = ACTZipper::from_tree(self);
        rz.descend_to(path);
        assert(Seq::<u8>::empty() + (Seq::<u8>::empty() + path@) =~= path@);
        rz.with_root_here()
    }

    /// The same as [read_zipper_at_path_u64](Self::read_zipper_at_path_u64).
    pub fn read_zipper_at_borrowed_path_u64<'tree>(&'tree self, path: &[u8]) -> (r: ACTZipper<
        'tree,
        S,
        u64,
    >)
        requires
            self.wf(),
        ensures
            r.wf(),
            r.whole() == self.view(),
            r.origin() == path@,
            r.rel() == Seq::<u8>::empty(),
    {
        self.read_zipper_at_path_u64(path)
    }

    /// A zipper at the root of the trie, which tells only whether there are values.
    pub fn read_zipper<'tree>(&'tree self) -> (r: ACTZipper<'tree, S, ()>)
        requires
            self.wf(),
        ensures
            r.wf(),
            r.whole() == self.view(),
            r.origin() == Seq::<u8>::empty(),
            r.rel() == Seq::<u8>::empty(),
    {
        ACTZipper::from_tree(self)
    }

    /// A zipper whose root is at the end of `path`, which tells only whether there are values.
    pub fn read_zipper_at_path<'tree>(&'tree self, path: &[u8]) -> (r: ACTZipper<'tree, S, ()>)
        requires
            self.wf(),
        ensures
            r.wf(),
            r.whole() == self.view(),
            r.origin() == path@,
            r.rel() == Seq::<u8>::empty(),
    {
        let mut rz = ACTZipper::from_tree(self);
        rz.descend_to(path);
        assert(Seq::<u8>::empty() + (Seq::<u8>::empty() + path@) =~= path@);
        rz.with_root_here()
    }

    /// The same as [read_zipper_at_path](Self::read_zipper_at_path).
    pub fn read_zipper_at_borrowed_path<'tree>(&'tree self, path: &[u8]) -> (r: ACTZipper<
        'tree,
        S,
        (),
    >)
        requires
            self.wf(),
        ensures
            r.wf(),
            r.whole() == self.view(),
            r.origin() == path@,
            r.rel() == Seq::<u8>::empty(),
    {
        self.read_zipper_at_path(path)
    }

    /// Iterate over paths with `u64` values in ArenaCompactTree.
    pub fn iter<'tree>(&'tree self) -> (r: ActIter<'tree, S>)
        requires
            self.wf(),
        ensures
            r.wf(),
            r.trie() == self.view(),
            !r.started(),
            r.pos() == Seq::<u8>::empty(),
    {
        ActIter { zipper: self.read_zipper_u64(), root_visited: false }
    }
}

/// A trie with a unit in place of each value.
pub open spec fn units(t: Trie<u64>) -> Trie<()>
    decreases t,
{
    Trie {
        val: match t.val {
            Some(_) => Some(()),
            None => None,
        },
        kids: Map::new(
            |b: u8| t.kids.contains_key(b),
            |b: u8|
                if t.kids.contains_key(b) {
                    units(t.kids[b])
                } else {
                    Trie::empty()
                },
        ),
    }
}

/// The same paths lead somewhere.
pub proof fn lemma_units_at(t: Trie<u64>, p: Seq<u8>)
    ensures
        units(t).at(p) == match t.at(p) {
            Some(u) => Some(units(u)),
            None => None,
        },
    decreases p.len(),
{
    if p.len() > 0 && t.kids.contains_key(p[0]) {
        lemma_units_at(t.kids[p[0]], p.drop_first());
    }
}

/// The trie below a place, which is empty where there is no place.
pub open spec fn below(r: Option<Trie<u64>>) -> Trie<u64> {
    match r {
        Some(t) => t,
        None => Trie::empty(),
    }
}

impl<'tree, S: Storage> ACTZipper<'tree, S, u64> {
    /// Returns the value at the zipper's focus, or `None` if there is no value.
    pub fn val(&self) -> (r: Option<&u64>)
        requires
            self.wf(),
        ensures
            match r {
                Some(v) => val_of(self.here()) == Some(*v),
                None => val_of(self.here()) is None,
            },
    {
        self.value_ref()
    }

    /// Returns the value at `path` relative to the zipper's focus, or `None` if there is no value.
    pub fn val_at(&self, path: &[u8]) -> (r: Option<u64>)
        requires
            self.wf(),
        ensures
            r == val_of(look(self.here(), path@)),
    {
        self.get_value_at(path)
    }

    /// Returns the value at the zipper's focus, or `None` if there is no value.
    pub fn get_val(&self) -> (r: Option<u64>)
        requires
            self.wf(),
        ensures
            r == val_of(self.here()),
    {
        self.get_value()
    }

    /// Returns the value at `path` relative to the zipper's focus, or `None` if there is no value.
    pub fn get_val_at(&self, path: &[u8]) -> (r: Option<u64>)
        requires
            self.wf(),
        ensures
            r == val_of(look(self.here(), path@)),
    {
        self.get_value_at(path)
    }
}

impl<'tree, S: Storage> ACTZipper<'tree, S, ()> {
    /// Returns a unit if there is a value at the zipper's focus.
    pub fn val(&self) -> (r: Option<&()>)
        requires
            self.wf(),
        ensures
            r is Some <==> val_of(self.here()) is Some,
    {
        if self.is_val() {
            Some(&())
        } else {
            None
        }
    }

    /// Returns a unit if there is a value at `path` relative to the zipper's focus.
    pub fn val_at(&self, path: &[u8]) -> (r: Option<()>)
        requires
            self.wf(),
        ensures
            r is Some <==> val_of(look(self.here(), path@)) is Some,
    {
        if self.get_value_at(path).is_some() {
            Some(())
        } else {
            None
        }
    }

    /// Returns a unit if there is a value at the zipper's focus.
    pub fn get_val(&self) -> (r: Option<()>)
        requires
            self.wf(),
        ensures
            r is Some <==> val_of(self.here()) is Some,
    {
        if self.is_val() {
            Some(())
        } else {
            None
        }
    }

    /// Returns a unit if there is a value at `path` relative to the zipper's focus.
    pub fn get_val_at(&self, path: &[u8]) -> (r: Option<()>)
        requires
            self.wf(),
        ensures
            r is Some <==> val_of(look(self.here(), path@)) is Some,
    {
        self.val_at(path)
    }
}

impl<'tree, S: Storage, Value> ACTZipper<'tree, S, Value> {
    /// There is no way to tell of a place in the arena whether it is shared.
    pub fn is_shared(&self) -> (r: bool)
        ensures
            !r,
    {
        false
    }
}

impl<'tree, S: Storage> Zipper<u64> for ACTZipper<'tree, S, u64> {
    open spec fn wf(&self) -> bool {
        ACTZipper::wf(self)
    }

    open spec fn trie(&self) -> Trie<u64> {
        below(self.root())
    }

    open spec fn focus(&self) -> Seq<u8> {
        self.rel()
    }

    open spec fn shares(&self) -> spec_fn(Seq<u8>) -> Option<u64> {
        |p: Seq<u8>| None
    }

    proof fn lemma_shares(&self, p: Seq<u8>, q: Seq<u8>) {
    }

    fn child_mask(&self) -> (r: ByteMask) {
        assert(Map::<u8, Trie<u64>>::empty().dom() =~= Set::<u8>::empty());
        ACTZipper::child_mask(self)
    }

    fn val(&self) -> (r: Option<&u64>) {
        self.value_ref()
    }

    fn shared_node_id(&self) -> (r: Option<u64>) {
        None
    }

    fn descend_to_byte(&mut self, byte: u8) {
        ACTZipper::descend_to_byte(self, byte)
    }

    fn ascend(&mut self, steps: usize) -> (n: usize) {
        ACTZipper::ascend(self, steps)
    }

    fn reset(&mut self) {
        ACTZipper::reset(self)
    }
}

impl<'tree, S: Storage> Zipper<()> for ACTZipper<'tree, S, ()> {
    open spec fn wf(&self) -> bool {
        ACTZipper::wf(self)
    }

    open spec fn trie(&self) -> Trie<()> {
        units(below(self.root()))
    }

    open spec fn focus(&self) -> Seq<u8> {
        self.rel()
    }

    open spec fn shares(&self) -> spec_fn(Seq<u8>) -> Option<u64> {
        |p: Seq<u8>| None
    }

    proof fn lemma_shares(&self, p: Seq<u8>, q: Seq<u8>) {
    }

    fn child_mask(&self) -> (r: ByteMask) {
        let r = ACTZipper::child_mask(self);
        proof {
            lemma_units_at(below(self.root()), self.rel());
            assert(Map::<u8, Trie<u64>>::empty().dom() =~= Set::<u8>::empty());
            assert(bytes_at(units(below(self.root())), self.rel()) =~= bytes_at(
                below(self.root()),
                self.rel(),
            ));
        }
        r
    }

    fn val(&self) -> (r: Option<&()>) {
        proof {
            lemma_units_at(below(self.root()), self.rel());
        }
        ACTZipper::<S, ()>::val(self)
    }

    fn shared_node_id(&self) -> (r: Option<u64>) {
        None
    }

    fn descend_to_byte(&mut self, byte: u8) {
        ACTZipper::descend_to_byte(self, byte)
    }

    fn ascend(&mut self, steps: usize) -> (n: usize) {
        ACTZipper::ascend(self, steps)
    }

    fn reset(&mut self) {
        ACTZipper::reset(self)
    }
}

/// Iterator over (Path, Value) in ArenaCompactTree.
pub struct ActIter<'a, S: Storage> {
    zipper: ACTZipper<'a, S, u64>,
    root_visited: bool,
}

impl<'a, S: Storage> ActIter<'a, S> {
    pub closed spec fn wf(&self) -> bool {
        self.zipper.wf() && self.zipper.origin() == Seq::<u8>::empty()
    }

    /// The trie whose values are visited.
    pub closed spec fn trie(&self) -> Trie<u64> {
        self.zipper.whole()
    }

    /// The root has been visited.
    pub closed spec fn started(&self) -> bool {
        self.root_visited
    }

    /// The place that was visited last. It is the root at the start and again at the end.
    pub closed spec fn pos(&self) -> Seq<u8> {
        self.zipper.rel()
    }

    /// The next path with a value, in depth-first order, and its value.
    pub fn next(&mut self) -> (r: Option<(Vec<u8>, u64)>)
        requires
            old(self).wf(),
        ensures
            final(self).wf(),
            final(self).trie() == old(self).trie(),
            final(self).started(),
            match r {
                Some((path, val)) => {
                    &&& path@ == final(self).pos()
                    &&& old(self).trie().get(path@) == Some(val)
                },
                None => final(self).pos() == Seq::<u8>::empty(),
            },
            !old(self).started() && old(self).pos() == Seq::<u8>::empty() && old(self).trie().val
                is Some ==> r is Some && final(self).pos() == Seq::<u8>::empty(),
            old(self).started() || old(self).trie().val is None ==> is_next(
                Some(old(self).trie()),
                Seq::empty(),
                old(self).pos(),
                with_value(),
                match r {
                    Some(_) => Some(final(self).pos()),
                    None => None,
                },
            ),
    {
        assert(self.trie().at(Seq::empty()) == Some(self.trie()));
        if !self.root_visited {
            self.root_visited = true;
            if self.zipper.at_root() {
                if let Some(val) = self.zipper.get_value() {
                    let path: Vec<u8> = Vec::new();
                    assert(path@ =~= self.zipper.rel());
                    return Some((path, val));
                }
            }
        }
        if !self.zipper.to_next_val() {
            return None;
        }
        let mut path: Vec<u8> = Vec::new();
        push_slice(&mut path, self.zipper.path());
        assert(path@ =~= self.zipper.rel());
        match self.zipper.get_value() {
            Some(val) => Some((path, val)),
            None => None,
        }
    }

    /// All paths with their values, in depth-first order.
    pub fn collect(&mut self) -> (r: Vec<(Vec<u8>, u64)>)
        requires
            old(self).wf(),
            !old(self).started(),
            old(self).pos() == Seq::<u8>::empty(),
        ensures
            lists_values(r@, old(self).trie()),
    {
        let ghost t = self.trie();
        let mut out: Vec<(Vec<u8>, u64)> = Vec::new();
        let ghost none = Seq::<u8>::empty();
        assert(t.at(none) == Some(t));
        let mut first = true;
        loop
            invariant
                self.wf(),
                self.trie() == t,
                t == old(self).trie(),
                none == Seq::<u8>::empty(),
                t.at(none) == Some(t),
                first ==> !self.started() && self.pos() == none && out@.len() == 0,
                !first ==> self.started() && out@.len() > 0 && self.pos() == out@.last().0@,
                lists_up_to(out@, t, self.pos()),
            decreases
                    if first {
                        1int
                    } else {
                        0int
                    },
                    places_after(t, self.pos()),
        {
            let ghost before = self.pos();
            let ghost started = self.started();
            let r = self.next();
            proof {
                lemma_places_after_bound(t, self.pos());
                if started || t.val is None {
                    if r is Some {
                        assert(picked(Some(t), none, before, with_value(), self.pos()));
                        lemma_places_after_less(t, before, self.pos());
                    }
                    lemma_list_step(out@, t, before, self.pos(), r);
                } else {
                    lemma_list_first(t, self.pos(), r);
                    assert(out@.push(r->Some_0) =~= seq![r->Some_0]);
                }
            }
            match r {
                None => {
                    return out;
                },
                Some(entry) => {
                    out.push(entry);
                    first = false;
                },
            }
        }
    }
}

/// The list has, in ascending order of the paths, exactly the values of the trie.
pub open spec fn lists_values(s: Seq<(Vec<u8>, u64)>, t: Trie<u64>) -> bool {
    &&& forall|i: int| 0 <= i < s.len() ==> t.get((#[trigger] s[i]).0@) == Some(s[i].1)
    &&& forall|i: int, j: int|
        0 <= i < j < s.len() ==> less((#[trigger] s[i]).0@, (#[trigger] s[j]).0@)
    &&& forall|p: Seq<u8>| #[trigger]
        t.get(p) is Some ==> exists|i: int| 0 <= i < s.len() && (#[trigger] s[i]).0@ == p
}

/// The list has the values up to `c`.
spec fn lists_up_to(s: Seq<(Vec<u8>, u64)>, t: Trie<u64>, c: Seq<u8>) -> bool {
    &&& forall|i: int| 0 <= i < s.len() ==> t.get((#[trigger] s[i]).0@) == Some(s[i].1)
    &&& forall|i: int, j: int|
        0 <= i < j < s.len() ==> less((#[trigger] s[i]).0@, (#[trigger] s[j]).0@)
    &&& forall|p: Seq<u8>| #[trigger]
        t.get(p) is Some && s.len() > 0 && !less(c, p) ==> exists|i: int|
            0 <= i < s.len() && (#[trigger] s[i]).0@ == p
    &&& s.len() > 0 ==> s.last().0@ == c
}

proof fn lemma_list_first(t: Trie<u64>, c: Seq<u8>, r: Option<(Vec<u8>, u64)>)
    requires
        r matches Some((path, val)) && path@ == c && t.get(c) == Some(val),
        c == Seq::<u8>::empty(),
    ensures
        lists_up_to(seq![r->Some_0], t, c),
{
    let s = seq![r->Some_0];
    assert forall|p: Seq<u8>| #[trigger] t.get(p) is Some && !less(c, p) implies exists|i: int|
        0 <= i < s.len() && (#[trigger] s[i]).0@ == p by {
        lemma_less_total(c, p);
        if less(p, c) {
            assert(false);
        }
        assert(s[0].0@ == p);
    }
}

/// One more value.
proof fn lemma_list_step(
    s: Seq<(Vec<u8>, u64)>,
    t: Trie<u64>,
    c: Seq<u8>,
    q: Seq<u8>,
    r: Option<(Vec<u8>, u64)>,
)
    requires
        lists_up_to(s, t, c),
        s.len() == 0 ==> c == Seq::<u8>::empty() && t.val is None,
        is_next(
            Some(t),
            Seq::empty(),
            c,
            with_value(),
            match r {
                Some(_) => Some(q),
                None => None,
            },
        ),
        r matches Some((path, val)) ==> path@ == q && t.get(q) == Some(val),
    ensures
        match r {
            Some(entry) => lists_up_to(s.push(entry), t, q),
            None => lists_values(s, t),
        },
{
    let none = Seq::<u8>::empty();
    // Each value is in the list or comes after the last one in it.
    assert forall|p: Seq<u8>| #[trigger] t.get(p) is Some implies less(c, p) || exists|i: int|
        0 <= i < s.len() && (#[trigger] s[i]).0@ == p by {
        if s.len() == 0 && !less(c, p) {
            lemma_less_total(c, p);
            assert(t.at(none) == Some(t));
        }
    }
    assert forall|p: Seq<u8>| #[trigger] t.get(p) is Some && less(c, p) implies picked(
        Some(t),
        none,
        c,
        with_value(),
        p,
    ) by {
        assert(p.subrange(0, 0) =~= none);
    }
    match r {
        None => {},
        Some(entry) => {
            let u = s.push(entry);
            assert(picked(Some(t), none, c, with_value(), q));
            assert forall|i: int, j: int| 0 <= i < j < u.len() implies less(
                (#[trigger] u[i]).0@,
                (#[trigger] u[j]).0@,
            ) by {
                if j == s.len() && i < s.len() - 1 {
                    lemma_less_transitive(u[i].0@, c, q);
                }
            }
            assert forall|p: Seq<u8>| #[trigger] t.get(p) is Some && !less(q, p) implies exists|
                i: int,
            | 0 <= i < u.len() && (#[trigger] u[i]).0@ == p by {
                if less(c, p) {
                    lemma_less_total(q, p);
                    assert(p == q);
                    assert(u[s.len() as int].0@ == p);
                } else {
                    let i = choose|i: int| 0 <= i < s.len() && (#[trigger] s[i]).0@ == p;
                    assert(u[i].0@ == p);
                }
            }
        },
    }
}

} // verus!

//! Reading a trie in memory step by step.

use vstd::prelude::*;

use crate::path_map::map::PathMap;
use crate::slices::push_slice;
use crate::trie::Trie;
use crate::utils::byte_mask::ByteMask;
use crate::zipper::Zipper;

verus! {

/// A zipper over a [PathMap].
pub struct ReadZipper<'a, V> {
    map: &'a PathMap<V>,
    path: Vec<u8>,
}

impl<V> PathMap<V> {
    /// A zipper at the root of the map.
    pub fn read_zipper<'a>(&'a self) -> (r: ReadZipper<'a, V>)
        requires
            self.wf(),
        ensures
            Zipper::wf(&r),
            Zipper::trie(&r) == self.trie(),
            Zipper::focus(&r) == Seq::<u8>::empty(),
            forall|p: Seq<u8>| #[trigger] (Zipper::shares(&r))(p) == self.share(p),
    {
        ReadZipper { map: self, path: Vec::new() }
    }
}

impl<'a, V> ReadZipper<'a, V> {
    /// Returns the path from the zipper's root to the current focus.
    pub fn path(&self) -> (r: &[u8])
        ensures
            r@ == Zipper::focus(self),
    {
        self.path.as_slice()
    }

    /// A zipper at the same place.
    pub fn clone(&self) -> (r: Self)
        ensures
            Zipper::wf(&r) == Zipper::wf(self),
            Zipper::trie(&r) == Zipper::trie(self),
            Zipper::shares(&r) == Zipper::shares(self),
            Zipper::focus(&r) == Zipper::focus(self),
    {
        let mut path: Vec<u8> = Vec::new();
        push_slice(&mut path, self.path.as_slice());
        assert(path@ =~= self.path@);
        ReadZipper { map: self.map, path }
    }

    /// Moves the focus to the end of `path`, relative to where it is, whether or not anything is
    /// there.
    pub fn descend_to(&mut self, path: &[u8])
        requires
            Zipper::wf(old(self)),
        ensures
            Zipper::wf(final(self)),
            Zipper::trie(final(self)) == Zipper::trie(old(self)),
            Zipper::shares(final(self)) == Zipper::shares(old(self)),
            Zipper::focus(final(self)) == Zipper::focus(old(self)) + path@,
    {
        push_slice(&mut self.path, path);
    }

    /// Returns `true` if the zipper's focus is on a path within the trie, otherwise `false`.
    pub fn path_exists(&self) -> (r: bool)
        requires
            Zipper::wf(self),
        ensures
            r == Zipper::trie(self).has(Zipper::focus(self)),
    {
        self.map.locate(self.path.as_slice()).is_some()
    }
}

impl<'a, V> Zipper<V> for ReadZipper<'a, V> {
    closed spec fn wf(&self) -> bool {
        self.map.wf()
    }

    closed spec fn trie(&self) -> Trie<V> {
        self.map.trie()
    }

    closed spec fn focus(&self) -> Seq<u8> {
        self.path@
    }

    closed spec fn shares(&self) -> spec_fn(Seq<u8>) -> Option<u64> {
        |p: Seq<u8>| self.map.share(p)
    }

    proof fn lemma_shares(&self, p: Seq<u8>, q: Seq<u8>) {
        self.map.lemma_share(p);
        self.map.lemma_share(q);
    }

    fn child_mask(&self) -> (r: ByteMask) {
        match self.map.locate(self.path.as_slice()) {
            Some(loc) => self.map.loc_mask(loc),
            None => ByteMask::new(),
        }
    }

    fn val(&self) -> (r: Option<&V>) {
        self.map.get_val_at(self.path.as_slice())
    }

    fn shared_node_id(&self) -> (r: Option<u64>) {
        match self.map.locate(self.path.as_slice()) {
            Some(loc) => self.map.loc_id(loc),
            None => None,
        }
    }

    fn descend_to_byte(&mut self, byte: u8) {
        self.path.push(byte);
    }

    fn ascend(&mut self, steps: usize) -> (n: usize) {
        let len = self.path.len();
        let n = if steps <= len {
            steps
        } else {
            len
        };
        self.path.truncate(len - n);
        n
    }

    fn reset(&mut self) {
        self.path.truncate(0);
        assert(self.path@ =~= Seq::<u8>::empty());
    }
}

} // verus!

//! What a reader of a trie offers.

use vstd::prelude::*;

use crate::trie::Trie;
use crate::utils::byte_mask::ByteMask;

verus! {

/// The bytes that lead on from the end of `path`.
pub open spec fn bytes_at<V>(t: Trie<V>, path: Seq<u8>) -> Set<u8> {
    match t.at(path) {
        Some(u) => u.kids.dom(),
        None => Set::empty(),
    }
}

/// `path` without its last `n` bytes.
pub open spec fn up(path: Seq<u8>, n: int) -> Seq<u8> {
    path.subrange(0, path.len() - n)
}

/// A reader that stands at a place of a trie, its focus, and can move to others.
pub trait Zipper<V> {
    spec fn wf(&self) -> bool;

    /// The trie below the zipper's root.
    spec fn trie(&self) -> Trie<V>;

    /// The path from the zipper's root to its focus. There need not be anything at its end.
    spec fn focus(&self) -> Seq<u8>;

    /// Under which number the places are known that are shared between several paths.
    spec fn shares(&self) -> spec_fn(Seq<u8>) -> Option<u64>;

    /// Paths with the same number lead to equal tries.
    proof fn lemma_shares(&self, p: Seq<u8>, q: Seq<u8>)
        requires
            self.wf(),
        ensures
            (self.shares())(p) is Some && (self.shares())(p) == (self.shares())(q)
                && self.trie().has(p) && self.trie().has(q) ==> self.trie().at(p)
                == self.trie().at(q),
    ;

    /// Returns the mask of the bytes that lead on from the focus.
    fn child_mask(&self) -> (r: ByteMask)
        requires
            self.wf(),
        ensures
            r@ == bytes_at(self.trie(), self.focus()),
    ;

    /// Returns the value at the focus, or `None` if there is none.
    fn val(&self) -> (r: Option<&V>)
        requires
            self.wf(),
        ensures
            match r {
                Some(v) => self.trie().get(self.focus()) == Some(*v),
                None => self.trie().get(self.focus()) is None,
            },
    ;

    /// Returns the number of the focus, where it is shared.
    fn shared_node_id(&self) -> (r: Option<u64>)
        requires
            self.wf(),
        ensures
            r == (self.shares())(self.focus()),
    ;

    /// Moves the focus one byte down.
    fn descend_to_byte(&mut self, byte: u8)
        requires
            old(self).wf(),
        ensures
            final(self).wf(),
            final(self).trie() == old(self).trie(),
            final(self).shares() == old(self).shares(),
            final(self).focus() == old(self).focus().push(byte),
    ;

    /// Moves the focus up by as many bytes, or to the root if that is closer. Returns the number
    /// of bytes by which it moved.
    fn ascend(&mut self, steps: usize) -> (n: usize)
        requires
            old(self).wf(),
        ensures
            final(self).wf(),
            final(self).trie() == old(self).trie(),
            final(self).shares() == old(self).shares(),
            n == if steps <= old(self).focus().len() {
                steps as nat
            } else {
                old(self).focus().len()
            },
            final(self).focus() == up(old(self).focus(), n as int),
    ;

    /// Moves the focus to the root.
    fn reset(&mut self)
        requires
            old(self).wf(),
        ensures
            final(self).wf(),
            final(self).trie() == old(self).trie(),
            final(self).shares() == old(self).shares(),
            final(self).focus() == Seq::<u8>::empty(),
    ;
}

} // verus!

//! Followers of a moving zipper.

use vstd::prelude::*;

use crate::slices::push_slice;

verus! {

/// Something that is told of the bytes by which a zipper moves down and of how far it moves up.
pub trait PathObserver {
    /// What the observer was told is consistent with its being at `path`.
    spec fn tracks(&self, path: Seq<u8>) -> bool;

    fn descend_to(&mut self, path: &[u8])
        ensures
            forall|p: Seq<u8>| #[trigger] old(self).tracks(p) ==> final(self).tracks(p + path@),
    ;

    fn descend_to_byte(&mut self, byte: u8)
        ensures
            forall|p: Seq<u8>| #[trigger] old(self).tracks(p) ==> final(self).tracks(p.push(byte)),
    ;

    fn ascend(&mut self, steps: usize)
        ensures
            forall|p: Seq<u8>|
                steps <= p.len() && #[trigger] old(self).tracks(p) ==> final(self).tracks(
                    p.subrange(0, p.len() - steps),
                ),
    ;
}

/// A list of bytes follows the zipper: it grows and shrinks with the zipper's path.
impl PathObserver for Vec<u8> {
    open spec fn tracks(&self, path: Seq<u8>) -> bool {
        self@ == path
    }

    fn descend_to(&mut self, path: &[u8]) {
        push_slice(self, path);
    }

    fn descend_to_byte(&mut self, byte: u8) {
        self.push(byte);
    }

    fn ascend(&mut self, steps: usize) {
        let len = self.len();
        if steps <= len {
            self.truncate(len - steps);
        } else {
            self.truncate(0);
        }
    }
}

/// Nobody follows.
impl PathObserver for () {
    open spec fn tracks(&self, path: Seq<u8>) -> bool {
        true
    }

    fn descend_to(&mut self, path: &[u8]) {
    }

    fn descend_to_byte(&mut self, byte: u8) {
    }

    fn ascend(&mut self, steps: usize) {
    }
}

} // verus!

//! Reading small numbers and paths from bytes.

use vstd::prelude::*;

verus! {

/// A reader of bytes.
pub struct Dec<'a> {
    pub bytes: &'a [u8],
    pub pos: usize,
}

/// The place behind all bytes that are left.
pub open spec fn run_out(len: nat, pos: int) -> int {
    if pos < len {
        len as int
    } else {
        pos
    }
}

/// Path bytes live in a 4-letter alphabet so generated tries share prefixes.
pub open spec fn path_letters(s: Seq<u8>) -> Seq<u8> {
    Seq::new(s.len(), |i: int| (s[i] % 4) as u8)
}

/// The byte modulo `m`, or zero where `m` is zero.
pub open spec fn mod_of(b: u8, m: nat) -> nat {
    if m == 0 {
        0
    } else {
        (b as nat) % m
    }
}

/// A path of `n` letters at `pos`, where so many bytes are left, and the place behind it.
pub open spec fn path_n_at(s: Seq<u8>, pos: int, n: nat) -> Option<(Seq<u8>, int)> {
    if n == 0 {
        Some((Seq::empty(), pos))
    } else if pos + n <= s.len() {
        Some((path_letters(s.subrange(pos, pos + n)), pos + n))
    } else {
        None
    }
}

/// A path at `pos`: a byte that tells its length, below `lim`, and its letters.
pub open spec fn path_at(s: Seq<u8>, pos: int, lim: nat) -> Option<(Seq<u8>, int)> {
    if pos < s.len() {
        path_n_at(s, pos + 1, mod_of(s[pos], lim))
    } else {
        None
    }
}

impl<'a> Dec<'a> {
    /// The next byte.
    pub fn u8(&mut self) -> (r: Option<u8>)
        ensures
            final(self).bytes == old(self).bytes,
            match r {
                Some(b) => {
                    &&& old(self).pos < old(self).bytes@.len()
                    &&& b == old(self).bytes@[old(self).pos as int]
                    &&& final(self).pos == old(self).pos + 1
                },
                None => {
                    &&& old(self).pos >= old(self).bytes@.len()
                    &&& final(self).pos == old(self).pos
                },
            },
    {
        if self.pos >= self.bytes.len() {
            return None;
        }
        let b = self.bytes[self.pos];
        self.pos = self.pos + 1;
        Some(b)
    }

    /// The next byte modulo `m`.
    pub fn modn(&mut self, m: usize) -> (r: Option<usize>)
        ensures
            final(self).bytes == old(self).bytes,
            match r {
                Some(n) => {
                    &&& old(self).pos < old(self).bytes@.len()
                    &&& n == mod_of(old(self).bytes@[old(self).pos as int], m as nat)
                    &&& final(self).pos == old(self).pos + 1
                },
                None => {
                    &&& old(self).pos >= old(self).bytes@.len()
                    &&& final(self).pos == old(self).pos
                },
            },
    {
        match self.u8() {
            None => None,
            Some(b) => if m == 0 {
                Some(0)
            } else {
                Some((b as usize) % m)
            },
        }
    }

    /// The next letter of a path.
    pub fn path_byte(&mut self) -> (r: Option<u8>)
        ensures
            final(self).bytes == old(self).bytes,
            match r {
                Some(b) => {
                    &&& old(self).pos < old(self).bytes@.len()
                    &&& b == old(self).bytes@[old(self).pos as int] % 4
                    &&& final(self).pos == old(self).pos + 1
                },
                None => {
                    &&& old(self).pos >= old(self).bytes@.len()
                    &&& final(self).pos == old(self).pos
                },
            },
    {
        match self.u8() {
            None => None,
            Some(b) => Some(b % 4),
        }
    }

    /// A path of `n` letters. Where there are too few bytes all that are left are used up.
    pub fn path_n(&mut self, n: usize) -> (r: Option<Vec<u8>>)
        ensures
            final(self).bytes == old(self).bytes,
            match r {
                Some(v) => path_n_at(old(self).bytes@, old(self).pos as int, n as nat) == Some(
                    (v@, final(self).pos as int),
                ),
                None => {
                    &&& path_n_at(old(self).bytes@, old(self).pos as int, n as nat) is None
                    &&& final(self).pos == run_out(old(self).bytes@.len(), old(self).pos as int)
                },
            },
    {
        let ghost s = self.bytes@;
        let ghost from = self.pos as int;
        let mut v: Vec<u8> = Vec::new();
        let mut i: usize = 0;
        while i < n
            invariant
                i <= n,
                s == old(self).bytes@,
                self.bytes == old(self).bytes,
                from == old(self).pos,
                self.pos == from + i,
                i > 0 ==> from + i <= s.len(),
                v@.len() == i,
                forall|k: int| 0 <= k < i ==> #[trigger] v@[k] == s[from + k] % 4,
            decreases n - i,
        {
            match self.path_byte() {
                None => {
                    return None;
                },
                Some(b) => {
                    v.push(b);
                },
            }
            i = i + 1;
        }
        proof {
            if n > 0 {
                assert(v@ =~= path_letters(s.subrange(from, from + n)));
            } else {
                assert(v@ =~= Seq::<u8>::empty());
            }
        }
        Some(v)
    }

    /// A path of fewer than `lim` letters.
    pub fn path(&mut self, lim: usize) -> (r: Option<Vec<u8>>)
        ensures
            final(self).bytes == old(self).bytes,
            match r {
                Some(v) => path_at(old(self).bytes@, old(self).pos as int, lim as nat) == Some(
                    (v@, final(self).pos as int),
                ),
                None => {
                    &&& path_at(old(self).bytes@, old(self).pos as int, lim as nat) is None
                    &&& final(self).pos == run_out(old(self).bytes@.len(), old(self).pos as int)
                },
            },
    {
        match self.modn(lim) {
            None => None,
            Some(n) => self.path_n(n),
        }
    }

    /// Whether the next byte is odd.
    pub fn boolean(&mut self) -> (r: Option<bool>)
        ensures
            final(self).bytes == old(self).bytes,
            match r {
                Some(b) => {
                    &&& old(self).pos < old(self).bytes@.len()
                    &&& b == (old(self).bytes@[old(self).pos as int] % 2 == 1)
                    &&& final(self).pos == old(self).pos + 1
                },
                None => {
                    &&& old(self).pos >= old(self).bytes@.len()
                    &&& final(self).pos == old(self).pos
                },
            },
    {
        match self.u8() {
            None => None,
            Some(b) => Some(b % 2 == 1),
        }
    }
}

} // verus!

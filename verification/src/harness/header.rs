//! The maps that a script begins with.

use vstd::prelude::*;

use crate::harness::dec::{mod_of, path_at, run_out, Dec};
use crate::path_map::map::{put, Edit, PathMap};
use crate::trie::Trie;

verus! {

/// The trie `t` with the `n` values that are written from `pos` on, each as a path and a byte, and
/// the place behind them.
pub open spec fn entries_at(s: Seq<u8>, pos: int, n: nat, t: Trie<u64>) -> Option<(Trie<u64>, int)>
    decreases n,
{
    if n == 0 {
        Some((t, pos))
    } else {
        match entries_at(s, pos, (n - 1) as nat, t) {
            None => None,
            Some((t, next)) => match path_at(s, next, 6) {
                None => None,
                Some((path, end)) => if end < s.len() {
                    Some((put(t, path, (Edit { val: Some(s[end] as u64), kids: None })), end + 1))
                } else {
                    None
                },
            },
        }
    }
}

/// The map at `pos`: a byte that tells how many values it has, and the values.
pub open spec fn map_at(s: Seq<u8>, pos: int) -> Option<(Trie<u64>, int)> {
    if pos < s.len() {
        entries_at(s, pos + 1, mod_of(s[pos], 8), Trie::empty())
    } else {
        None
    }
}

/// A trie to which `path` has been added, unless it is empty.
pub open spec fn with_path(t: Trie<u64>, path: Seq<u8>) -> Trie<u64> {
    if path.len() == 0 {
        t
    } else {
        put(t, path, (Edit { val: None, kids: None }))
    }
}

/// Two maps, and in each a path to begin at.
pub struct HeaderView {
    pub map0: Trie<u64>,
    pub map1: Trie<u64>,
    pub root0: Seq<u8>,
    pub root1: Seq<u8>,
}

/// The header at `pos`, and the place behind it.
pub open spec fn header_at(s: Seq<u8>, pos: int) -> Option<(HeaderView, int)> {
    match map_at(s, pos) {
        None => None,
        Some((t0, p1)) => match map_at(s, p1) {
            None => None,
            Some((t1, p2)) => match path_at(s, p2, 4) {
                None => None,
                Some((root0, p3)) => match path_at(s, p3, 4) {
                    None => None,
                    Some((root1, p4)) => Some(
                        (
                            HeaderView {
                                map0: with_path(t0, root0),
                                map1: with_path(t1, root1),
                                root0,
                                root1,
                            },
                            p4,
                        ),
                    ),
                },
            },
        },
    }
}

proof fn lemma_entries_none(s: Seq<u8>, pos: int, m: nat, n: nat, t: Trie<u64>)
    requires
        m <= n,
        entries_at(s, pos, m, t) is None,
    ensures
        entries_at(s, pos, n, t) is None,
    decreases n,
{
    if m < n {
        lemma_entries_none(s, pos, m, (n - 1) as nat, t);
    }
}

fn decode_map(d: &mut Dec) -> (r: Option<PathMap<u64>>)
    ensures
        final(d).bytes == old(d).bytes,
        match r {
            Some(m) => {
                &&& m.wf()
                &&& map_at(old(d).bytes@, old(d).pos as int) == Some(
                    (m.trie(), final(d).pos as int),
                )
                &&& old(d).pos < final(d).pos <= old(d).bytes@.len()
            },
            None => {
                &&& map_at(old(d).bytes@, old(d).pos as int) is None
                &&& final(d).pos == run_out(old(d).bytes@.len(), old(d).pos as int)
            },
        },
{
    let n = match d.modn(8) {
        None => {
            return None;
        },
        Some(n) => n,
    };
    let ghost s = d.bytes@;
    let ghost from = d.pos as int;
    let mut map: PathMap<u64> = PathMap::new();
    let mut i: usize = 0;
    while i < n
        invariant
            i <= n,
            d.bytes == old(d).bytes,
            s == d.bytes@,
            map.wf(),
            old(d).pos < d.pos <= s.len(),
            entries_at(s, from, i as nat, Trie::empty()) == Some((map.trie(), d.pos as int)),
            map_at(s, old(d).pos as int) == entries_at(s, from, n as nat, Trie::empty()),
        decreases n - i,
    {
        let path = d.path(6);
        let value = match &path {
            None => None,
            Some(_) => d.u8(),
        };
        match (path, value) {
            (Some(path), Some(value)) => {
                map.insert(path.as_slice(), value as u64);
            },
            _ => {
                proof {
                    lemma_entries_none(s, from, (i + 1) as nat, n as nat, Trie::empty());
                }
                return None;
            },
        }
        i = i + 1;
    }
    Some(map)
}

/// Decode the header: two seeded maps and the two zipper roots. Where there is no whole one all bytes
/// that are left are used up.
pub fn decode_header(d: &mut Dec) -> (r: Option<
    (PathMap<u64>, PathMap<u64>, Vec<u8>, Vec<u8>),
>)
    ensures
        final(d).bytes == old(d).bytes,
        match r {
            Some((map0, map1, root0, root1)) => {
                &&& map0.wf()
                &&& map1.wf()
                &&& header_at(old(d).bytes@, old(d).pos as int) == Some(
                    (
                        (HeaderView {
                            map0: map0.trie(),
                            map1: map1.trie(),
                            root0: root0@,
                            root1: root1@,
                        }),
                        final(d).pos as int,
                    ),
                )
            },
            None => {
                &&& header_at(old(d).bytes@, old(d).pos as int) is None
                &&& final(d).pos == run_out(old(d).bytes@.len(), old(d).pos as int)
            },
        },
{
    let mut map0 = match decode_map(d) {
        None => {
            return None;
        },
        Some(m) => m,
    };
    let mut map1 = match decode_map(d) {
        None => {
            return None;
        },
        Some(m) => m,
    };
    let root0 = match d.path(4) {
        None => {
            return None;
        },
        Some(p) => p,
    };
    let root1 = match d.path(4) {
        None => {
            return None;
        },
        Some(p) => p,
    };
    // Both zipper roots are created if absent.
    if root0.len() > 0 {
        map0.create_path(root0.as_slice());
    }
    if root1.len() > 0 {
        map1.create_path(root1.as_slice());
    }
    Some((map0, map1, root0, root1))
}

} // verus!

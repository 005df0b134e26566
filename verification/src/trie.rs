//! The mathematical trie: what every structure of this crate stands for.

use vstd::prelude::*;

verus! {

/// A place of a trie: its value, where it has one, and the places that one more byte leads to.
pub struct Trie<V> {
    pub val: Option<V>,
    pub kids: Map<u8, Trie<V>>,
}

impl<V> Trie<V> {
    /// A place without a value from which no byte leads on.
    pub open spec fn empty() -> Trie<V> {
        Trie { val: None, kids: Map::empty() }
    }

    /// A place from which no byte leads on.
    pub open spec fn leaf(val: Option<V>) -> Trie<V> {
        Trie { val, kids: Map::empty() }
    }

    /// The place that `path` leads to, where there is one.
    pub open spec fn at(self, path: Seq<u8>) -> Option<Trie<V>>
        decreases path.len(),
    {
        if path.len() == 0 {
            Some(self)
        } else if self.kids.contains_key(path[0]) {
            self.kids[path[0]].at(path.drop_first())
        } else {
            None
        }
    }

    /// `path` leads to a place.
    pub open spec fn has(self, path: Seq<u8>) -> bool {
        self.at(path) is Some
    }

    /// The value at the end of `path`, where there is one.
    pub open spec fn get(self, path: Seq<u8>) -> Option<V> {
        match self.at(path) {
            Some(t) => t.val,
            None => None,
        }
    }

    /// A single byte leads on from this place, which has no value.
    pub open spec fn is_link(self) -> bool {
        self.val is None && exists|b: u8| self.kids.dom() == Set::<u8>::empty().insert(b)
    }

    /// The byte that leads on from a link.
    pub open spec fn link_byte(self) -> u8 {
        choose|b: u8| self.kids.dom() == Set::<u8>::empty().insert(b)
    }
}

/// The trie at a place, which is empty where there is no place.
pub open spec fn or_empty<V>(t: Option<Trie<V>>) -> Trie<V> {
    match t {
        Some(t) => t,
        None => Trie::empty(),
    }
}

/// The trie in which the bytes of `line` lead to `t` and to nothing else.
pub open spec fn chain<V>(line: Seq<u8>, t: Trie<V>) -> Trie<V>
    decreases line.len(),
{
    if line.len() == 0 {
        t
    } else {
        Trie { val: None, kids: Map::empty().insert(line[0], chain(line.drop_first(), t)) }
    }
}

/// A path leads where its halves lead one after the other.
pub proof fn lemma_at_concat<V>(t: Trie<V>, p: Seq<u8>, q: Seq<u8>)
    ensures
        t.at(p + q) == match t.at(p) {
            Some(u) => u.at(q),
            None => None,
        },
    decreases p.len(),
{
    if p.len() == 0 {
        assert(p + q =~= q);
    } else {
        assert((p + q).drop_first() =~= p.drop_first() + q);
        if t.kids.contains_key(p[0]) {
            lemma_at_concat(t.kids[p[0]], p.drop_first(), q);
        }
    }
}

/// One byte more.
pub proof fn lemma_at_push<V>(t: Trie<V>, p: Seq<u8>, b: u8)
    ensures
        t.at(p.push(b)) == match t.at(p) {
            Some(u) => if u.kids.contains_key(b) {
                Some(u.kids[b])
            } else {
                None
            },
            None => None,
        },
{
    lemma_at_concat(t, p, seq![b]);
    assert(p + seq![b] =~= p.push(b));
    if let Some(u) = t.at(p) {
        assert(seq![b].drop_first() =~= Seq::<u8>::empty());
        if u.kids.contains_key(b) {
            assert(u.kids[b].at(seq![b].drop_first()) == Some(u.kids[b]));
        }
    }
}

/// What does not lead anywhere does not lead on.
pub proof fn lemma_at_prefix<V>(t: Trie<V>, p: Seq<u8>, n: int)
    requires
        0 <= n <= p.len(),
        t.has(p),
    ensures
        t.has(p.subrange(0, n)),
{
    let a = p.subrange(0, n);
    let b = p.subrange(n, p.len() as int);
    assert(a + b =~= p);
    lemma_at_concat(t, a, b);
}

pub proof fn lemma_chain_concat<V>(p: Seq<u8>, q: Seq<u8>, t: Trie<V>)
    ensures
        chain(p + q, t) == chain(p, chain(q, t)),
    decreases p.len(),
{
    if p.len() == 0 {
        assert(p + q =~= q);
    } else {
        assert((p + q).drop_first() =~= p.drop_first() + q);
        lemma_chain_concat(p.drop_first(), q, t);
    }
}

/// Along a chain every prefix leads to the rest of the chain.
pub proof fn lemma_chain_at<V>(line: Seq<u8>, t: Trie<V>, n: int)
    requires
        0 <= n <= line.len(),
    ensures
        chain(line, t).at(line.subrange(0, n)) == Some(chain(line.subrange(n, line.len() as int), t)),
    decreases n,
{
    if n == 0 {
        assert(line.subrange(0, line.len() as int) =~= line);
    } else {
        let rest = line.drop_first();
        lemma_chain_at(rest, t, n - 1);
        assert(line.subrange(0, n).drop_first() =~= rest.subrange(0, n - 1));
        assert(rest.subrange(n - 1, rest.len() as int) =~= line.subrange(n, line.len() as int));
    }
}

/// The byte of a link is the only one that leads on.
pub proof fn lemma_link<V>(t: Trie<V>)
    requires
        t.is_link(),
    ensures
        t.kids.dom() == Set::<u8>::empty().insert(t.link_byte()),
        t.kids.contains_key(t.link_byte()),
        t == chain(seq![t.link_byte()], t.kids[t.link_byte()]),
{
    let b = t.link_byte();
    assert(t.kids.dom() == Set::<u8>::empty().insert(b));
    assert(t.kids.dom().contains(b));
    assert(seq![b].drop_first() =~= Seq::<u8>::empty());
    assert(chain(seq![b].drop_first(), t.kids[b]) == t.kids[b]);
    assert(chain(seq![b], t.kids[b]).kids =~= t.kids);
}

} // verus!

//! The trie that has the paths of two.

use vstd::prelude::*;

use crate::trie::{chain, Trie};

verus! {

/// The first value where there is one, otherwise the second.
pub open spec fn either(first: Option<u64>, second: Option<u64>) -> Option<u64> {
    if first is Some {
        first
    } else {
        second
    }
}

/// The trie with the paths of `a` and those of `b`. Where both have a value, that of `b` stands.
pub open spec fn union(a: Trie<u64>, b: Trie<u64>) -> Trie<u64>
    decreases a,
{
    Trie {
        val: either(b.val, a.val),
        kids: Map::new(
            |c: u8| a.kids.contains_key(c) || b.kids.contains_key(c),
            |c: u8|
                if a.kids.contains_key(c) {
                    if b.kids.contains_key(c) {
                        union(a.kids[c], b.kids[c])
                    } else {
                        a.kids[c]
                    }
                } else {
                    b.kids[c]
                },
        ),
    }
}

/// Where `b` has no path, the union is as `a` is.
pub proof fn lemma_union_at(a: Trie<u64>, b: Trie<u64>, p: Seq<u8>)
    requires
        !b.has(p),
    ensures
        union(a, b).at(p) == a.at(p),
    decreases p.len(),
{
    if p.len() > 0 && a.kids.contains_key(p[0]) && b.kids.contains_key(p[0]) {
        lemma_union_at(a.kids[p[0]], b.kids[p[0]], p.drop_first());
    }
}

/// A path leads somewhere in the union where it does in one of the two, and the value there is
/// that of `b` or else that of `a`.
pub proof fn lemma_union_get(a: Trie<u64>, b: Trie<u64>, p: Seq<u8>)
    ensures
        union(a, b).has(p) == (a.has(p) || b.has(p)),
        union(a, b).get(p) == either(b.get(p), a.get(p)),
    decreases p.len(),
{
    if p.len() > 0 && a.kids.contains_key(p[0]) && b.kids.contains_key(p[0]) {
        lemma_union_get(a.kids[p[0]], b.kids[p[0]], p.drop_first());
    }
}

/// A trie with nothing in it adds nothing.
pub proof fn lemma_union_empty(a: Trie<u64>)
    ensures
        union(a, Trie::leaf(None)) == a,
{
    assert(union(a, Trie::leaf(None)).kids =~= a.kids);
}

/// To a trie that has all paths and values of another, that other adds nothing.
pub proof fn lemma_union_absorbs(a: Trie<u64>, b: Trie<u64>)
    requires
        forall|p: Seq<u8>| #[trigger] b.has(p) ==> a.has(p),
        forall|p: Seq<u8>| #[trigger] b.get(p) is Some ==> a.get(p) == b.get(p),
    ensures
        union(a, b) == a,
    decreases a,
{
    let none = Seq::<u8>::empty();
    assert(b.has(none));
    assert(b.get(none) == b.val && a.get(none) == a.val);
    let u = union(a, b);
    assert forall|c: u8| #[trigger] u.kids.contains_key(c) implies a.kids.contains_key(c)
        && u.kids[c] == a.kids[c] by {
        if b.kids.contains_key(c) {
            let one = seq![c];
            assert(one.drop_first() =~= none);
            assert(b.kids[c].at(none) == Some(b.kids[c]));
            assert(b.has(one));
            assert(a.has(one));
            assert forall|p: Seq<u8>| #[trigger] b.kids[c].has(p) implies a.kids[c].has(p) by {
                assert((one + p).drop_first() =~= p);
                assert(b.has(one + p));
            }
            assert forall|p: Seq<u8>| #[trigger] b.kids[c].get(p) is Some implies a.kids[c].get(p)
                == b.kids[c].get(p) by {
                assert((one + p).drop_first() =~= p);
                assert(b.get(one + p) is Some);
            }
            lemma_union_absorbs(a.kids[c], b.kids[c]);
        }
    }
    assert(u.kids =~= a.kids);
}

/// Below a common chain the union is that of what is below.
pub proof fn lemma_union_chain(line: Seq<u8>, a: Trie<u64>, b: Trie<u64>)
    ensures
        union(chain(line, a), chain(line, b)) == chain(line, union(a, b)),
    decreases line.len(),
{
    if line.len() > 0 {
        let l = line.drop_first();
        lemma_union_chain(l, a, b);
        let x = chain(line, a);
        let y = chain(line, b);
        assert(x.kids[line[0]] == chain(l, a));
        assert(y.kids[line[0]] == chain(l, b));
        assert(union(x, y).kids =~= chain(line, union(a, b)).kids);
    }
}

/// Chains are different where what they lead to is.
pub proof fn lemma_chain_injective(line: Seq<u8>, a: Trie<u64>, b: Trie<u64>)
    requires
        chain(line, a) == chain(line, b),
    ensures
        a == b,
    decreases line.len(),
{
    if line.len() > 0 {
        assert(chain(line, a).kids[line[0]] == chain(line.drop_first(), a));
        assert(chain(line, b).kids[line[0]] == chain(line.drop_first(), b));
        lemma_chain_injective(line.drop_first(), a, b);
    }
}

} // verus!

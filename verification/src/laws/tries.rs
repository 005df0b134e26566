//! What the words for tries mean.

use vstd::prelude::*;

use crate::arena_compact::readers::{below, units};
use crate::path_map::map::{put, Edit};
use crate::trie::{chain, lemma_at_concat, lemma_at_push, lemma_link, or_empty, Trie};
use crate::trie_walk::{kids_of, look, val_of};
use crate::utils::bits::lemma_rank_is_len;
use crate::zipper::bytes_at;

verus! {

/// A path leads where its first part leads and the rest leads on from there. A single byte leads to
/// the child for it, and no byte at all to where one is.
pub proof fn law_paths_lead_step_by_step<V>(t: Trie<V>, p: Seq<u8>, q: Seq<u8>, b: u8)
    ensures
        t.at(Seq::empty()) == Some(t),
        t.at(seq![b]) == if t.kids.contains_key(b) {
            Some(t.kids[b])
        } else {
            None
        },
        t.at(p + q) == match t.at(p) {
            Some(u) => u.at(q),
            None => None,
        },
        t.has(p) <==> t.at(p) is Some,
        t.get(p) is Some ==> t.has(p),
        t.has(p) ==> t.get(p) == t.at(p)->Some_0.val,
{
    lemma_at_concat(t, p, q);
    lemma_at_push(t, Seq::empty(), b);
    assert(Seq::<u8>::empty().push(b) =~= seq![b]);
}

/// Tries with the same paths and the same values are the same.
pub proof fn law_tries_are_their_paths_and_values<V>(t: Trie<V>, u: Trie<V>)
    requires
        forall|p: Seq<u8>| #[trigger] t.has(p) == u.has(p),
        forall|p: Seq<u8>| #[trigger] t.get(p) == u.get(p),
    ensures
        t == u,
    decreases t,
{
    let none = Seq::<u8>::empty();
    assert(t.get(none) == u.get(none));
    assert forall|b: u8| #[trigger] t.kids.contains_key(b) == u.kids.contains_key(b) by {
        law_paths_lead_step_by_step(t, none, none, b);
        law_paths_lead_step_by_step(u, none, none, b);
        assert(t.has(seq![b]) == u.has(seq![b]));
    }
    assert forall|b: u8| #[trigger] t.kids.contains_key(b) implies t.kids[b] == u.kids[b] by {
        assert forall|p: Seq<u8>| #[trigger] t.kids[b].has(p) == u.kids[b].has(p) by {
            law_paths_lead_step_by_step(t, seq![b], p, b);
            law_paths_lead_step_by_step(u, seq![b], p, b);
            assert(t.has(seq![b] + p) == u.has(seq![b] + p));
        }
        assert forall|p: Seq<u8>| #[trigger] t.kids[b].get(p) == u.kids[b].get(p) by {
            law_paths_lead_step_by_step(t, seq![b], p, b);
            law_paths_lead_step_by_step(u, seq![b], p, b);
            assert(t.get(seq![b] + p) == u.get(seq![b] + p));
        }
        law_tries_are_their_paths_and_values(t.kids[b], u.kids[b]);
    }
    assert(t.kids =~= u.kids);
}

/// What can be seen from a place: the bytes that lead on are those by which a path can go on.
pub proof fn law_bytes_that_lead_on<V>(t: Trie<V>, p: Seq<u8>, b: u8)
    ensures
        bytes_at(t, p).contains(b) <==> t.has(p.push(b)),
        kids_of(look(Some(t), p)).contains(b) <==> t.has(p.push(b)),
        val_of(look(Some(t), p)) == t.get(p),
        look(Some(t), p) == t.at(p),
        look::<V>(None, p) is None,
        or_empty(t.at(p)).val == t.get(p),
        or_empty(t.at(p)).kids.contains_key(b) <==> t.has(p.push(b)),
{
    lemma_at_push(t, p, b);
}

/// At the end of a chain is what it leads to, on the way there are no values, and no path leaves it.
pub proof fn law_chain_leads_to_its_end<V>(line: Seq<u8>, t: Trie<V>, p: Seq<u8>)
    ensures
        chain(line, t).at(line + p) == t.at(p),
        chain(line, t).has(p) <==> (p.len() <= line.len() && p == line.subrange(
            0,
            p.len() as int,
        )) || (line.len() <= p.len() && p.subrange(0, line.len() as int) == line && t.has(
            p.subrange(line.len() as int, p.len() as int),
        )),
        p.len() < line.len() ==> chain(line, t).get(p) is None,
    decreases line.len(),
{
    if line.len() == 0 {
        assert(line + p =~= p);
        assert(p.subrange(0, 0) =~= line);
        assert(p.subrange(0, p.len() as int) =~= p);
        if p.len() == 0 {
            assert(p =~= line);
            assert(t.has(p));
        }
    } else {
        let l = line.drop_first();
        let c = chain(line, t);
        assert((line + p).drop_first() =~= l + p);
        law_chain_leads_to_its_end(l, t, p);
        if p.len() > 0 {
            let q = p.drop_first();
            law_chain_leads_to_its_end(l, t, q);
            assert(c.has(p) == (p[0] == line[0] && chain(l, t).has(q)));
            if p.len() <= line.len() {
                let s = line.subrange(0, p.len() as int);
                assert(l.subrange(0, q.len() as int) =~= s.drop_first());
                if p[0] == line[0] && q == l.subrange(0, q.len() as int) {
                    assert(p =~= seq![p[0]] + q);
                    assert(s =~= seq![line[0]] + s.drop_first());
                }
                if p == s {
                    assert(p[0] == s[0]);
                }
            }
            if line.len() <= p.len() {
                let s = p.subrange(0, line.len() as int);
                assert(q.subrange(0, l.len() as int) =~= s.drop_first());
                assert(q.subrange(l.len() as int, q.len() as int) =~= p.subrange(
                    line.len() as int,
                    p.len() as int,
                ));
                if p[0] == line[0] && q.subrange(0, l.len() as int) == l {
                    assert(s =~= seq![p[0]] + s.drop_first());
                    assert(line =~= seq![line[0]] + l);
                }
                if s == line {
                    assert(s[0] == line[0]);
                    assert(s.drop_first() == l);
                }
            }
        } else {
            assert(line.subrange(0, 0) =~= p);
            assert(c.has(p));
        }
    }
}

/// A value that is put at the end of a path is found there, all others stay, and the only new places
/// are those along the path.
pub proof fn law_put_value<V>(t: Trie<V>, path: Seq<u8>, val: Option<V>, p: Seq<u8>)
    ensures
        ({
            let u = put(t, path, (Edit { val, kids: None }));
            &&& u.get(p) == if p == path && val is Some {
                val
            } else {
                t.get(p)
            }
            &&& u.has(p) <==> t.has(p) || (p.len() <= path.len() && p == path.subrange(
                0,
                p.len() as int,
            ))
        }),
    decreases path.len(),
{
    let e = Edit { val, kids: None };
    let u = put(t, path, e);
    if path.len() == 0 {
        if p.len() == 0 {
            assert(p =~= path);
        } else {
            assert(u.at(p) == t.at(p));
        }
        assert(path.subrange(0, 0) =~= path);
    } else {
        let sub = if t.kids.contains_key(path[0]) {
            t.kids[path[0]]
        } else {
            Trie::empty()
        };
        if p.len() == 0 {
            assert(path.subrange(0, 0) =~= p);
        } else {
            let (x, y) = (path.drop_first(), p.drop_first());
            law_put_value(sub, x, val, y);
            assert(Trie::<V>::empty().has(y) ==> y.len() == 0);
            assert(Trie::<V>::empty().get(y) is None);
            if p[0] == path[0] {
                assert(p =~= seq![p[0]] + y);
                assert(path =~= seq![path[0]] + x);
                if p.len() <= path.len() {
                    let s = path.subrange(0, p.len() as int);
                    assert(x.subrange(0, y.len() as int) =~= s.drop_first());
                    assert(s =~= seq![path[0]] + s.drop_first());
                }
            } else {
                assert(u.at(p) == t.at(p));
                if p.len() <= path.len() {
                    assert(path.subrange(0, p.len() as int)[0] == path[0]);
                }
            }
        }
    }
}

/// Where children are put at the end of a path, they and what is below them come in the place of what
/// was below; the value there stays, and so does all that is elsewhere.
pub proof fn law_put_children<V>(
    t: Trie<V>,
    path: Seq<u8>,
    kids: Map<u8, Trie<V>>,
    p: Seq<u8>,
    b: u8,
)
    ensures
        ({
            let u = put(t, path, (Edit { val: None, kids: Some(kids) }));
            &&& u.at(path.push(b) + p) == if kids.contains_key(b) {
                kids[b].at(p)
            } else {
                None
            }
            &&& u.get(path) == t.get(path)
            &&& u.has(path)
            &&& !(path.len() <= p.len() && p.subrange(0, path.len() as int) == path) ==> u.get(p)
                == t.get(p) && (u.has(p) <==> t.has(p) || (p.len() <= path.len() && p
                == path.subrange(0, p.len() as int)))
        }),
    decreases path.len(),
{
    let e = Edit { val: None, kids: Some(kids) };
    let u = put(t, path, e);
    if path.len() == 0 {
        assert((path.push(b) + p).drop_first() =~= p);
        assert(u.at(path) == Some(u));
        assert(p.subrange(0, 0) =~= path);
    } else {
        let sub = if t.kids.contains_key(path[0]) {
            t.kids[path[0]]
        } else {
            Trie::empty()
        };
        let x = path.drop_first();
        law_put_children(sub, x, kids, p, b);
        assert((path.push(b) + p).drop_first() =~= x.push(b) + p);
        assert(Trie::<V>::empty().get(x) is None);
        if p.len() == 0 {
            assert(path.subrange(0, 0) =~= p);
        } else {
            let y = p.drop_first();
            law_put_children(sub, x, kids, y, b);
            assert(Trie::<V>::empty().has(y) ==> y.len() == 0);
            assert(Trie::<V>::empty().get(y) is None);
            assert(x.subrange(0, 0) =~= Seq::<u8>::empty());
            if p[0] == path[0] {
                if p.len() <= path.len() {
                    let s = path.subrange(0, p.len() as int);
                    assert(x.subrange(0, y.len() as int) =~= s.drop_first());
                    assert(s =~= seq![path[0]] + s.drop_first());
                    assert(p =~= seq![p[0]] + y);
                }
                if path.len() <= p.len() {
                    let s = p.subrange(0, path.len() as int);
                    assert(y.subrange(0, x.len() as int) =~= s.drop_first());
                    assert(s =~= seq![p[0]] + s.drop_first());
                    assert(path =~= seq![path[0]] + x);
                }
            } else {
                assert(u.at(p) == t.at(p));
                if p.len() <= path.len() {
                    assert(path.subrange(0, p.len() as int)[0] == path[0]);
                }
                if path.len() <= p.len() {
                    assert(p.subrange(0, path.len() as int)[0] == p[0]);
                }
            }
        }
    }
}

/// A link has no value, and a single byte leads on from it: that of the link.
pub proof fn law_link_leads_on_by_one_byte<V>(t: Trie<V>, b: u8)
    ensures
        t.is_link() <==> t.val is None && t.kids.dom().len() == 1,
        t.is_link() ==> (t.kids.contains_key(b) <==> b == t.link_byte()),
{
    lemma_rank_is_len(t.kids.dom());
    if t.is_link() {
        lemma_link(t);
        assert(t.kids.dom() == Set::<u8>::empty().insert(t.link_byte()));
        assert(t.kids.dom().contains(b) == Set::<u8>::empty().insert(t.link_byte()).contains(b));
    }
    if t.val is None && t.kids.dom().len() == 1 {
        let s = t.kids.dom();
        let c = s.choose();
        assert(s.contains(c));
        assert(s.remove(c).len() == 0);
        assert(s =~= Set::<u8>::empty().insert(c));
    }
}

/// A trie of which only the places with values matter has the same paths, and something where there
/// is a value.
pub proof fn law_units_have_the_paths(t: Trie<u64>, p: Seq<u8>)
    ensures
        units(t).has(p) <==> t.has(p),
        units(t).get(p) is Some <==> t.get(p) is Some,
        below(Some(t)) == t,
        below(None) == Trie::<u64>::empty(),
    decreases p.len(),
{
    if p.len() > 0 && t.kids.contains_key(p[0]) {
        law_units_have_the_paths(t.kids[p[0]], p.drop_first());
    }
}

/// Nothing is in an empty trie but its root.
pub proof fn law_empty_trie<V>(p: Seq<u8>)
    ensures
        Trie::<V>::empty().has(p) <==> p.len() == 0,
        Trie::<V>::empty().get(p) is None,
        forall|v: Option<V>| #[trigger] Trie::leaf(v).has(p) <==> p.len() == 0,
        forall|v: Option<V>| #[trigger] Trie::leaf(v).get(Seq::empty()) == v,
{
}

} // verus!

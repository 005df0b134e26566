//! How far and where paths lead in a trie, seen from a place that need not exist.

use vstd::prelude::*;

use crate::slices::{lemma_overlap, overlap};
use crate::trie::{chain, lemma_at_concat, lemma_at_push, Trie};
use crate::utils::bits::rank;

verus! {

/// The place that `p` leads to from `r`.
pub open spec fn look<V>(r: Option<Trie<V>>, p: Seq<u8>) -> Option<Trie<V>> {
    match r {
        Some(t) => t.at(p),
        None => None,
    }
}

/// The bytes that lead on from a place.
pub open spec fn kids_of<V>(r: Option<Trie<V>>) -> Set<u8> {
    match r {
        Some(t) => t.kids.dom(),
        None => Set::empty(),
    }
}

/// The value of a place.
pub open spec fn val_of<V>(r: Option<Trie<V>>) -> Option<V> {
    match r {
        Some(t) => t.val,
        None => None,
    }
}

/// How many bytes of `k` lead on from a place.
pub open spec fn reach<V>(r: Option<Trie<V>>, k: Seq<u8>) -> nat
    decreases k.len(),
{
    if k.len() > 0 && kids_of(r).contains(k[0]) {
        1 + reach(look(r, seq![k[0]]), k.drop_first())
    } else {
        0
    }
}

/// How many bytes of `k` lead on from a place up to the first value below it.
pub open spec fn val_reach<V>(r: Option<Trie<V>>, k: Seq<u8>) -> nat
    decreases k.len(),
{
    if k.len() > 0 && kids_of(r).contains(k[0]) {
        let next = look(r, seq![k[0]]);
        if val_of(next) is Some {
            1
        } else {
            1 + val_reach(next, k.drop_first())
        }
    } else {
        0
    }
}

/// How many bytes of `k` lead on, up to the first value below where `on_value` says so.
pub open spec fn cond_reach<V>(r: Option<Trie<V>>, k: Seq<u8>, on_value: bool) -> nat {
    if on_value {
        val_reach(r, k)
    } else {
        reach(r, k)
    }
}

/// The bytes that lead on without a choice, up to the first value below.
pub open spec fn run_below<V>(t: Trie<V>) -> Seq<u8>
    decreases t,
{
    let b = t.link_byte();
    if t.kids.dom() == Set::<u8>::empty().insert(b) && t.kids.contains_key(b) {
        let next = t.kids[b];
        if next.is_link() {
            seq![b] + run_below(next)
        } else {
            seq![b]
        }
    } else {
        Seq::empty()
    }
}

/// Going up stops at a place from which several bytes lead on, or that has a value where those
/// count.
pub open spec fn stops<V>(r: Option<Trie<V>>, need_value: bool) -> bool {
    rank(kids_of(r), 256) > 1 || (need_value && val_of(r) is Some)
}

pub proof fn lemma_look_concat<V>(r: Option<Trie<V>>, p: Seq<u8>, q: Seq<u8>)
    ensures
        look(r, p + q) == look(look(r, p), q),
{
    if let Some(t) = r {
        lemma_at_concat(t, p, q);
    }
}

pub proof fn lemma_look_push<V>(r: Option<Trie<V>>, p: Seq<u8>, b: u8)
    ensures
        look(r, p.push(b)) == look(look(r, p), seq![b]),
        look(look(r, p), seq![b]) is Some <==> kids_of(look(r, p)).contains(b),
        look(look(r, p), seq![b]) is Some ==> look(look(r, p), seq![b]) == Some(
            look(r, p)->Some_0.kids[b],
        ),
{
    lemma_look_concat(r, p, seq![b]);
    assert(p + seq![b] =~= p.push(b));
    if let Some(t) = r {
        lemma_at_push(t, p, b);
    }
}

pub proof fn lemma_reach_bound<V>(r: Option<Trie<V>>, k: Seq<u8>)
    ensures
        reach(r, k) <= k.len(),
        val_reach(r, k) <= reach(r, k),
        look(r, k.subrange(0, reach(r, k) as int)) is Some || r is None,
        reach(r, k) < k.len() ==> look(r, k.subrange(0, reach(r, k) as int + 1)) is None,
    decreases k.len(),
{
    if k.len() > 0 {
        lemma_look_push(r, Seq::empty(), k[0]);
        assert(Seq::<u8>::empty().push(k[0]) =~= seq![k[0]]);
        assert(look(r, Seq::<u8>::empty()) == r);
        if kids_of(r).contains(k[0]) {
            let next = look(r, seq![k[0]]);
            let rest = k.drop_first();
            lemma_reach_bound(next, rest);
            let m = reach(next, rest) as int;
            lemma_look_concat(r, seq![k[0]], rest.subrange(0, m));
            assert(seq![k[0]] + rest.subrange(0, m) =~= k.subrange(0, m + 1));
            if m < rest.len() {
                lemma_look_concat(r, seq![k[0]], rest.subrange(0, m + 1));
                assert(seq![k[0]] + rest.subrange(0, m + 1) =~= k.subrange(0, m + 2));
            }
        } else {
            assert(k.subrange(0, 0) =~= Seq::<u8>::empty());
            assert(k.subrange(0, 1) =~= seq![k[0]]);
        }
    } else {
        assert(k.subrange(0, 0) =~= Seq::<u8>::empty());
    }
}

/// Along a chain a path leads on as far as it has the bytes of the chain, and from there on as it
/// does from where it got to.
pub proof fn lemma_reach_chain<V>(line: Seq<u8>, t: Trie<V>, k: Seq<u8>, m: nat, on_value: bool)
    requires
        m == overlap(k, line),
        line.len() > 0,
    ensures
        ({
            let r = Some(chain(line, t));
            let at = look(r, k.subrange(0, m as int));
            let rest = k.subrange(m as int, k.len() as int);
            &&& at is Some
            &&& cond_reach(r, k, on_value) == m + if on_value && m > 0 && val_of(at) is Some {
                0
            } else {
                cond_reach(at, rest, on_value)
            }
        }),
    decreases m,
{
    let c = chain(line, t);
    let r = Some(c);
    lemma_overlap(k, line);
    if m == 0 {
        assert(k.subrange(0, 0) =~= Seq::<u8>::empty());
        assert(k.subrange(0, k.len() as int) =~= k);
    } else {
        let k1 = k.drop_first();
        let l1 = line.drop_first();
        let n = (m - 1) as nat;
        assert(c.kids.contains_key(line[0]));
        assert(c.kids[line[0]] == chain(l1, t));
        let next = look(r, seq![k[0]]);
        lemma_look_push(r, Seq::empty(), k[0]);
        assert(next == Some(chain(l1, t)));
        lemma_look_concat(r, seq![k[0]], k1.subrange(0, n as int));
        assert(seq![k[0]] + k1.subrange(0, n as int) =~= k.subrange(0, m as int));
        assert(k1.subrange(n as int, k1.len() as int) =~= k.subrange(m as int, k.len() as int));
        if l1.len() > 0 {
            lemma_reach_chain(l1, t, k1, n, on_value);
            assert(val_of(next) is None);
            if n == 0 {
                assert(k1.subrange(0, 0) =~= Seq::<u8>::empty());
            }
        } else {
            assert(n == 0);
            assert(k1.subrange(0, 0) =~= Seq::<u8>::empty());
            assert(k1.subrange(0, k1.len() as int) =~= k1);
        }
    }
}

/// One byte down.
pub proof fn lemma_reach_step<V>(r: Option<Trie<V>>, k: Seq<u8>, on_value: bool)
    requires
        k.len() > 0,
    ensures
        cond_reach(r, k, on_value) == if kids_of(r).contains(k[0]) {
            1 + if on_value && val_of(look(r, seq![k[0]])) is Some {
                0
            } else {
                cond_reach(look(r, seq![k[0]]), k.drop_first(), on_value)
            }
        } else {
            0nat
        },
{
}

/// The run below a chain goes through all of it.
pub proof fn lemma_run_chain<V>(line: Seq<u8>, t: Trie<V>)
    requires
        line.len() > 0,
    ensures
        run_below(chain(line, t)) == line + if t.val is None {
            run_below(t)
        } else {
            Seq::empty()
        },
    decreases line.len(),
{
    let c = chain(line, t);
    let l1 = line.drop_first();
    assert(c.kids.dom() =~= Set::<u8>::empty().insert(line[0]));
    assert(c.kids.dom() == Set::<u8>::empty().insert(c.link_byte()));
    assert(Set::<u8>::empty().insert(c.link_byte()).contains(line[0]));
    assert(c.kids[line[0]] == chain(l1, t));
    if l1.len() > 0 {
        lemma_run_chain(l1, t);
        let n = chain(l1, t);
        assert(n.kids.dom() =~= Set::<u8>::empty().insert(l1[0]));
        assert(n.is_link());
        assert(line =~= seq![line[0]] + l1);
    } else {
        assert(line =~= seq![line[0]]);
        lemma_run_end(t);
    }
    assert(run_below(c) =~= line + if t.val is None {
        run_below(t)
    } else {
        Seq::empty()
    });
}

/// From a place without a value the run goes on exactly where the place is a link.
pub proof fn lemma_run_end<V>(t: Trie<V>)
    ensures
        t.val is None && !t.is_link() ==> run_below(t) == Seq::<u8>::empty(),
{
}

} // verus!

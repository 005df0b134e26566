//! How many values there are.

use vstd::prelude::*;

use crate::arena_compact::act_iter::count_at;
use crate::arena_compact::readers::lists_values;
use crate::trie::Trie;
use crate::slices::{lemma_overlap, overlap};
use crate::trie_order::{count_vals, kids_vals, lemma_less_irreflexive, less};

verus! {

/// The paths `l` below the byte `b`.
pub(crate) open spec fn below_byte(b: u8, l: Seq<Seq<u8>>) -> Seq<Seq<u8>> {
    Seq::new(l.len(), |i: int| seq![b] + l[i])
}

/// The paths that have a value.
pub(crate) open spec fn valued<V>(t: Trie<V>) -> Seq<Seq<u8>>
    decreases t, 300nat,
{
    (if t.val is Some {
        seq![Seq::<u8>::empty()]
    } else {
        Seq::empty()
    }) + valued_kids(t, 256)
}

/// Those that begin with a byte smaller than `n`.
pub(crate) open spec fn valued_kids<V>(t: Trie<V>, n: nat) -> Seq<Seq<u8>>
    decreases t, n,
{
    if n == 0 {
        Seq::empty()
    } else {
        let b = (n - 1) as u8;
        valued_kids(t, (n - 1) as nat) + if t.kids.contains_key(b) {
            below_byte(b, valued(t.kids[b]))
        } else {
            Seq::empty()
        }
    }
}

pub(crate) proof fn lemma_valued<V>(t: Trie<V>)
    ensures
        valued(t).len() == count_vals(t),
        valued(t).no_duplicates(),
        forall|p: Seq<u8>| #[trigger] valued(t).contains(p) <==> t.get(p) is Some,
    decreases t, 300nat,
{
    lemma_valued_kids(t, 256);
    let none = Seq::<u8>::empty();
    let own = if t.val is Some {
        seq![none]
    } else {
        Seq::<Seq<u8>>::empty()
    };
    let kids = valued_kids(t, 256);
    assert forall|p: Seq<u8>| #[trigger] valued(t).contains(p) <==> t.get(p) is Some by {
        if p.len() == 0 {
            assert(p =~= none);
            assert(t.at(none) == Some(t));
            if t.val is Some {
                assert(valued(t)[0] == none);
            }
            if valued(t).contains(p) {
                let i = choose|i: int| 0 <= i < valued(t).len() && valued(t)[i] == p;
                if i >= own.len() {
                    assert(kids[i - own.len()] == p);
                    assert(kids.contains(p));
                }
            }
        } else {
            if valued(t).contains(p) {
                let i = choose|i: int| 0 <= i < valued(t).len() && valued(t)[i] == p;
                assert(i >= own.len());
                assert(kids[i - own.len()] == p);
                assert(kids.contains(p));
            }
            if t.get(p) is Some {
                assert(kids.contains(p));
                let i = choose|i: int| 0 <= i < kids.len() && kids[i] == p;
                assert(valued(t)[own.len() + i] == p);
            }
        }
    }
    assert forall|i: int, j: int| 0 <= i < valued(t).len() && 0 <= j < valued(t).len() && i
        != j implies valued(t)[i] != valued(t)[j] by {
        if i < own.len() {
            assert(valued(t)[j] == kids[j - own.len()]);
            assert(kids.contains(kids[j - own.len()]));
        } else if j < own.len() {
            assert(valued(t)[i] == kids[i - own.len()]);
            assert(kids.contains(kids[i - own.len()]));
        } else {
            assert(valued(t)[i] == kids[i - own.len()]);
            assert(valued(t)[j] == kids[j - own.len()]);
        }
    }
}

proof fn lemma_valued_kids<V>(t: Trie<V>, n: nat)
    requires
        n <= 256,
    ensures
        valued_kids(t, n).len() == kids_vals(t, n),
        valued_kids(t, n).no_duplicates(),
        forall|p: Seq<u8>| #[trigger]
            valued_kids(t, n).contains(p) <==> p.len() > 0 && p[0] < n && t.get(p) is Some,
    decreases t, n,
{
    if n > 0 {
        let b = (n - 1) as u8;
        let first = valued_kids(t, (n - 1) as nat);
        let all = valued_kids(t, n);
        lemma_valued_kids(t, (n - 1) as nat);
        let last = if t.kids.contains_key(b) {
            below_byte(b, valued(t.kids[b]))
        } else {
            Seq::<Seq<u8>>::empty()
        };
        if t.kids.contains_key(b) {
            lemma_valued(t.kids[b]);
        }
        assert forall|i: int| 0 <= i < last.len() implies (#[trigger] last[i]).len() > 0 && last[i][0]
            == b && last[i].drop_first() == valued(t.kids[b])[i] by {
            assert(last[i].drop_first() =~= valued(t.kids[b])[i]);
        }
        assert forall|p: Seq<u8>| #[trigger] all.contains(p) <==> p.len() > 0 && p[0] < n && t.get(
            p,
        ) is Some by {
            if all.contains(p) {
                let i = choose|i: int| 0 <= i < all.len() && all[i] == p;
                if i < first.len() {
                    assert(first[i] == p);
                    assert(first.contains(p));
                } else {
                    let k = i - first.len();
                    assert(last[k] == p);
                    assert(valued(t.kids[b]).contains(p.drop_first()));
                }
            }
            if p.len() > 0 && p[0] < n && t.get(p) is Some {
                if p[0] < n - 1 {
                    assert(first.contains(p));
                    let i = choose|i: int| 0 <= i < first.len() && first[i] == p;
                    assert(all[i] == p);
                } else {
                    assert(t.kids[b].get(p.drop_first()) is Some);
                    assert(valued(t.kids[b]).contains(p.drop_first()));
                    let k = choose|k: int|
                        0 <= k < valued(t.kids[b]).len() && valued(t.kids[b])[k] == p.drop_first();
                    assert(last[k] =~= p);
                    assert(all[first.len() + k] == p);
                }
            }
        }
        assert forall|i: int, j: int| 0 <= i < all.len() && 0 <= j < all.len() && i != j implies all[i]
            != all[j] by {
            let m = first.len() as int;
            if i < m {
                assert(first.contains(first[i]));
            }
            if j < m {
                assert(first.contains(first[j]));
            }
            if i >= m {
                assert(all[i] == last[i - m]);
            }
            if j >= m {
                assert(all[j] == last[j - m]);
            }
            if i >= m && j >= m {
                assert(valued(t.kids[b])[i - m] != valued(t.kids[b])[j - m]);
            }
        }
    }
}

/// The paths that have a value are listed in order.
pub(crate) proof fn lemma_valued_ascends<V>(t: Trie<V>)
    ensures
        forall|i: int, j: int|
            0 <= i < j < valued(t).len() ==> less(#[trigger] valued(t)[i], #[trigger] valued(t)[j]),
    decreases t, 300nat,
{
    lemma_valued_kids_ascend(t, 256);
    lemma_valued_kids(t, 256);
    let none = Seq::<u8>::empty();
    let kids = valued_kids(t, 256);
    let m = valued(t).len() - kids.len();
    assert forall|i: int, j: int| 0 <= i < j < valued(t).len() implies less(
        #[trigger] valued(t)[i],
        #[trigger] valued(t)[j],
    ) by {
        assert(valued(t)[j] == kids[j - m]);
        if i < m {
            assert(kids.contains(kids[j - m]));
            assert(valued(t)[i] == none);
            assert(overlap(none, kids[j - m]) == 0);
        } else {
            assert(valued(t)[i] == kids[i - m]);
        }
    }
}

proof fn lemma_valued_kids_ascend<V>(t: Trie<V>, n: nat)
    requires
        n <= 256,
    ensures
        forall|i: int, j: int|
            0 <= i < j < valued_kids(t, n).len() ==> less(
                #[trigger] valued_kids(t, n)[i],
                #[trigger] valued_kids(t, n)[j],
            ),
    decreases t, n,
{
    if n > 0 {
        let b = (n - 1) as u8;
        let first = valued_kids(t, (n - 1) as nat);
        let all = valued_kids(t, n);
        lemma_valued_kids_ascend(t, (n - 1) as nat);
        lemma_valued_kids(t, (n - 1) as nat);
        if t.kids.contains_key(b) {
            let below = valued(t.kids[b]);
            let last = below_byte(b, below);
            lemma_valued_ascends(t.kids[b]);
            let m = first.len() as int;
            assert forall|i: int, j: int| 0 <= i < j < all.len() implies less(
                #[trigger] all[i],
                #[trigger] all[j],
            ) by {
                if j < m {
                    assert(all[i] == first[i] && all[j] == first[j]);
                } else {
                    assert(all[j] == seq![b] + below[j - m]);
                    if i < m {
                        assert(all[i] == first[i]);
                        assert(first.contains(first[i]));
                        assert(overlap(all[i], all[j]) == 0);
                    } else {
                        assert(all[i] == seq![b] + below[i - m]);
                        assert(all[i].drop_first() =~= below[i - m]);
                        assert(all[j].drop_first() =~= below[j - m]);
                        assert(overlap(all[i], all[j]) == 1 + overlap(below[i - m], below[j - m]));
                        assert(less(below[i - m], below[j - m]));
                        lemma_overlap(below[i - m], below[j - m]);
                    }
                }
            }
        } else {
            assert(all =~= first);
        }
    }
}

/// The number of values is that of the paths to them: as many as a finite set has that holds those and
/// no others.
pub proof fn law_count_is_the_number_of_paths<V>(t: Trie<V>, paths: Set<Seq<u8>>)
    requires
        forall|p: Seq<u8>| #[trigger] paths.contains(p) <==> t.get(p) is Some,
    ensures
        paths.finite(),
        paths.len() == count_vals(t),
{
    let all = valued(t);
    lemma_valued(t);
    all.unique_seq_to_set();
    assert(paths =~= all.to_set());
}

/// An iterator over the values of a trie yields as many as are counted.
pub proof fn law_count_is_the_number_listed(s: Seq<(Vec<u8>, u64)>, t: Trie<u64>)
    requires
        lists_values(s, t),
    ensures
        s.len() == count_vals(t),
{
    let paths = Seq::new(s.len(), |i: int| s[i].0@);
    let all = valued(t);
    lemma_valued(t);
    assert forall|i: int, j: int| 0 <= i < paths.len() && 0 <= j < paths.len() && i
        != j implies paths[i] != paths[j] by {
        lemma_less_irreflexive(paths[i]);
        if i < j {
            assert(crate::trie_order::less(s[i].0@, s[j].0@));
        } else {
            assert(crate::trie_order::less(s[j].0@, s[i].0@));
        }
    }
    assert(paths.no_duplicates());
    paths.unique_seq_to_set();
    all.unique_seq_to_set();
    assert forall|p: Seq<u8>| #[trigger] paths.to_set().contains(p) <==> all.to_set().contains(
        p,
    ) by {
        if paths.contains(p) {
            let i = choose|i: int| 0 <= i < paths.len() && paths[i] == p;
            assert(t.get(s[i].0@) == Some(s[i].1));
            assert(all.contains(p));
        }
        if all.contains(p) {
            let i = choose|i: int| 0 <= i < s.len() && (#[trigger] s[i]).0@ == p;
            assert(paths[i] == p);
        }
    }
    assert(paths.to_set() =~= all.to_set());
}

/// The values of a trie are listed each once with its path, in the order of the paths, and nothing else
/// is.
pub proof fn law_listed_values(s: Seq<(Vec<u8>, u64)>, t: Trie<u64>, p: Seq<u8>, v: u64, i: int, j: int)
    requires
        lists_values(s, t),
        0 <= i < s.len(),
        0 <= j < s.len(),
    ensures
        t.get(p) == Some(v) <==> exists|k: int|
            0 <= k < s.len() && (#[trigger] s[k]).0@ == p && s[k].1 == v,
        i < j <==> less(s[i].0@, s[j].0@),
{
    if t.get(p) == Some(v) {
        let k = choose|k: int| 0 <= k < s.len() && (#[trigger] s[k]).0@ == p;
        assert(t.get(s[k].0@) == Some(s[k].1));
    }
    if i != j {
        crate::trie_order::lemma_less_total(s[i].0@, s[j].0@);
    } else {
        lemma_less_irreflexive(s[i].0@);
    }
}

/// Nothing is listed where there is no value.
pub proof fn law_nothing_to_list(s: Seq<(Vec<u8>, u64)>, t: Trie<u64>)
    requires
        lists_values(s, t),
    ensures
        s.len() == 0 <==> forall|p: Seq<u8>| t.get(p) is None,
{
    if s.len() > 0 {
        assert(t.get(s[0].0@) == Some(s[0].1));
    }
}

/// The values at and below a place are counted, and where there is none there are none.
pub proof fn law_count_at_a_place(t: Trie<u64>)
    ensures
        count_at(Some(t)) == count_vals(t),
        count_at(None) == 0,
{
}

} // verus!

//! What is read back of what was written.

use vstd::prelude::*;

use crate::arena_compact::file::{
    file_trie, file_wf, history_wf, lemma_layout, root_of, roots_of,
};
use crate::arena_compact::growth::{
    growth, kid_growth, kid_places, lemma_growth, places, run,
};
use crate::arena_compact::counters::Counters;
use crate::arena_compact::kept::node_on;
use crate::arena_compact::layout::{layout, stream_layout};
use crate::arena_compact::meaning::{id_trie, id_wf, lemma_id_stable};
use crate::arena_compact::merge::{is_merge, node_of};
use crate::arena_compact::shared_layout::{lemma_unshared_layout, shared_layout, unshared};
use crate::arena_compact::stream::{push_result, ACTOutputStream};
use crate::arena_compact::stream_writer::StreamError;
use crate::arena_compact::shared_length::{extra, lemma_shared_length, references, spared};
use crate::arena_compact::varint::VARINT_LEN_BIAS;
use crate::laws::counting::law_count_is_the_number_of_paths;
use crate::laws::tries::law_put_value;
use crate::mapped::{lemma_mapped_at, lemma_mapped_identity, mapped};
use crate::trie::Trie;
use crate::trie_order::{count_vals, kids_vals, less};
use crate::trie_union::{either, lemma_union_absorbs, lemma_union_at, lemma_union_get, union};
use crate::utils::bits::lemma_rank_bound;
use crate::zipper::Zipper;

verus! {

/// The file of a trie that was read from the file of a trie is that file, byte for byte, where the
/// values are taken over as they are.
pub proof fn law_round_trip<M: Fn(&u64) -> u64>(t: Trie<u64>, map: M, u: Trie<u64>)
    requires
        layout(t).len() <= u64::MAX,
        mapped(file_trie(layout(t)), map, u),
        forall|v: u64, w: u64| call_ensures(map, (&v,), w) ==> v == w,
    ensures
        layout(u) == layout(t),
{
    lemma_layout(t);
    lemma_mapped_identity(t, map, u);
}

/// Whatever files two builders write for a zipper, they stand for the same trie, where there is one
/// integer for each value.
pub proof fn law_one_trie<V, M: Fn(&V) -> u64>(t: Trie<V>, map: M, u: Trie<u64>, w: Trie<u64>)
    requires
        mapped(t, map, u),
        mapped(t, map, w),
        forall|v: V, a: u64, b: u64|
            call_ensures(map, (&v,), a) && call_ensures(map, (&v,), b) ==> a == b,
    ensures
        u == w,
    decreases t,
{
    assert forall|b: u8| #[trigger] u.kids.contains_key(b) implies u.kids[b] == w.kids[b] by {
        assert(t.kids.contains_key(b));
        law_one_trie(t.kids[b], map, u.kids[b], w.kids[b]);
    }
    assert(u.kids =~= w.kids);
    assert(u.val == w.val);
}

/// A stream writes the file that is built from a zipper, byte for byte, unless a single byte leads on
/// from the root and no value is there.
pub proof fn law_stream_writes_same(t: Trie<u64>)
    requires
        !t.is_link(),
    ensures
        stream_layout(t) == layout(t),
{
}

/// The file of a zipper in which the shared places are written once is shorter by the nodes that it
/// does not write again, up to what its references take besides a byte for each: for a reference to
/// what was written long before can be longer than one to a copy close by. So it is not longer where
/// the references take a byte each, nor where what is spared outweighs them.
pub proof fn law_cached_length<V, Z: Zipper<V>, M: Fn(&V) -> u64>(
    zipper: &Z,
    map: M,
    u: Trie<u64>,
    plain: Seq<u8>,
    cached: Seq<u8>,
)
    requires
        zipper.wf(),
        mapped(zipper.trie(), map, u),
        forall|v: V, a: u64, b: u64|
            call_ensures(map, (&v,), a) && call_ensures(map, (&v,), b) ==> a == b,
        plain == layout(u),
        cached == shared_layout(u, zipper.shares()),
        plain.len() <= u64::MAX,
        cached.len() <= u64::MAX,
    ensures
        cached.len() + spared(u, zipper.shares()) <= plain.len() + extra(cached.len()) * references(
            u,
            zipper.shares(),
        ),
        cached.len() <= VARINT_LEN_BIAS ==> cached.len() + spared(u, zipper.shares())
            <= plain.len(),
{
    let shares = zipper.shares();
    let t = zipper.trie();
    assert forall|p: Seq<u8>, q: Seq<u8>|
        #![trigger shares(p), shares(q)]
        shares(p) is Some && shares(p) == shares(q) && u.has(p) && u.has(q) implies u.at(p) == u.at(
        q,
    ) by {
        zipper.lemma_shares(p, q);
        lemma_mapped_at(t, map, u, p);
        lemma_mapped_at(t, map, u, q);
        law_one_trie(t.at(p)->Some_0, map, u.at(p)->Some_0, u.at(q)->Some_0);
    }
    lemma_shared_length(u, shares);
    if cached.len() <= VARINT_LEN_BIAS {
        let n = references(u, shares);
        assert(extra(cached.len()) == 0);
        assert(extra(cached.len()) * n == 0) by (nonlinear_arith)
            requires
                extra(cached.len()) == 0,
        ;
    }
}

/// After a merge a path leads somewhere where it did before or does in what was merged, and the
/// value there is that of what was merged or else the one that was there before.
pub proof fn law_merge_reads(old_file: Seq<u8>, u: Trie<u64>, new_file: Seq<u8>, p: Seq<u8>)
    requires
        is_merge(old_file, u, new_file),
    ensures
        file_trie(new_file).has(p) == (file_trie(old_file).has(p) || u.has(p)),
        file_trie(new_file).get(p) == either(u.get(p), file_trie(old_file).get(p)),
{
    lemma_union_get(file_trie(old_file), u, p);
}

/// After a merge there is at the end of each path what was merged there, where that has a value, and
/// otherwise what the file had. Nothing is lost, and nothing comes from elsewhere.
pub proof fn law_merged_value_wins(old_file: Seq<u8>, u: Trie<u64>, new_file: Seq<u8>, p: Seq<u8>)
    requires
        is_merge(old_file, u, new_file),
    ensures
        u.get(p) is Some ==> file_trie(new_file).get(p) == u.get(p),
        u.get(p) is None ==> file_trie(new_file).get(p) == file_trie(old_file).get(p),
        u.has(p) ==> file_trie(new_file).has(p),
        file_trie(old_file).has(p) ==> file_trie(new_file).has(p),
        file_trie(new_file).has(p) ==> u.has(p) || file_trie(old_file).has(p),
{
    lemma_union_get(file_trie(old_file), u, p);
}

/// What is merged into a file from a zipper: the value that a path leads to from its focus, as `map`
/// gives it, stands in the file afterwards, and where the zipper has none the file is as it was.
pub proof fn law_merged_from_zipper<V, M: Fn(&V) -> u64>(
    old_file: Seq<u8>,
    t: Trie<V>,
    map: M,
    u: Trie<u64>,
    new_file: Seq<u8>,
    p: Seq<u8>,
)
    requires
        mapped(t, map, u),
        is_merge(old_file, u, new_file),
    ensures
        t.get(p) matches Some(v) ==> (file_trie(new_file).get(p) matches Some(w) && call_ensures(
            map,
            (&v,),
            w,
        )),
        t.get(p) is None ==> file_trie(new_file).get(p) == file_trie(old_file).get(p),
        file_trie(new_file).has(p) <==> t.has(p) || file_trie(old_file).has(p),
{
    law_merged_value_wins(old_file, u, new_file, p);
    lemma_mapped_at(t, map, u, p);
}

/// A file built from a trie has its paths and no others, and at the end of each what `map` gives for
/// the value there.
pub proof fn law_built_values<V, M: Fn(&V) -> u64>(t: Trie<V>, map: M, u: Trie<u64>, p: Seq<u8>)
    requires
        mapped(t, map, u),
    ensures
        u.has(p) <==> t.has(p),
        t.get(p) matches Some(v) ==> (u.get(p) matches Some(w) && call_ensures(map, (&v,), w)),
        t.get(p) is None ==> u.get(p) is None,
{
    lemma_mapped_at(t, map, u, p);
}

/// A merge of what is there already leaves the file as it is.
pub proof fn law_merge_of_known(old_file: Seq<u8>, u: Trie<u64>, new_file: Seq<u8>)
    requires
        is_merge(old_file, u, new_file),
        forall|p: Seq<u8>| #[trigger] u.has(p) ==> file_trie(old_file).has(p),
        forall|p: Seq<u8>| #[trigger]
            u.get(p) is Some ==> file_trie(old_file).get(p) == u.get(p),
    ensures
        new_file == old_file,
{
    lemma_union_absorbs(file_trie(old_file), u);
}

/// A merge that is repeated leaves the file as it is.
pub proof fn law_merge_twice(
    old_file: Seq<u8>,
    u: Trie<u64>,
    new_file: Seq<u8>,
    newest_file: Seq<u8>,
)
    requires
        is_merge(old_file, u, new_file),
        is_merge(new_file, u, newest_file),
    ensures
        newest_file == new_file,
{
    assert forall|p: Seq<u8>| #[trigger] u.has(p) implies file_trie(new_file).has(p) by {
        law_merge_reads(old_file, u, new_file, p);
    }
    assert forall|p: Seq<u8>| #[trigger] u.get(p) is Some implies file_trie(new_file).get(p)
        == u.get(p) by {
        law_merge_reads(old_file, u, new_file, p);
    }
    law_merge_of_known(new_file, u, newest_file);
}

/// The trie of two merges, one after the other, is that of one merge of both.
pub proof fn law_merges_add_up(a: Trie<u64>, b: Trie<u64>, c: Trie<u64>)
    ensures
        union(union(a, b), c) == union(a, union(b, c)),
    decreases a,
{
    let left = union(union(a, b), c);
    let right = union(a, union(b, c));
    assert forall|x: u8| #[trigger] left.kids.contains_key(x) implies left.kids[x]
        == right.kids[x] by {
        if a.kids.contains_key(x) && b.kids.contains_key(x) && c.kids.contains_key(x) {
            law_merges_add_up(a.kids[x], b.kids[x], c.kids[x]);
        }
    }
    assert(left.kids =~= right.kids);
}

/// After a merge the root there was is sound still and stands for the trie there was.
pub proof fn law_old_root_stays(old_file: Seq<u8>, u: Trie<u64>, new_file: Seq<u8>)
    requires
        file_wf(old_file),
        is_merge(old_file, u, new_file),
    ensures
        id_wf(new_file, root_of(old_file)),
        id_trie(new_file, root_of(old_file)) == file_trie(old_file),
        roots_of(new_file).contains(root_of(old_file)),
{
    if file_trie(new_file) == file_trie(old_file) {
        assert(roots_of(new_file)[0] == root_of(old_file));
    } else {
        lemma_id_stable(old_file, new_file, root_of(old_file));
        assert(roots_of(new_file)[1] == roots_of(old_file)[0]);
    }
}

/// Each number is below the one before it.
pub open spec fn falls(s: Seq<nat>) -> bool {
    forall|i: int, j: int| 0 <= i < j < s.len() ==> s[i] > s[j]
}

/// After merges that each add something to a file with a single root there is one root more for each
/// of them. They are told newest first, and their places fall.
pub proof fn law_history_of_merges(files: Seq<Seq<u8>>, added: Seq<Trie<u64>>)
    requires
        files.len() == added.len() + 1,
        file_wf(files[0]),
        roots_of(files[0]) == seq![root_of(files[0])],
        forall|i: int|
            0 <= i < added.len() ==> #[trigger] is_merge(files[i], added[i], files[i + 1])
                && file_trie(files[i + 1]) != file_trie(files[i]),
    ensures
        ({
            let roots = roots_of(files.last());
            &&& roots.len() == files.len()
            &&& forall|i: int|
                0 <= i < files.len() ==> #[trigger] roots[i] == root_of(files[files.len() - 1 - i])
            &&& falls(roots)
        }),
    decreases added.len(),
{
    let n = added.len() as int;
    if n > 0 {
        let before = files.drop_last();
        let fewer = added.drop_last();
        assert forall|i: int| 0 <= i < fewer.len() implies #[trigger] is_merge(
            before[i],
            fewer[i],
            before[i + 1],
        ) && file_trie(before[i + 1]) != file_trie(before[i]) by {
            assert(before[i] == files[i] && before[i + 1] == files[i + 1] && fewer[i] == added[i]);
            assert(is_merge(files[i], added[i], files[i + 1]));
        }
        assert(before[0] == files[0]);
        law_history_of_merges(before, fewer);
        let (a, b) = (files[n - 1], files[n]);
        assert(is_merge(files[n - 1], added[n - 1], files[n - 1 + 1]));
        assert(file_wf(a)) by {
            if n > 1 {
                assert(is_merge(files[n - 2], added[n - 2], files[n - 2 + 1]));
            }
        }
        assert(before.last() == a);
        lemma_id_stable(a, a, root_of(a));
        let roots = roots_of(b);
        assert(roots == seq![root_of(b)] + roots_of(a));
        assert(roots_of(a)[0] == root_of(before[before.len() - 1 - 0]));
        assert forall|i: int| 0 <= i < files.len() implies #[trigger] roots[i] == root_of(
            files[files.len() - 1 - i],
        ) by {
            if i > 0 {
                assert(roots[i] == roots_of(a)[i - 1]);
            }
        }
        assert forall|i: int, j: int| 0 <= i < j < roots.len() implies roots[i] > roots[j] by {
            assert(roots[j] == roots_of(a)[j - 1]);
            if i > 0 {
                assert(roots[i] == roots_of(a)[i - 1]);
            } else if j > 1 {
                assert(roots_of(a)[0] > roots_of(a)[j - 1]);
            }
        }
    }
}

/// Subtrees that what is merged does not touch are shared: the path to one leads to the node it led
/// to, whose children and line are those in the arena there was.
pub proof fn law_untouched_is_shared(
    old_file: Seq<u8>,
    u: Trie<u64>,
    new_file: Seq<u8>,
    p: Seq<u8>,
)
    requires
        is_merge(old_file, u, new_file),
        node_on(old_file, node_of(old_file, root_of(old_file)), p) is Some,
        !u.has(p),
    ensures
        node_on(new_file, node_of(new_file, root_of(new_file)), p) == node_on(
            old_file,
            node_of(old_file, root_of(old_file)),
            p,
        ),
        file_trie(new_file).at(p) == file_trie(old_file).at(p),
{
    lemma_union_at(file_trie(old_file), u, p);
}

/// A merge only adds to a file: but for the place of the root all bytes stay, and what is added stands
/// behind them. Where nothing is new the file is the same.
pub proof fn law_merge_appends(old_file: Seq<u8>, u: Trie<u64>, new_file: Seq<u8>, i: int)
    requires
        file_wf(old_file),
        is_merge(old_file, u, new_file),
        0 <= i < old_file.len(),
    ensures
        old_file.len() <= new_file.len(),
        i < 8 || 16 <= i ==> new_file[i] == old_file[i],
        file_trie(new_file) == file_trie(old_file) <==> new_file == old_file,
        file_trie(new_file) != file_trie(old_file) ==> old_file.len() <= root_of(new_file)
            < new_file.len(),
{
    if i < 8 {
        assert(old_file.subrange(0, 8)[i] == new_file.subrange(0, 8)[i]);
    }
}

/// What is pushed to a stream is added to what it stands for, unless it does not come after what was
/// pushed before; then nothing changes.
pub proof fn law_pushed_in_order(
    before: &ACTOutputStream,
    after: &ACTOutputStream,
    path: Seq<u8>,
    value: u64,
    r: Result<(), StreamError>,
    p: Seq<u8>,
)
    requires
        push_result(before, after, path, value, r),
    ensures
        r == Err::<(), StreamError>(StreamError::OutOfOrder) <==> (before.last() matches Some(last)
            && !less(last, path)),
        r == Err::<(), StreamError>(StreamError::OutOfOrder) ==> *after == *before,
        r is Ok ==> {
            &&& after.wf()
            &&& after.content().get(path) == Some(value)
            &&& p != path ==> after.content().get(p) == before.content().get(p)
            &&& after.content().has(p) <==> before.content().has(p) || (p.len() <= path.len() && p
                == path.subrange(0, p.len() as int))
            &&& after.last() == Some(path)
            &&& after.taken() == before.taken()
        },
{
    law_put_value(before.content(), path, Some(value), p);
    law_put_value(before.content(), path, Some(value), path);
}

/// Where no two places have the same number, the file in which shared places are written once is the
/// one that is written without regard to sharing.
pub proof fn law_unshared_is_written_plainly(t: Trie<u64>, shares: spec_fn(Seq<u8>) -> Option<u64>)
    requires
        forall|p: Seq<u8>, q: Seq<u8>|
            #![trigger shares(p), shares(q)]
            shares(p) is Some && shares(p) == shares(q) && t.has(p) && t.has(q) ==> p == q,
    ensures
        shared_layout(t, shares) == layout(t),
        unshared(t, shares),
{
    assert(unshared(t, shares));
    lemma_unshared_layout(t, shares);
}

/// Nothing is counted where counting is off.
pub proof fn law_nothing_is_counted()
    ensures
        ({
            let c = Counters::zero();
            &&& c.nodes == 0 && c.nodes_size == 0 && c.children == 0 && c.child_mask_size == 0
            &&& c.lines == 0 && c.lines_size == 0 && c.values == 0 && c.values_size == 0
            &&& c.offsets == 0 && c.offsets_size == 0 && c.line_data == 0 && c.line_data_size == 0
            &&& c.line_data_reuse == 0 && c.line_data_reuse_size == 0
        }),
{
}

/// A merge adds nothing to what can be read of the history but its own root, and takes nothing away.
pub proof fn law_merge_keeps_history(old_file: Seq<u8>, u: Trie<u64>, new_file: Seq<u8>)
    requires
        is_merge(old_file, u, new_file),
    ensures
        history_wf(new_file) == history_wf(old_file),
        file_trie(new_file) != file_trie(old_file) ==> roots_of(new_file).subrange(
            1,
            roots_of(new_file).len() as int,
        ) == roots_of(old_file) && roots_of(new_file)[0] == root_of(new_file),
{
    if file_trie(new_file) != file_trie(old_file) {
        let s = roots_of(new_file);
        assert(s.subrange(1, s.len() as int) =~= roots_of(old_file));
    }
}

/// A merge appends no more than some bytes for each path of what is merged: what a node with all its
/// siblings takes, and the rest of a line of the file.
pub proof fn law_merge_grows_by_what_is_merged(
    old_file: Seq<u8>,
    u: Trie<u64>,
    new_file: Seq<u8>,
    paths: Set<Seq<u8>>,
    longest: nat,
)
    requires
        is_merge(old_file, u, new_file),
        forall|p: Seq<u8>| #[trigger] paths.contains(p) <==> u.has(p),
        forall|p: Seq<u8>| #[trigger] file_trie(old_file).has(p) ==> p.len() <= longest,
    ensures
        paths.finite(),
        new_file.len() <= old_file.len() + 76 + paths.len() * (15500 + longest),
{
    let t = file_trie(old_file);
    lemma_growth_bound(t, u, longest);
    lemma_places_are_paths(u, paths);
    assert(paths.len() * (15500 + longest) >= 0) by (nonlinear_arith);
}

proof fn lemma_run_bound(t: Trie<u64>, longest: nat)
    requires
        forall|p: Seq<u8>| #[trigger] t.has(p) ==> p.len() <= longest,
    ensures
        run(t) <= longest,
    decreases t,
{
    if t.is_link() && t.kids.contains_key(t.link_byte()) {
        let b = t.link_byte();
        let k = t.kids[b];
        assert forall|p: Seq<u8>| #[trigger] k.has(p) implies p.len() <= longest - 1 by {
            assert((seq![b] + p).drop_first() =~= p);
            assert(t.has(seq![b] + p));
        }
        assert(k.has(Seq::empty()));
        lemma_run_bound(k, (longest - 1) as nat);
    }
}

proof fn lemma_growth_bound(t: Trie<u64>, u: Trie<u64>, longest: nat)
    requires
        forall|p: Seq<u8>| #[trigger] t.has(p) ==> p.len() <= longest,
    ensures
        growth(t, u) <= places(u) * (15500 + longest),
    decreases u, 257nat,
{
    let c = 15500 + longest;
    lemma_growth(t, u);
    lemma_run_bound(t, longest);
    lemma_rank_bound(t.kids.dom(), 256);
    lemma_kid_growth_bound(t, u, longest, 256);
    let n = kid_places(u, 256);
    assert((1 + n) * c == c + n * c) by (nonlinear_arith);
}

proof fn lemma_kid_growth_bound(t: Trie<u64>, u: Trie<u64>, longest: nat, n: nat)
    requires
        n <= 256,
        forall|p: Seq<u8>| #[trigger] t.has(p) ==> p.len() <= longest,
    ensures
        kid_growth(t, u, n) <= kid_places(u, n) * (15500 + longest),
    decreases u, n,
{
    reveal(growth);
    reveal(kid_growth);
    reveal(places);
    reveal(kid_places);
    let c = 15500 + longest;
    if n > 0 {
        let b = (n - 1) as u8;
        lemma_kid_growth_bound(t, u, longest, (n - 1) as nat);
        let x = kid_places(u, (n - 1) as nat);
        if u.kids.contains_key(b) {
            let y = places(u.kids[b]);
            if t.kids.contains_key(b) {
                assert forall|p: Seq<u8>| #[trigger] t.kids[b].has(p) implies p.len()
                    <= longest by {
                    assert((seq![b] + p).drop_first() =~= p);
                    assert(t.has(seq![b] + p));
                }
                lemma_growth_bound(t.kids[b], u.kids[b], longest);
            } else {
                assert(130 * y <= y * c) by (nonlinear_arith)
                    requires
                        c >= 130,
                ;
            }
            assert((x + y) * c == x * c + y * c) by (nonlinear_arith);
        }
    } else {
        assert(0 * c == 0);
    }
}

/// The trie with something at each place.
spec fn filled(t: Trie<u64>) -> Trie<()>
    decreases t,
{
    Trie {
        val: Some(()),
        kids: Map::new(
            |b: u8| t.kids.contains_key(b),
            |b: u8|
                if t.kids.contains_key(b) {
                    filled(t.kids[b])
                } else {
                    Trie::empty()
                },
        ),
    }
}

proof fn lemma_filled(t: Trie<u64>, p: Seq<u8>)
    ensures
        filled(t).get(p) is Some <==> t.has(p),
    decreases p.len(),
{
    if p.len() > 0 && t.kids.contains_key(p[0]) {
        lemma_filled(t.kids[p[0]], p.drop_first());
    }
}

proof fn lemma_filled_count(t: Trie<u64>, n: nat)
    requires
        n <= 256,
    ensures
        kids_vals(filled(t), n) == kid_places(t, n),
        n == 256 ==> count_vals(filled(t)) == places(t),
    decreases t, n,
{
    reveal(places);
    reveal(kid_places);
    if n > 0 {
        let b = (n - 1) as u8;
        lemma_filled_count(t, (n - 1) as nat);
        if t.kids.contains_key(b) {
            lemma_filled_count(t.kids[b], 256);
        }
    }
}

proof fn lemma_places_are_paths(t: Trie<u64>, paths: Set<Seq<u8>>)
    requires
        forall|p: Seq<u8>| #[trigger] paths.contains(p) <==> t.has(p),
    ensures
        paths.finite(),
        paths.len() == places(t),
{
    assert forall|p: Seq<u8>| #[trigger] paths.contains(p) <==> filled(t).get(p) is Some by {
        lemma_filled(t, p);
    }
    law_count_is_the_number_of_paths(filled(t), paths);
    lemma_filled_count(t, 256);
}

} // verus!

//! What the hashes of tries tell.

use vstd::prelude::*;

use crate::laws::tries::{law_paths_lead_step_by_step, law_tries_are_their_paths_and_values};
use crate::path_map::hash_scheme::{
    below_hash, kids_hash, lemma_below_kids, mix, mix_mask, place_hash, HashScheme, HashValue,
    MixScheme, MIX_FACTOR,
};
use crate::path_map::map::PathMap;
use crate::path_map::merkleization::{merkleized, no_collisions, MerkleizeResult};
use crate::trie::Trie;
use crate::utils::bits::{bit, members, members_below};
use crate::utils::byte_mask::{lemma_mask_of_any, mask_of, word_set};

verus! {

/// Different values have different hashes.
pub proof fn law_u64_values_have_their_own_hashes(a: u64, b: u64)
    requires
        a.hash_of() == b.hash_of(),
    ensures
        a == b,
{
}

/// Different values have different hashes.
pub proof fn law_u8_values_have_their_own_hashes(a: u8, b: u8)
    requires
        a.hash_of() == b.hash_of(),
    ensures
        a == b,
{
}

/// The one value of `()` has one hash.
pub proof fn law_unit_values_have_their_own_hashes(a: (), b: ())
    requires
        a.hash_of() == b.hash_of(),
    ensures
        a == b,
{
}

/// What the factor of the mixing is undone by.
const MIX_INVERSE: u128 = 0xb1041ad2562ff2ff2ff2ff2ff2ff2ff3;

/// A word and the word that it is multiplied to can be told from one another.
proof fn lemma_factor(a: u128)
    ensures
        (((a * MIX_FACTOR) % (u128::MAX + 1)) * MIX_INVERSE) % (u128::MAX + 1) == a,
{
    let m = u128::MAX + 1;
    let (f, g) = (MIX_FACTOR as int, MIX_INVERSE as int);
    vstd::arithmetic::div_mod::lemma_mul_mod_noop_left(a * f, g, m);
    assert(f * g == 1 + 213999254309421075624096729int * m);
    assert((a * f) * g == a * (f * g)) by (nonlinear_arith);
    assert(a * (f * g) == a + (a * 213999254309421075624096729int) * m) by (nonlinear_arith)
        requires
            f * g == 1 + 213999254309421075624096729int * m,
    ;
    vstd::arithmetic::div_mod::lemma_mod_multiples_vanish(
        a * 213999254309421075624096729int,
        a as int,
        m,
    );
    assert(m * (a * 213999254309421075624096729int) + a == a + (a
        * 213999254309421075624096729int) * m) by (nonlinear_arith);
    vstd::arithmetic::div_mod::lemma_small_mod(a as nat, m as nat);
}

/// Mixing keeps different words apart.
proof fn lemma_mix(h: u128, x: u128, k: u128, y: u128)
    requires
        mix(h, x) == mix(k, y),
    ensures
        h ^ x == k ^ y,
        h == k ==> x == y,
        x == y ==> h == k,
{
    let (a, c) = (h ^ x, k ^ y);
    let b = ((a * MIX_FACTOR) % (u128::MAX + 1)) as u128;
    let d = ((c * MIX_FACTOR) % (u128::MAX + 1)) as u128;
    assert(b ^ (b >> 67) == d ^ (d >> 67) ==> b == d) by (bit_vector);
    lemma_factor(a);
    lemma_factor(c);
    assert(h ^ x == k ^ y && h == k ==> x == y) by (bit_vector);
    assert(h ^ x == k ^ y && x == y ==> h == k) by (bit_vector);
}

/// Everything that goes into the hash of a place matters: where one part is another and the rest is
/// the same, the hash is another.
pub proof fn law_each_part_matters<V: HashValue>(a: u128, b: u128, c: u128, v: V, w: V)
    ensures
        HashScheme::<V>::child_of(&MixScheme, a, c) == HashScheme::<V>::child_of(&MixScheme, b, c)
            ==> a == b,
        HashScheme::<V>::child_of(&MixScheme, c, a) == HashScheme::<V>::child_of(&MixScheme, c, b)
            ==> a == b,
        HashScheme::<V>::finish_of(&MixScheme, a) == HashScheme::<V>::finish_of(&MixScheme, b)
            ==> a == b,
        HashScheme::<V>::with_value_of(&MixScheme, a, c) == HashScheme::<V>::with_value_of(
            &MixScheme,
            b,
            c,
        ) ==> a == b,
        HashScheme::<V>::with_value_of(&MixScheme, c, a) == HashScheme::<V>::with_value_of(
            &MixScheme,
            c,
            b,
        ) ==> a == b,
        HashScheme::<V>::value_of(&MixScheme, v) == HashScheme::<V>::value_of(&MixScheme, w)
            ==> v.hash_of() == w.hash_of(),
{
    let s = MixScheme;
    if HashScheme::<V>::child_of(&s, a, c) == HashScheme::<V>::child_of(&s, b, c) {
        lemma_mix(a, c, b, c);
    }
    if HashScheme::<V>::child_of(&s, c, a) == HashScheme::<V>::child_of(&s, c, b) {
        lemma_mix(c, a, c, b);
    }
    if HashScheme::<V>::finish_of(&s, a) == HashScheme::<V>::finish_of(&s, b) {
        lemma_mix(mix(a, 1), 2, mix(b, 1), 2);
        lemma_mix(a, 1, b, 1);
    }
    if HashScheme::<V>::with_value_of(&s, a, c) == HashScheme::<V>::with_value_of(&s, b, c) {
        lemma_mix(mix(a, c), 4, mix(b, c), 4);
        lemma_mix(a, c, b, c);
    }
    if HashScheme::<V>::with_value_of(&s, c, a) == HashScheme::<V>::with_value_of(&s, c, b) {
        lemma_mix(mix(c, a), 4, mix(c, b), 4);
        lemma_mix(c, a, c, b);
    }
    if HashScheme::<V>::value_of(&s, v) == HashScheme::<V>::value_of(&s, w) {
        let seed = crate::path_map::hash_scheme::MIX_SEED;
        lemma_mix(mix(seed, v.hash_of()), 3, mix(seed, w.hash_of()), 3);
        lemma_mix(seed, v.hash_of(), seed, w.hash_of());
    }
}

/// The tries have the same paths and the same values but for that at the end of `p`, where both have
/// one.
pub open spec fn one_value_apart<V>(t: Trie<V>, u: Trie<V>, p: Seq<u8>) -> bool {
    &&& forall|q: Seq<u8>| #[trigger] t.has(q) == u.has(q)
    &&& forall|q: Seq<u8>| q != p ==> #[trigger] t.get(q) == u.get(q)
    &&& t.get(p) is Some
    &&& u.get(p) is Some
    &&& t.get(p) != u.get(p)
}

/// The value is told by its hash.
pub open spec fn values_differ<V: HashValue>() -> bool {
    forall|a: V, b: V| #[trigger] a.hash_of() == #[trigger] b.hash_of() ==> a == b
}

/// The values of the crate are told by their hashes.
pub proof fn law_values_differ()
    ensures
        values_differ::<u64>(),
        values_differ::<u8>(),
        values_differ::<()>(),
{
    assert forall|a: (), b: ()| #[trigger] a.hash_of() == #[trigger] b.hash_of() implies a == b by {
        law_unit_values_have_their_own_hashes(a, b);
    }
}

/// Tries that differ in one value have different hashes, wherever in them it is.
pub proof fn law_one_value_changes_the_hash<V: HashValue>(t: Trie<V>, u: Trie<V>, p: Seq<u8>)
    requires
        values_differ::<V>(),
        one_value_apart(t, u, p),
    ensures
        place_hash(&MixScheme, t) != place_hash(&MixScheme, u),
        p.len() > 0 ==> below_hash(&MixScheme, t) != below_hash(&MixScheme, u),
    decreases p.len(),
{
    let s = MixScheme;
    let none = Seq::<u8>::empty();
    let (x, y) = (below_hash(&s, t), below_hash(&s, u));
    assert forall|b: u8| #[trigger] t.kids.contains_key(b) == u.kids.contains_key(b) by {
        law_paths_lead_step_by_step(t, none, none, b);
        law_paths_lead_step_by_step(u, none, none, b);
        assert(t.has(seq![b]) == u.has(seq![b]));
    }
    assert forall|b: u8| #[trigger] t.kids.contains_key(b) && !(p.len() > 0 && p[0] == b) implies
        t.kids[b] == u.kids[b] by {
        lemma_below(t, u, b);
        assert forall|q: Seq<u8>| #[trigger] t.kids[b].get(q) == u.kids[b].get(q) by {
            assert((seq![b] + q).drop_first() =~= q);
            assert((seq![b] + q)[0] == b);
            assert(t.get(seq![b] + q) == u.get(seq![b] + q));
        }
        law_tries_are_their_paths_and_values(t.kids[b], u.kids[b]);
    }
    if p.len() == 0 {
        assert(p =~= none);
        assert(t.kids =~= u.kids);
        lemma_below_kids(&s, t, u);
        let (v, w) = (t.val->Some_0, u.val->Some_0);
        assert(t.get(p) == t.val && u.get(p) == u.val);
        assert(v != w);
        law_each_part_matters::<V>(s.value_of(v), s.value_of(w), x, v, w);
    } else {
        let b = p[0];
        let p1 = p.drop_first();
        let (k, l) = (t.kids[b], u.kids[b]);
        assert(t.get(none) == u.get(none));
        assert(t.kids.contains_key(b));
        lemma_below(t, u, b);
        assert forall|q: Seq<u8>| q != p1 implies #[trigger] k.get(q) == l.get(q) by {
            assert((seq![b] + q).drop_first() =~= q);
            assert(seq![b] + q != p);
            assert(t.get(seq![b] + q) == u.get(seq![b] + q));
        }
        law_one_value_changes_the_hash(k, l, p1);
        assert(t.kids.dom() =~= u.kids.dom());
        lemma_one_kid_apart(t, u, b, 256);
        law_each_part_matters::<V>(
            kids_hash(&s, t, 256),
            kids_hash(&s, u, 256),
            0,
            arbitrary(),
            arbitrary(),
        );
        if let Some(v) = t.val {
            law_each_part_matters::<V>(x, y, s.value_of(v), v, v);
        }
    }
}

/// Below a byte the two have the same paths where they have them above.
proof fn lemma_below<V>(t: Trie<V>, u: Trie<V>, b: u8)
    requires
        forall|q: Seq<u8>| #[trigger] t.has(q) == u.has(q),
        t.kids.contains_key(b),
        u.kids.contains_key(b),
    ensures
        forall|q: Seq<u8>| #[trigger] t.kids[b].has(q) == u.kids[b].has(q),
{
    assert forall|q: Seq<u8>| #[trigger] t.kids[b].has(q) == u.kids[b].has(q) by {
        assert((seq![b] + q).drop_first() =~= q);
        assert(t.has(seq![b] + q) == u.has(seq![b] + q));
    }
}

/// Where one child has another hash and all else is the same, so has the place.
pub proof fn law_one_child_changes_the_hash<V: HashValue>(t: Trie<V>, u: Trie<V>, b: u8)
    requires
        t.val == u.val,
        t.kids.dom() == u.kids.dom(),
        t.kids.contains_key(b),
        forall|c: u8| #[trigger] t.kids.contains_key(c) && c != b ==> t.kids[c] == u.kids[c],
        place_hash(&MixScheme, t.kids[b]) != place_hash(&MixScheme, u.kids[b]),
    ensures
        below_hash(&MixScheme, t) != below_hash(&MixScheme, u),
        place_hash(&MixScheme, t) != place_hash(&MixScheme, u),
{
    let s = MixScheme;
    let v = arbitrary();
    lemma_one_kid_apart(t, u, b, 256);
    law_each_part_matters::<V>(kids_hash(&s, t, 256), kids_hash(&s, u, 256), 0, v, v);
    if let Some(w) = t.val {
        law_each_part_matters::<V>(below_hash(&s, t), below_hash(&s, u), s.value_of(w), w, w);
    }
}

/// The hash of a place is put together from that of its value, where it has one, and those of its
/// children in the order of their bytes, whatever the scheme.
pub proof fn law_hash_is_put_together<V, S: HashScheme<V>>(s: &S, t: Trie<V>, v: V)
    ensures
        below_hash(s, t) == s.finish_of(
            one_after_the_other::<V, S>(
                s,
                s.start_of(t.kids.dom()),
                Seq::new(
                    members(t.kids.dom()).len(),
                    |i: int| place_hash(s, t.kids[members(t.kids.dom())[i]]),
                ),
            ),
        ),
        t.val is None ==> place_hash(s, t) == below_hash(s, t),
        t.val == Some(v) ==> place_hash(s, t) == s.with_value_of(s.value_of(v), below_hash(s, t)),
{
    lemma_one_after_the_other(s, t, 256);
}

/// What hashes come to, one after the other.
pub open spec fn one_after_the_other<V, S: HashScheme<V>>(s: &S, start: u128, l: Seq<u128>) -> u128
    decreases l.len(),
{
    if l.len() == 0 {
        start
    } else {
        s.child_of(one_after_the_other::<V, S>(s, start, l.drop_last()), l.last())
    }
}

proof fn lemma_one_after_the_other<V, S: HashScheme<V>>(s: &S, t: Trie<V>, n: nat)
    requires
        n <= 256,
    ensures
        kids_hash(s, t, n) == one_after_the_other::<V, S>(
            s,
            s.start_of(t.kids.dom()),
            Seq::new(
                members_below(t.kids.dom(), n).len(),
                |i: int| place_hash(s, t.kids[members_below(t.kids.dom(), n)[i]]),
            ),
        ),
    decreases n,
{
    let dom = t.kids.dom();
    let l = Seq::new(
        members_below(dom, n).len(),
        |i: int| place_hash(s, t.kids[members_below(dom, n)[i]]),
    );
    if n > 0 {
        let m = (n - 1) as nat;
        lemma_one_after_the_other(s, t, m);
        let before = Seq::new(
            members_below(dom, m).len(),
            |i: int| place_hash(s, t.kids[members_below(dom, m)[i]]),
        );
        if dom.contains(m as u8) {
            assert(l.drop_last() =~= before);
            assert(l.last() == place_hash(s, t.kids[m as u8]));
        } else {
            assert(l =~= before);
        }
    } else {
        assert(l =~= Seq::empty());
    }
}

/// Where one child has another hash, so have all together.
proof fn lemma_one_kid_apart<V: HashValue>(t: Trie<V>, u: Trie<V>, b: u8, n: nat)
    requires
        n <= 256,
        t.kids.dom() == u.kids.dom(),
        t.kids.contains_key(b),
        forall|c: u8| #[trigger] t.kids.contains_key(c) && c != b ==> t.kids[c] == u.kids[c],
        place_hash(&MixScheme, t.kids[b]) != place_hash(&MixScheme, u.kids[b]),
    ensures
        n <= b <==> kids_hash(&MixScheme, t, n) == kids_hash(&MixScheme, u, n),
    decreases n,
{
    let s = MixScheme;
    if n > 0 {
        let c = (n - 1) as u8;
        lemma_one_kid_apart(t, u, b, (n - 1) as nat);
        assert(t.kids.dom().contains(c) == u.kids.dom().contains(c));
        if t.kids.contains_key(c) {
            let (x, y) = (
                kids_hash(&s, t, (n - 1) as nat),
                kids_hash(&s, u, (n - 1) as nat),
            );
            let (k, l) = (place_hash(&s, t.kids[c]), place_hash(&s, u.kids[c]));
            let v = arbitrary();
            law_each_part_matters::<V>(x, y, k, v, v);
            law_each_part_matters::<V>(k, l, x, v, v);
        }
    }
}

/// Sets of bytes that differ within one of the four blocks of 64 bytes, and nowhere else, have
/// different hashes.
pub proof fn law_bytes_change_the_hash(s: Set<u8>, t: Set<u8>, block: int)
    requires
        0 <= block < 4,
        forall|b: u8| b as int / 64 != block ==> #[trigger] s.contains(b) == t.contains(b),
        s != t,
    ensures
        mix_mask(s) != mix_mask(t),
{
    lemma_mask_of_any(s);
    lemma_mask_of_any(t);
    let (m, n) = (mask_of(s).0, mask_of(t).0);
    assert forall|w: int| 0 <= w < 4 && w != block implies m@[w] == n@[w] by {
        assert forall|i: u64| i < 64 implies #[trigger] bit(m@[w], i) == bit(n@[w], i) by {
            let k = (64 * w + i) as u8;
            assert(k as int / 64 == w && k % 64 == i);
            assert(word_set(m).contains(k) == s.contains(k));
            assert(word_set(n).contains(k) == t.contains(k));
        }
        crate::utils::bits::lemma_words_equal(m@[w], n@[w]);
    }
    if m@[block] == n@[block] {
        assert(m@ =~= n@);
        assert(m == n);
        assert(s == t);
    }
    if mix_mask(s) == mix_mask(t) {
        let seed = crate::path_map::hash_scheme::MIX_SEED;
        let (a, b) = (mix(seed, m@[0] as u128), mix(seed, n@[0] as u128));
        let (c, d) = (mix(a, m@[1] as u128), mix(b, n@[1] as u128));
        let (e, f) = (mix(c, m@[2] as u128), mix(d, n@[2] as u128));
        lemma_mix(e, m@[3] as u128, f, n@[3] as u128);
        if block < 3 {
            lemma_mix(c, m@[2] as u128, d, n@[2] as u128);
            if block < 2 {
                lemma_mix(a, m@[1] as u128, b, n@[1] as u128);
                if block < 1 {
                    lemma_mix(seed, m@[0] as u128, seed, n@[0] as u128);
                }
            }
        }
    }
}

/// Tries with the same children in the same order have different hashes where the bytes that lead to
/// these differ within one block.
pub proof fn law_other_bytes_change_the_hash<V: HashValue>(t: Trie<V>, u: Trie<V>, block: int)
    requires
        0 <= block < 4,
        t.val == u.val,
        t.kids.dom() != u.kids.dom(),
        forall|b: u8|
            b as int / 64 != block ==> #[trigger] t.kids.contains_key(b) == u.kids.contains_key(b),
        members(t.kids.dom()).len() == members(u.kids.dom()).len(),
        forall|i: int|
            0 <= i < members(t.kids.dom()).len() ==> t.kids[#[trigger] members(t.kids.dom())[i]]
                == u.kids[members(u.kids.dom())[i]],
    ensures
        below_hash(&MixScheme, t) != below_hash(&MixScheme, u),
        place_hash(&MixScheme, t) != place_hash(&MixScheme, u),
{
    let s = MixScheme;
    let (k, l) = (t.kids.dom(), u.kids.dom());
    assert forall|b: u8| b as int / 64 != block implies #[trigger] k.contains(b) == l.contains(
        b,
    ) by {
        assert(t.kids.contains_key(b) == u.kids.contains_key(b));
    }
    law_bytes_change_the_hash(k, l, block);
    lemma_kids_in_turn(t, 256);
    lemma_kids_in_turn(u, 256);
    assert(hashes_of_kids(t, members(k)) =~= hashes_of_kids(u, members(l))) by {
        assert forall|i: int| 0 <= i < members(k).len() implies place_hash(
            &s,
            t.kids[members(k)[i]],
        ) == place_hash(&s, u.kids[members(l)[i]]) by {}
    }
    lemma_start_matters::<V>(mix_mask(k), mix_mask(l), hashes_of_kids(t, members(k)));
    let v = arbitrary();
    law_each_part_matters::<V>(kids_hash(&s, t, 256), kids_hash(&s, u, 256), 0, v, v);
    if let Some(w) = t.val {
        law_each_part_matters::<V>(below_hash(&s, t), below_hash(&s, u), s.value_of(w), w, w);
    }
}

/// The hashes of the children at the bytes of `l`.
spec fn hashes_of_kids<V: HashValue>(t: Trie<V>, l: Seq<u8>) -> Seq<u128> {
    Seq::new(l.len(), |i: int| place_hash(&MixScheme, t.kids[l[i]]))
}

/// What hashes come to one after the other.
spec fn in_turn<V: HashValue>(start: u128, l: Seq<u128>) -> u128
    decreases l.len(),
{
    if l.len() == 0 {
        start
    } else {
        HashScheme::<V>::child_of(&MixScheme, in_turn::<V>(start, l.drop_last()), l.last())
    }
}

proof fn lemma_kids_in_turn<V: HashValue>(t: Trie<V>, n: nat)
    requires
        n <= 256,
    ensures
        kids_hash(&MixScheme, t, n) == in_turn::<V>(
            mix_mask(t.kids.dom()),
            hashes_of_kids(t, members_below(t.kids.dom(), n)),
        ),
    decreases n,
{
    let s = t.kids.dom();
    if n > 0 {
        lemma_kids_in_turn(t, (n - 1) as nat);
        let before = members_below(s, (n - 1) as nat);
        let b = (n - 1) as u8;
        if s.contains(b) {
            let l = hashes_of_kids(t, before.push(b));
            assert(l.drop_last() =~= hashes_of_kids(t, before));
            assert(l.last() == place_hash(&MixScheme, t.kids[b]));
        }
    } else {
        assert(hashes_of_kids(t, members_below(s, 0)) =~= Seq::empty());
    }
}

proof fn lemma_start_matters<V: HashValue>(a: u128, b: u128, l: Seq<u128>)
    requires
        a != b,
    ensures
        in_turn::<V>(a, l) != in_turn::<V>(b, l),
    decreases l.len(),
{
    if l.len() > 0 {
        lemma_start_matters::<V>(a, b, l.drop_last());
        let v = arbitrary();
        law_each_part_matters::<V>(
            in_turn::<V>(a, l.drop_last()),
            in_turn::<V>(b, l.drop_last()),
            l.last(),
            v,
            v,
        );
    }
}

/// Merging the nodes of a map does not change what it stands for where no two places have the same
/// hash for different tries below them.
pub proof fn law_merkleize_keeps_content<V, S: HashScheme<V>>(
    s: &S,
    before: &PathMap<V>,
    after: &PathMap<V>,
    r: MerkleizeResult,
)
    requires
        merkleized(s, before, after, r),
        forall|p: Seq<u8>, q: Seq<u8>|
            #![trigger before.trie().at(p), before.trie().at(q)]
            before.trie().has(p) && before.trie().has(q) && below_hash(
                s,
                before.trie().at(p)->Some_0,
            ) == below_hash(s, before.trie().at(q)->Some_0) ==> before.trie().at(p)->Some_0.kids
                == before.trie().at(q)->Some_0.kids,
    ensures
        after.trie() == before.trie(),
        forall|p: Seq<u8>| after.trie().get(p) == before.trie().get(p),
{
    assert(no_collisions(s, before.trie()));
}

/// Nor does it where such places differ in a single value below them: then they do not have the same
/// hash, and none of them takes the place of the other.
pub proof fn law_merkleize_keeps_values<V: HashValue>(
    before: &PathMap<V>,
    after: &PathMap<V>,
    r: MerkleizeResult,
)
    requires
        values_differ::<V>(),
        merkleized(&MixScheme, before, after, r),
        forall|p: Seq<u8>, q: Seq<u8>|
            #![trigger before.trie().at(p), before.trie().at(q)]
            before.trie().has(p) && before.trie().has(q) && below_hash(
                &MixScheme,
                before.trie().at(p)->Some_0,
            ) == below_hash(&MixScheme, before.trie().at(q)->Some_0) ==> same_or_value_apart(
                before.trie().at(p)->Some_0,
                before.trie().at(q)->Some_0,
            ),
    ensures
        after.trie() == before.trie(),
{
    let t = before.trie();
    assert forall|p: Seq<u8>, q: Seq<u8>|
        #![trigger t.at(p), t.at(q)]
        t.has(p) && t.has(q) && below_hash(&MixScheme, t.at(p)->Some_0) == below_hash(
            &MixScheme,
            t.at(q)->Some_0,
        ) implies t.at(p)->Some_0.kids == t.at(q)->Some_0.kids by {
        let (a, b) = (t.at(p)->Some_0, t.at(q)->Some_0);
        if a.kids != b.kids {
            let (x, y) = (Trie { val: None, kids: a.kids }, Trie { val: None, kids: b.kids });
            let z = choose|z: Seq<u8>| #[trigger] one_value_apart(x, y, z);
            lemma_below_kids(&MixScheme, a, x);
            lemma_below_kids(&MixScheme, b, y);
            assert(z.len() > 0) by {
                if z.len() == 0 {
                    assert(x.get(z) is None);
                }
            }
            law_one_value_changes_the_hash(x, y, z);
        }
    }
    law_merkleize_keeps_content(&MixScheme, before, after, r);
}

/// The same leads on from the two places, or below them a single value is another.
pub open spec fn same_or_value_apart<V>(a: Trie<V>, b: Trie<V>) -> bool {
    a.kids == b.kids || exists|z: Seq<u8>| #[trigger]
        one_value_apart(Trie { val: None, kids: a.kids }, Trie { val: None, kids: b.kids }, z)
}

/// The hash that is told is that of the map before and after, so maps that stand for the same have one
/// hash, however they were made.
pub proof fn law_hash_is_of_the_content<V, S: HashScheme<V>>(
    s: &S,
    a: &PathMap<V>,
    after_a: &PathMap<V>,
    ra: MerkleizeResult,
    b: &PathMap<V>,
    after_b: &PathMap<V>,
    rb: MerkleizeResult,
)
    requires
        merkleized(s, a, after_a, ra),
        merkleized(s, b, after_b, rb),
        a.trie() == b.trie(),
    ensures
        ra.hash == rb.hash,
        ra.hash == place_hash(s, a.trie()),
        ra.hash == place_hash(s, after_a.trie()),
{
}

/// After nodes were merged, places that are numbered and stand for the same have one number, unless
/// nothing leads on from them.
pub proof fn law_merkleized_is_shared<V, S: HashScheme<V>>(
    s: &S,
    before: &PathMap<V>,
    after: &PathMap<V>,
    r: MerkleizeResult,
    p: Seq<u8>,
    q: Seq<u8>,
)
    requires
        after.wf(),
        merkleized(s, before, after, r),
        after.share(p) is Some,
        after.share(q) is Some,
        after.trie().at(p) == after.trie().at(q),
        after.trie().at(p)->Some_0.kids != Map::<u8, Trie<V>>::empty(),
    ensures
        after.share(p) == after.share(q),
{
    after.lemma_maximally_shared(s, p, q);
}

} // verus!

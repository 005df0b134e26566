//! Hashes of tries.

use vstd::prelude::*;

use crate::trie::{chain, Trie};
use crate::utils::byte_mask::{BitMask, ByteMask};

verus! {

/// How the hash of a trie is put together from the hashes of its parts.
pub trait HashScheme<V> {
    /// What the hash of a place starts from, given the bytes that lead on.
    spec fn start_of(&self, mask: Set<u8>) -> u128;

    /// One more child, given what the children before it have come to.
    spec fn child_of(&self, acc: u128, child: u128) -> u128;

    /// The hash of what is below a place, given what its children have come to.
    spec fn finish_of(&self, acc: u128) -> u128;

    /// The hash of a value.
    spec fn value_of(&self, v: V) -> u128;

    /// The hash of a place with a value.
    spec fn with_value_of(&self, value: u128, below: u128) -> u128;

    fn begin(&self, mask: &ByteMask) -> (r: u128)
        ensures
            r == self.start_of(mask@),
    ;

    fn child(&self, acc: u128, child: u128) -> (r: u128)
        ensures
            r == self.child_of(acc, child),
    ;

    fn finish(&self, acc: u128) -> (r: u128)
        ensures
            r == self.finish_of(acc),
    ;

    fn value(&self, v: &V) -> (r: u128)
        ensures
            r == self.value_of(*v),
    ;

    fn with_value(&self, value: u128, below: u128) -> (r: u128)
        ensures
            r == self.with_value_of(value, below),
    ;
}

/// The hash of a place: that of what is below it, with its value where it has one.
pub open spec fn place_hash<V, S: HashScheme<V>>(s: &S, t: Trie<V>) -> u128
    decreases t, 301nat,
{
    match t.val {
        Some(v) => s.with_value_of(s.value_of(v), below_hash(s, t)),
        None => below_hash(s, t),
    }
}

/// The hash of what is below a place.
pub open spec fn below_hash<V, S: HashScheme<V>>(s: &S, t: Trie<V>) -> u128
    decreases t, 300nat,
{
    s.finish_of(kids_hash(s, t, 256))
}

/// What the children whose bytes are below `n` come to.
pub open spec fn kids_hash<V, S: HashScheme<V>>(s: &S, t: Trie<V>, n: nat) -> u128
    decreases t, n,
{
    if n == 0 {
        s.start_of(t.kids.dom())
    } else {
        let acc = kids_hash(s, t, (n - 1) as nat);
        let b = (n - 1) as u8;
        if t.kids.contains_key(b) {
            s.child_of(acc, place_hash(s, t.kids[b]))
        } else {
            acc
        }
    }
}

/// The hash of a place from which a single byte leads on to one with the hash `w`.
pub open spec fn step_of<V, S: HashScheme<V>>(s: &S, b: u8, w: u128) -> u128 {
    s.finish_of(s.child_of(s.start_of(Set::<u8>::empty().insert(b)), w))
}

/// The hash at the start of a chain whose end has the hash `w`.
pub open spec fn steps_of<V, S: HashScheme<V>>(s: &S, path: Seq<u8>, w: u128) -> u128
    decreases path.len(),
{
    if path.len() == 0 {
        w
    } else {
        step_of::<V, S>(s, path[0], steps_of::<V, S>(s, path.drop_first(), w))
    }
}

/// Only what leads on matters to the hash of what is below.
pub proof fn lemma_below_kids<V, S: HashScheme<V>>(s: &S, a: Trie<V>, b: Trie<V>)
    requires
        a.kids == b.kids,
    ensures
        below_hash(s, a) == below_hash(s, b),
{
    lemma_kids_hash_agree(s, a, b, 256);
}

proof fn lemma_kids_hash_agree<V, S: HashScheme<V>>(s: &S, a: Trie<V>, b: Trie<V>, n: nat)
    requires
        a.kids == b.kids,
    ensures
        kids_hash(s, a, n) == kids_hash(s, b, n),
    decreases n,
{
    if n > 0 {
        lemma_kids_hash_agree(s, a, b, (n - 1) as nat);
    }
}

/// Where no byte leads on nothing is added.
pub proof fn lemma_kids_hash_gap<V, S: HashScheme<V>>(s: &S, t: Trie<V>, m: nat, n: nat)
    requires
        m <= n <= 256,
        forall|b: u8| m <= b < n ==> !#[trigger] t.kids.contains_key(b),
    ensures
        kids_hash(s, t, n) == kids_hash(s, t, m),
    decreases n,
{
    if m < n {
        lemma_kids_hash_gap(s, t, m, (n - 1) as nat);
        assert(!t.kids.contains_key((n - 1) as u8));
    }
}

/// The hash at the start of a chain.
pub proof fn lemma_chain_hash<V, S: HashScheme<V>>(s: &S, path: Seq<u8>, end: Trie<V>)
    ensures
        place_hash(s, chain(path, end)) == steps_of::<V, S>(s, path, place_hash(s, end)),
    decreases path.len(),
{
    if path.len() > 0 {
        let c = chain(path, end);
        lemma_chain_hash(s, path.drop_first(), end);
        assert(c.kids.dom() =~= Set::<u8>::empty().insert(path[0]));
        lemma_kids_hash_gap(s, c, 0, path[0] as nat);
        lemma_kids_hash_gap(s, c, (path[0] + 1) as nat, 256);
        assert(c.kids.contains_key(path[0]));
        assert(c.kids[path[0]] == chain(path.drop_first(), end));
    }
}

/// Values that have a hash.
pub trait HashValue {
    spec fn hash_of(&self) -> u128;

    fn hash_value(&self) -> (r: u128)
        ensures
            r == self.hash_of(),
    ;
}

impl HashValue for u64 {
    open spec fn hash_of(&self) -> u128 {
        *self as u128
    }

    fn hash_value(&self) -> (r: u128) {
        *self as u128
    }
}

impl HashValue for u8 {
    open spec fn hash_of(&self) -> u128 {
        *self as u128
    }

    fn hash_value(&self) -> (r: u128) {
        *self as u128
    }
}

impl HashValue for () {
    open spec fn hash_of(&self) -> u128 {
        0
    }

    fn hash_value(&self) -> (r: u128) {
        0
    }
}

/// What each step of the mixing multiplies by.
pub const MIX_FACTOR: u128 = 0x1000000000000000000013b;

/// What the mixing of a place starts from.
pub const MIX_SEED: u128 = 0x6c62272e07bb014262b821756295c58d;

/// A scheme that mixes words by exclusive or, rotation of the halves, and multiplication modulo
/// the size of a word.
pub struct MixScheme;

/// One word mixed into another.
pub open spec fn mix(h: u128, x: u128) -> u128 {
    let a = h ^ x;
    let b = ((a * MIX_FACTOR) % (u128::MAX + 1)) as u128;
    b ^ (b >> 67)
}

fn mix_words(h: u128, x: u128) -> (r: u128)
    ensures
        r == mix(h, x),
{
    let a = h ^ x;
    let b = a.wrapping_mul(MIX_FACTOR);
    b ^ (b >> 67)
}

/// The words of a mask, each mixed in.
pub open spec fn mix_mask(mask: Set<u8>) -> u128 {
    let m = crate::utils::byte_mask::mask_of(mask).0;
    mix(
        mix(mix(mix(MIX_SEED, m@[0] as u128), m@[1] as u128), m@[2] as u128),
        m@[3] as u128,
    )
}

impl<V: HashValue> HashScheme<V> for MixScheme {
    open spec fn start_of(&self, mask: Set<u8>) -> u128 {
        mix_mask(mask)
    }

    open spec fn child_of(&self, acc: u128, child: u128) -> u128 {
        mix(acc, child)
    }

    open spec fn finish_of(&self, acc: u128) -> u128 {
        mix(mix(acc, 1), 2)
    }

    open spec fn value_of(&self, v: V) -> u128 {
        mix(mix(MIX_SEED, v.hash_of()), 3)
    }

    open spec fn with_value_of(&self, value: u128, below: u128) -> u128 {
        mix(mix(value, below), 4)
    }

    fn begin(&self, mask: &ByteMask) -> (r: u128) {
        proof {
            crate::utils::byte_mask::lemma_mask_of(*mask);
        }
        let a = mix_words(MIX_SEED, mask.0[0] as u128);
        let b = mix_words(a, mask.0[1] as u128);
        let c = mix_words(b, mask.0[2] as u128);
        mix_words(c, mask.0[3] as u128)
    }

    fn child(&self, acc: u128, child: u128) -> (r: u128) {
        mix_words(acc, child)
    }

    fn finish(&self, acc: u128) -> (r: u128) {
        mix_words(mix_words(acc, 1), 2)
    }

    fn value(&self, v: &V) -> (r: u128) {
        mix_words(mix_words(MIX_SEED, v.hash_value()), 3)
    }

    fn with_value(&self, value: u128, below: u128) -> (r: u128) {
        mix_words(mix_words(value, below), 4)
    }
}

} // verus!

use pathmap::arena_compact::{ACTVec, ArenaCompactTree};
use pathmap::zipper::Zipper;
use pathmap::PathMap;
use std::collections::BTreeMap;

fn src() -> PathMap<u64> {
    let mut m = PathMap::<u64>::new();
    m.insert(b"aa", 1);
    m.insert(b"ab", 2);
    m.insert(b"b", 3);
    m
}

/// Every existing location, with its value if any.
fn locations(m: &PathMap<u64>) -> BTreeMap<Vec<u8>, Option<u64>> {
    fn visit<Z: Zipper<u64>>(
        z: &mut Z,
        path: &mut Vec<u8>,
        out: &mut BTreeMap<Vec<u8>, Option<u64>>,
    ) {
        out.insert(path.clone(), z.val().copied());
        for byte in z.child_mask().to_vec() {
            z.descend_to_byte(byte);
            path.push(byte);
            visit(z, path, out);
            path.pop();
            z.ascend(1);
        }
    }
    let mut out = BTreeMap::new();
    visit(&mut m.read_zipper(), &mut Vec::new(), &mut out);
    out
}

fn locations_act(t: &ACTVec) -> BTreeMap<Vec<u8>, Option<u64>> {
    let mut rz = t.read_zipper_u64();
    let mut out = BTreeMap::new();
    out.insert(Vec::new(), rz.val().copied());
    while rz.to_next_step() {
        out.insert(rz.path().to_vec(), rz.val().copied());
    }
    out
}

/// The specified result of merging `src` into `base`.
fn expected(
    base: &BTreeMap<Vec<u8>, Option<u64>>,
    src: &BTreeMap<Vec<u8>, Option<u64>>,
) -> BTreeMap<Vec<u8>, Option<u64>> {
    let mut out = base.clone();
    for (p, v) in src {
        let slot = out.entry(p.clone()).or_insert(None);
        if v.is_some() {
            *slot = *v;
        }
    }
    out
}

struct Rng(u64);

impl Rng {
    fn next(&mut self) -> u64 {
        self.0 = self
            .0
            .wrapping_mul(6_364_136_223_846_793_005)
            .wrapping_add(1_442_695_040_888_963_407);
        self.0
    }

    fn below(&mut self, n: u64) -> u64 {
        (self.next() >> 32) % n
    }
}

/// A small trie over a 4-byte alphabet, so paths share prefixes and branch.
fn gen_map(rng: &mut Rng) -> PathMap<u64> {
    let mut m = PathMap::<u64>::new();
    if rng.below(4) == 0 {
        m.insert(b"", rng.below(256));
    }
    for _ in 0..rng.below(7) {
        let len = rng.below(5) as usize;
        let key: Vec<u8> = (0..len).map(|_| rng.below(4) as u8).collect();
        m.insert(&key, rng.below(256));
    }
    // a dangling path now and then, since merge has to carry those too
    if rng.below(3) == 0 {
        let len = 1 + rng.below(3) as usize;
        let key: Vec<u8> = (0..len).map(|_| rng.below(4) as u8).collect();
        m.create_path(&key);
    }
    m
}

#[test]
fn values_are_counted_from_the_focus() {
    let t = ArenaCompactTree::from_zipper(src().read_zipper(), |v: &u64| *v);
    for (path, count) in [(&b""[..], 3), (b"a", 2), (b"aa", 1), (b"b", 1), (b"zz", 0)] {
        let mut z = t.read_zipper_u64();
        z.descend_to(path);
        assert_eq!(z.val_count(), count);
        assert_eq!(z.checked_val_count(), Some(count));
    }
}

#[test]
fn values_of_shared_places_are_counted_each() {
    // 256 to the power of nine paths have a value.
    let mut map = PathMap::<u64>::new();
    for b in 0..=255u8 {
        map.insert(&[b], 1);
    }
    for _ in 0..8 {
        let mut next = PathMap::new();
        let node = next.adopt(&map);
        for b in 0..=255u8 {
            next.graft(&[b], node);
        }
        map = next;
    }
    let t = ArenaCompactTree::from_zipper_cached(map.read_zipper(), |v: &u64| *v);
    let mut z = t.read_zipper_u64();
    z.descend_to(&[0, 0, 0, 0, 0, 0, 0]);
    assert_eq!(z.checked_val_count(), Some(256 * 256));
}

#[test]
fn first_k_path_tries_other_branches() {
    let mut m = PathMap::<u64>::new();
    m.insert(b"a", 1); // leftmost branch is only 1 byte deep
    m.insert(b"bxy", 2); // this one reaches depth 3
    let t = ArenaCompactTree::from_zipper(m.read_zipper(), |v: &u64| *v);
    for (k, path) in [(1, &b"a"[..]), (2, b"bx"), (3, b"bxy")] {
        let mut z = t.read_zipper_u64();
        assert!(z.descend_first_k_path(k));
        assert_eq!(z.path(), path);
    }
    let mut z = t.read_zipper_u64();
    assert!(!z.descend_first_k_path(4));
    assert!(z.at_root());
}

#[test]
fn the_last_path_ends_with_the_trie() {
    let mut m = PathMap::<u64>::new();
    m.insert(b"", 0);
    m.insert(&[1u8, 0, 0, 0], 5);
    let t = ArenaCompactTree::from_zipper(m.read_zipper(), |v: &u64| *v);
    let mut z = t.read_zipper_at_path_u64(&[1u8, 0]);
    assert_eq!(z.ascend_until(), 0);
    assert!(z.descend_last_path());
    assert_eq!(z.path(), &[0, 0]);
    assert_eq!(z.origin_path(), &[1, 0, 0, 0]);
    assert_eq!(z.val(), Some(&5));
}

#[test]
fn values_root_values_and_dangling_paths_come_through() {
    let mut m = PathMap::<u64>::new();
    m.insert(b"", 7); // root value
    m.insert(b"ab", 1);
    m.create_path(b"zz"); // dangling path
    let t = ArenaCompactTree::from_zipper(m.read_zipper(), |v: &u64| *v);
    assert_eq!(locations(&m), locations_act(&t));
    assert_eq!(locations_act(&t).len(), 5);
}

#[test]
fn merges_are_unions_in_which_the_zipper_wins() {
    let mut rng = Rng(0x5eed);
    for i in 0..300u32 {
        let base = gen_map(&mut rng);
        let src = gen_map(&mut rng);
        let file = ArenaCompactTree::from_zipper(base.read_zipper(), |v: &u64| *v);
        let before = file.get_data().to_vec();
        if before.len() < 25 {
            assert!(file.merge_zipper(src.read_zipper(), |v: &u64| *v).is_err());
            continue;
        }
        let merged = file.merge_zipper(src.read_zipper(), |v: &u64| *v).unwrap();
        let want = expected(&locations(&base), &locations(&src));
        assert_eq!(locations_act(&merged), want, "round {i}");
        assert!(merged.is_sound());
        let after = merged.get_data().to_vec();
        assert_eq!(&after[16..before.len()], &before[16..]);
        // What is there already adds nothing.
        let again = merged.merge_zipper(src.read_zipper(), |v: &u64| *v).unwrap();
        assert_eq!(again.get_data(), &after[..]);
    }
}

#[test]
fn only_sound_files_are_taken_as_such() {
    let t = ArenaCompactTree::from_zipper(src().read_zipper(), |v: &u64| *v);
    assert!(t.is_sound());
    let bytes = t.into_data();
    let mut cut = bytes.clone();
    cut.truncate(20);
    assert!(!ArenaCompactTree::open(cut).unwrap().is_sound());
    let mut no_root = bytes.clone();
    no_root[8..16].copy_from_slice(&[0; 8]);
    assert!(!ArenaCompactTree::open(no_root).unwrap().is_sound());
    let mut far_root = bytes.clone();
    far_root[8..16].copy_from_slice(&[255; 8]);
    assert!(!ArenaCompactTree::open(far_root).unwrap().is_sound());
    assert!(!ArenaCompactTree::open(bytes[..8].to_vec()).unwrap().is_sound());
    assert!(ArenaCompactTree::open(bytes).unwrap().is_sound());
}

/// Graft `src` under each of `spots`, producing deliberate sharing.
fn fan_out(src: &PathMap<u64>, spots: &[&[u8]]) -> PathMap<u64> {
    let mut m = PathMap::<u64>::new();
    let node = m.adopt(src);
    for spot in spots {
        m.graft(spot, node);
    }
    m
}

#[test]
fn sharing_changes_nothing_that_can_be_seen() {
    let mut rng = Rng(0xC0FFEE);
    let spots: [&[u8]; 3] = [&[0], &[1], &[2, 2]];
    for _ in 0..100 {
        let src = gen_map(&mut rng);

        // A write below one of the places leaves the others alone.
        let mut m = fan_out(&src, &spots);
        let below = |m: &PathMap<u64>, spot: &[u8]| -> Vec<(Vec<u8>, Option<u64>)> {
            locations(m).into_iter().filter(|(p, _)| p.starts_with(spot)).collect()
        };
        let before: Vec<_> = spots[1..].iter().map(|s| below(&m, s)).collect();
        m.insert(&[0, 3, 3], 999);
        let after: Vec<_> = spots[1..].iter().map(|s| below(&m, s)).collect();
        assert_eq!(before, after);
        assert_eq!(m.get_val_at(&[0, 3, 3]), Some(&999));

        // More sharing keeps the contents.
        let mut m = fan_out(&src, &spots);
        let want = locations(&m);
        let hash = m.merkleize().hash;
        assert_eq!(locations(&m), want);

        // The hash follows the contents, however the trie was built.
        let mut rebuilt = PathMap::<u64>::new();
        for (k, v) in want.iter() {
            match v {
                Some(v) => rebuilt.insert(k, *v),
                None => rebuilt.create_path(k),
            }
        }
        assert_eq!(locations(&rebuilt), want);
        assert_eq!(rebuilt.merkleize().hash, hash);
    }
}

#[test]
fn as_many_values_are_listed_as_are_counted() {
    let mut rng = Rng(7);
    for _ in 0..50 {
        let m = gen_map(&mut rng);
        let t = ArenaCompactTree::from_zipper(m.read_zipper(), |v: &u64| *v);
        assert_eq!(t.iter().collect().len(), t.read_zipper_u64().val_count());
        assert_eq!(locations_act(&t), locations(&m));
    }
}

#[test]
fn merges_add_up() {
    let mut rng = Rng(11);
    for _ in 0..50 {
        let (a, b, c) = (gen_map(&mut rng), gen_map(&mut rng), gen_map(&mut rng));
        let file = |m: &PathMap<u64>| ArenaCompactTree::from_zipper(m.read_zipper(), |v: &u64| *v);
        if file(&a).get_data().len() < 25 || file(&b).get_data().len() < 25 {
            continue;
        }
        let one = file(&a)
            .merge_zipper(b.read_zipper(), |v: &u64| *v)
            .unwrap()
            .merge_zipper(c.read_zipper(), |v: &u64| *v)
            .unwrap();
        let both = file(&b).merge_zipper(c.read_zipper(), |v: &u64| *v).unwrap();
        let other = file(&a).merge_zipper(both.read_zipper_u64(), |v: &u64| *v).unwrap();
        assert_eq!(locations_act(&one), locations_act(&other));
    }
}

#[test]
fn the_root_there_was_stays_readable() {
    let mut more = PathMap::<u64>::new();
    more.insert(b"ac", 9);
    more.insert(b"b", 30);
    let base = ArenaCompactTree::from_zipper(src().read_zipper(), |v: &u64| *v);
    let merged = base.merge_zipper(more.read_zipper(), |v: &u64| *v).unwrap();
    assert_eq!(merged.get(b"b"), Some(30));
    let history = merged.root_history();
    assert_eq!(history.len(), 2);
    let mut bytes = merged.into_data();
    bytes[8..16].copy_from_slice(&history[1].0.to_le_bytes());
    let earlier = ArenaCompactTree::open(bytes).unwrap();
    assert!(earlier.is_sound());
    assert_eq!(locations_act(&earlier), locations(&src()));
}

#[test]
fn going_up_leads_back() {
    let t = ArenaCompactTree::from_zipper(src().read_zipper(), |v: &u64| *v);
    for path in [&b""[..], b"a", b"ab", b"abzz", b"q"] {
        let mut z = t.read_zipper_u64();
        z.descend_to(b"a");
        z.descend_to(path);
        assert_eq!(z.ascend(path.len()), path.len());
        assert_eq!(z.path(), b"a");
        assert_eq!(z.child_mask().to_vec(), b"ab");
    }
}

#[test]
fn a_trie_can_be_read_from_bytes_held_elsewhere() {
    let bytes = ArenaCompactTree::from_zipper(src().read_zipper(), |v: &u64| *v).into_data();
    let t = ArenaCompactTree::open(&bytes[..]).unwrap();
    assert!(t.is_sound());
    assert_eq!(t.get(b"ab"), Some(2));
    assert_eq!(t.get(b"a"), None);
}

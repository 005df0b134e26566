use pathmap::arena_compact::{
    push_varint_u64, read_varint_u64, ACTOutputStream, ACTVec, ActError, ArenaCompactTree, Storage,
    StreamError,
};
use pathmap::utils::{BitMask, ByteMask};
use pathmap::zipper::Zipper;
use pathmap::PathMap;
use std::collections::BTreeMap;

const MAGIC_LENGTH: usize = 8;

const PATHS: &[&str] = &[
    "arrow", "bow", "cannon", "roman", "romane", "romanus", "romulus",
    "rubens", "ruber", "rubicon", "rubicundus", "rom'i",
    "aaaaaaaaaaaaaaaaaaaaaaaaaaaaab",
    "aaaaaaaaaaaaaaaaaaaaaaaaaaaaac",
    "bbbbbbbbbbbbbbbbbbbbbbbbbbaaaa",
    "bbbbbbbbbbbbbbbbbbbbbbbbbbcccc",
];

fn map_of<P: AsRef<[u8]>, I: IntoIterator<Item = (P, u64)>>(items: I) -> PathMap<u64> {
    let mut map = PathMap::new();
    for (path, val) in items {
        map.insert(path.as_ref(), val);
    }
    map
}

fn numbered() -> PathMap<u64> {
    map_of(PATHS.iter().enumerate().map(|(idx, path)| (path, idx as u64)))
}

/// All places and their values, in order, read step by step.
fn places<V: Copy, Z: Zipper<V>>(z: &mut Z) -> Vec<(Vec<u8>, Option<V>)> {
    fn visit<V: Copy, Z: Zipper<V>>(
        z: &mut Z,
        path: &mut Vec<u8>,
        out: &mut Vec<(Vec<u8>, Option<V>)>,
    ) {
        out.push((path.clone(), z.val().copied()));
        for byte in z.child_mask().to_vec() {
            z.descend_to_byte(byte);
            path.push(byte);
            visit(z, path, out);
            path.pop();
            z.ascend(1);
        }
    }
    z.reset();
    let mut out = Vec::new();
    visit(z, &mut Vec::new(), &mut out);
    out
}

fn values<V: Copy, Z: Zipper<V>>(z: &mut Z) -> Vec<(Vec<u8>, V)> {
    places(z).into_iter().filter_map(|(path, val)| val.map(|val| (path, val))).collect()
}

#[test]
fn test_act_from_zipper() {
    let btm = numbered();
    let act = ArenaCompactTree::from_zipper(btm.read_zipper(), |v: &u64| *v);
    let mut expected = values(&mut btm.read_zipper()).into_iter();

    let mut act_zipper = act.read_zipper_u64();
    let mut act_observed = Vec::<u8>::new();
    loop {
        act_zipper.to_next_val_observed(&mut act_observed);
        let (path, val) = match expected.next() {
            Some((path, val)) => (path, Some(val)),
            None => (vec![], None),
        };
        let act_val = act_zipper.val().copied();

        assert_eq!(&path[..], act_zipper.path());
        assert_eq!(path, act_observed);
        assert_eq!(&act_observed[..], act_zipper.path());
        assert_eq!(val, act_val);

        if act_val.is_none() {
            break;
        }
    }
}

/// Build `map` both ways and check the results describe the same trie.
///
/// When there is nothing to re-use the two builders must agree byte for
/// byte; otherwise re-use may only ever make the output smaller.
fn check_cached_build(name: &str, map: &PathMap<u64>, expect_identical: bool) {
    let plain = ArenaCompactTree::from_zipper(map.read_zipper(), |v: &u64| *v);
    let cached = ArenaCompactTree::from_zipper_cached(map.read_zipper(), |v: &u64| *v);

    let contents = values(&mut map.read_zipper());
    assert!(contents == plain.iter().collect(), "{name}: plain content");
    assert!(contents == cached.iter().collect(), "{name}: cached content");

    if expect_identical {
        assert_eq!(plain.get_data(), cached.get_data(),
            "{name}: expected an identical layout (plain={}B cached={}B)",
            plain.get_data().len(), cached.get_data().len());
    } else {
        assert!(cached.get_data().len() <= plain.get_data().len(),
            "{name}: cached={}B plain={}B", cached.get_data().len(), plain.get_data().len());
    }
}

/// Graft `leaf` under every prefix, `levels` times over, so each level
/// shares the whole trie built by the level below it
/// Equivalent to cartesian `(prefix**levels)*leaf`
fn make_shared_map(prefix: &[Vec<u8>], levels: usize, leaf: PathMap<u64>) -> PathMap<u64> {
    let mut map = leaf;
    for _level in 0..levels {
        let mut next = PathMap::new();
        let node = next.adopt(&map);
        for path in prefix {
            next.graft(path, node);
        }
        map = next;
    }
    map
}

/// Create a fully-populated map with depth `depth`.
/// The nodes are maximally shared.
/// There are 256**depth paths in the resulting map.
fn make_fully_populated_shared(depth: usize) -> PathMap<u64> {
    let paths: Vec<Vec<u8>> = (0..=255u8).map(|n| vec![n]).collect();
    let full = map_of(paths.iter().map(|p| (p, 1)));
    make_shared_map(&paths, depth - 1, full)
}

/// With nothing to re-use, the cached builder must lay out the same bytes
/// as the plain one
#[test]
fn test_act_from_zipper_cached_unshared() {
    check_cached_build("paths", &numbered(), true);

    check_cached_build("empty", &PathMap::<u64>::new(), true);
    check_cached_build("single", &map_of([("a", 1u64)]), true);
    check_cached_build("root_val", &map_of([("", 7u64), ("a", 1), ("ab", 2)]), true);
    // values at every step of a chain, which breaks the jumped lines up
    check_cached_build("prefix_vals",
        &map_of([("a", 1u64), ("ab", 2), ("abc", 3), ("abcd", 4), ("abd", 5)]), true);
    check_cached_build("long_chain", &map_of([("a".repeat(5000), 1u64)]), true);
    check_cached_build("long_chain_vals",
        &map_of((1..50).map(|i| ("a".repeat(i * 37), i as u64))), true);
    // 256 children, i.e. branch nodes that store a full child mask
    check_cached_build("wide",
        &map_of((0u64..256).map(|b| (vec![b as u8], b))), true);
    check_cached_build("wide_deep", &map_of((0u64..256)
        .flat_map(|b| (0u64..256).map(move |c| (vec![b as u8, c as u8, 7], b * 256 + c)))), true);
}

/// A trie whose subtries are shared must come out the same, but smaller
#[test]
fn test_act_from_zipper_cached_shared() {
    let leaves: [fn() -> PathMap<u64>; 3] = [
        || map_of([("leaf", 1u64)]),
        || map_of([("x", 1u64), ("y", 2), ("zzzz", 3)]),
        || map_of((0u64..256).map(|b| (vec![b as u8], b))),
    ];
    // Sharing one byte below a fork, several bytes below a fork, and under
    // prefixes that are prefixes of each other
    let prefix_sets: [&[&[u8]]; 4] = [
        &[b"a", b"b"],
        &[b"aa", b"bb", b"cc"],
        &[b"long_prefix_one", b"long_prefix_two"],
        &[b"a", b"aa", b"aaa"],
    ];
    for (li, leaf) in leaves.iter().enumerate() {
        for (pi, prefixes) in prefix_sets.iter().enumerate() {
            let prefixes: Vec<Vec<u8>> = prefixes.iter().map(|p| p.to_vec()).collect();
            for levels in 1..4 {
                let map = make_shared_map(&prefixes, levels, leaf());
                check_cached_build(&format!("shared l{li} p{pi} lv{levels}"), &map, false);
            }
        }
    }
}

/// Values on the paths leading into the shared subtries, which stop those
/// positions from being re-usable and break the jumped lines apart
#[test]
fn test_act_from_zipper_cached_shared_with_values() {
    let leaf: PathMap<u64> = map_of([("x", 1u64), ("yy", 2)]);
    let mut map = PathMap::<u64>::new();
    let node = map.adopt(&leaf);
    for (idx, prefix) in ["aa", "ab", "ba", "bb"].iter().enumerate() {
        map.graft(prefix.as_bytes(), node);
        map.insert(&prefix.as_bytes()[..1], 100 + idx as u64);
        map.insert(prefix.as_bytes(), 200 + idx as u64);
    }
    check_cached_build("values_between", &map, false);
}

/// Re-use has to pay off: a trie that is 4 copies of the trie one level
/// down, 6 levels deep, is 4096 values but only a handful of nodes
#[test]
fn test_act_from_zipper_cached_size() {
    for prefix_set in [&[b"a".as_slice(), b"b", b"c", b"d"][..],
                       &[b"aa".as_slice(), b"bb", b"cc", b"dd"][..]]
    {
        let prefixes: Vec<Vec<u8>> = prefix_set.iter().map(|p| p.to_vec()).collect();
        let map = make_shared_map(&prefixes, 6, map_of([("leaf", 1u64)]));
        let plain = ArenaCompactTree::from_zipper(map.read_zipper(), |v: &u64| *v);
        let cached = ArenaCompactTree::from_zipper_cached(map.read_zipper(), |v: &u64| *v);
        assert_eq!(values(&mut map.read_zipper()).len(), 4096);
        assert_eq!(cached.read_zipper_u64().val_count(), 4096);
        assert!(cached.get_data().len() * 50 < plain.get_data().len(),
            "prefix len {}: cached={}B plain={}B",
            prefix_set[0].len(), cached.get_data().len(), plain.get_data().len());
    }
}

/// The full 5-byte trie: every one of the 256^5 paths of length 5 carries
/// a value.  The source is built by grafting each level under all 256
/// bytes, so it is nothing but shared nodes, and the cached builder has to
/// fold it into ~1300 nodes.  The plain builder is not run here: it would
/// walk 10^12 paths.
#[test]
fn test_act_from_zipper_cached_full_depth_5() {
    const DEPTH: usize = 5;

    let map = make_fully_populated_shared(DEPTH);
    let cached = ArenaCompactTree::from_zipper_cached(map.read_zipper(), |v: &u64| *v);

    // Each level is one branch node plus the 256 copies of the level below
    // it, i.e. ~256 nodes per level (~37KB in all) rather than 256^5 paths
    assert!(cached.get_data().len() < 64 * 1024,
        "cached={}B", cached.get_data().len());

    // Every level branches on all 256 bytes, values appear only at DEPTH
    let mut z = cached.read_zipper_u64();
    for depth in 0..DEPTH {
        assert_eq!(z.child_mask(), ByteMask::full(), "child mask at depth {depth}");
        assert_eq!(z.val(), None, "value at depth {depth}");
        assert!(z.descend_to_existing(&[depth as u8]) == 1, "descend at depth {depth}");
    }
    assert_eq!(z.child_mask(), ByteMask::new(), "child mask at depth {DEPTH}");
    assert_eq!(z.val().copied(), Some(1), "value at depth {DEPTH}");

    // Spot check the paths themselves against the source trie: bytes at
    // both ends of the range and around the byte that splits the mask
    // words, in every position
    let sample = [0u8, 1, 63, 64, 65, 127, 128, 254, 255];
    for a in sample {
        for b in sample {
            for c in sample {
                let path = [a, b, c, b, a];
                assert_eq!(cached.get_val_at(&path), Some(1), "{path:?}");
                assert_eq!(map.get_val_at(&path), Some(&1), "source {path:?}");
                // ...and nothing above or below a full-depth path
                for len in 0..DEPTH {
                    assert_eq!(cached.get_val_at(&path[..len]), None, "{path:?}[..{len}]");
                }
                let mut deeper = path.to_vec();
                deeper.push(a);
                assert_eq!(cached.get_val_at(&deeper), None, "{deeper:?}");
                let mut z = cached.read_zipper_u64();
                assert_eq!(z.descend_to_existing(&deeper), DEPTH, "descend {deeper:?}");
            }
        }
    }
}

/// Node re-use must survive a round trip: reading the re-used tree back
/// yields the tree the plain builder would have written
#[test]
fn test_act_from_zipper_cached_round_trip() {
    let prefixes = [b"aa".to_vec(), b"bb".to_vec()];
    let leaf = map_of([("x", 1u64), ("y", 2), ("zzzz", 3)]);
    let map = make_shared_map(&prefixes, 3, leaf);
    let cached = ArenaCompactTree::from_zipper_cached(map.read_zipper(), |v: &u64| *v);
    let plain = ArenaCompactTree::from_zipper(map.read_zipper(), |v: &u64| *v);
    let round_trip = ArenaCompactTree::from_zipper(cached.read_zipper_u64(), |v: &u64| *v);
    assert_eq!(plain.get_data(), round_trip.get_data());
}

#[test]
fn test_act_get() {
    let btm = numbered();
    let act = ArenaCompactTree::from_zipper(btm.read_zipper(), |v: &u64| *v);
    for (idx, path) in PATHS.iter().enumerate() {
        assert_eq!(Some(idx as u64), act.get_val_at(path.as_bytes()));
        assert_eq!(Some(idx as u64), act.get(path.as_bytes()));
    }
}

/// `get_val_at` must return `None` for a byte that is absent from a branch's
/// child mask, rather than reading the wrong sibling (byte below the mask range)
/// or walking past the last sibling (byte above the mask range).
#[test]
fn test_act_get_absent_branch_byte() {
    // Single-char keys force a branch root with children on {b'b', b'd', b'f'}.
    let items: [(&str, u64); 3] = [("b", 1), ("d", 2), ("f", 3)];
    let btm = map_of(items.iter().copied());
    let act = ArenaCompactTree::from_zipper(btm.read_zipper(), |v: &u64| *v);

    // Present keys still resolve correctly.
    for (k, v) in items {
        assert_eq!(act.get_val_at(k.as_bytes()), Some(v), "present key {k}");
    }

    // Absent bytes below, between, and above the child mask range.
    for absent in ["a", "c", "e", "g", "z"] {
        assert_eq!(act.get_val_at(absent.as_bytes()), None, "absent byte {absent}");
    }

    // Absent path that descends one present child then diverges.
    assert_eq!(act.get_val_at(b"bx"), None);
}

#[test]
fn test_act_round_trip() {
    let btm = numbered();
    let act1 = ArenaCompactTree::from_zipper(btm.read_zipper(), |v: &u64| *v);
    let act2 = ArenaCompactTree::from_zipper(act1.read_zipper_u64(), |v: &u64| *v);
    assert_eq!(act1.get_data(), act2.get_data());
}

fn cata_text<Z: Zipper<u64>>(z: &mut Z, path: &mut Vec<u8>) -> String {
    let val = z.val().copied();
    let bm = z.child_mask();
    let mut children = Vec::new();
    for byte in bm.to_vec() {
        z.descend_to_byte(byte);
        path.push(byte);
        children.push(cata_text(z, path));
        path.pop();
        z.ascend(1);
    }
    let path = std::str::from_utf8(path).unwrap();
    let children = children.join(", ");
    format!("('{path}' {val:?} {bm:?}\n{children})")
}

#[test]
fn test_act_cata() {
    let btm = numbered();
    let btm_value = cata_text(&mut btm.read_zipper(), &mut Vec::new());
    let act = ArenaCompactTree::from_zipper(btm.read_zipper(), |v: &u64| *v);
    let act_value = cata_text(&mut act.read_zipper_u64(), &mut Vec::new());
    assert_eq!(btm_value, act_value);
}

fn build_act_file(items: &[(&str, u64)]) -> Vec<u8> {
    let btm = map_of(items.iter().copied());
    ArenaCompactTree::from_zipper(btm.read_zipper(), |v: &u64| *v).into_data()
}

/// Assert `act` holds exactly `items` (no duplicates in `items`),
/// both by point lookups and by an ordered walk.
fn assert_act_content(act: &ACTVec, items: &[(&str, u64)]) {
    for &(k, v) in items {
        assert_eq!(act.get_val_at(k.as_bytes()), Some(v), "key {k}");
    }
    let btm = map_of(items.iter().copied());
    let mut expected = values(&mut btm.read_zipper()).into_iter();
    let mut az = act.read_zipper_u64();
    let mut a_observed = Vec::<u8>::new();
    loop {
        let next = expected.next();
        let more_a = az.to_next_val_observed(&mut a_observed);
        assert_eq!(next.is_some(), more_a, "walks end together");
        let (path, val) = match next {
            Some((path, val)) => (path, Some(val)),
            None => (vec![], None),
        };
        assert_eq!(&path[..], az.path());
        assert_eq!(path, a_observed);
        assert_eq!(val, az.val().copied());
        if !more_a {
            break;
        }
    }
}

#[test]
fn test_act_merge_zipper_into_file() {
    let base: &[(&str, u64)] = &[
        ("arrow", 1), ("bow", 2), ("roman", 3), ("romane", 4),
        ("rubicon", 5), ("aaaaaaaaaaaaaaaaaaaaaaaaaaaaab", 6),
    ];
    let add: &[(&str, u64)] = &[
        ("bow", 20),                            // value conflict -> zipper wins
        ("rom", 7),                             // value inside a line segment
        ("romanus", 8),                         // splits the line under "roman"
        ("rub", 9), ("rubble", 10),             // diverges inside the "rubicon" line
        ("zebra", 11),                          // fresh subtree at the root
        ("aaaaaaaaaaaaaaaaaaaaaaaaaaaaab", 6),  // identical entry (unchanged subtree)
        ("arrowhead", 12),                      // extends an existing leaf
    ];
    let before = build_act_file(base);

    let add_map = map_of(add.iter().copied());
    let merged = ArenaCompactTree::open(before.clone()).unwrap()
        .merge_zipper(add_map.read_zipper(), |v: &u64| *v).unwrap();

    // Append-only: everything except the root pointer is byte-identical
    let after = merged.get_data();
    assert!(after.len() > before.len(), "merge must append");
    assert_eq!(&after[..MAGIC_LENGTH], &before[..MAGIC_LENGTH]);
    assert_eq!(&after[MAGIC_LENGTH + 8..before.len()], &before[MAGIC_LENGTH + 8..]);

    assert_act_content(&merged, &[
        ("arrow", 1), ("arrowhead", 12), ("bow", 20), ("rom", 7),
        ("roman", 3), ("romane", 4), ("romanus", 8), ("rub", 9),
        ("rubble", 10), ("rubicon", 5), ("zebra", 11),
        ("aaaaaaaaaaaaaaaaaaaaaaaaaaaaab", 6),
    ]);
    for absent in ["row", "arrowh", "arrowheads", "zebr", "zebras", "romanu"] {
        assert_eq!(merged.get_val_at(absent.as_bytes()), None, "absent {absent}");
    }
}

#[test]
fn test_act_merge_noop() {
    let base: &[(&str, u64)] = &[
        ("arrow", 1), ("bow", 2), ("roman", 3), ("romane", 4), ("rubicon", 5),
    ];
    let before = build_act_file(base);

    // A subset with identical values adds nothing
    let subset = map_of([("bow", 2u64), ("romane", 4)]);
    let merged = ArenaCompactTree::open(before.clone()).unwrap()
        .merge_zipper(subset.read_zipper(), |v: &u64| *v).unwrap();
    assert_eq!(merged.get_data(), &before[..], "no-op merge must not touch the file");
    assert_act_content(&merged, base);
}

#[test]
fn merge_shares_what_it_does_not_touch() {
    // Three bytes lead to a place below which some thousand paths are; the merge adds a path
    // beside it, and copies its node but nothing below
    let keys: Vec<Vec<u8>> = (0..1024u32)
        .map(|i| vec![b'a', b'b', b'c', (i / 32) as u8, (i % 32) as u8, b'x'])
        .collect();
    let mut base: Vec<(Vec<u8>, u64)> = keys.iter().map(|k| (k.clone(), 7)).collect();
    base.push((b"b".to_vec(), 1));
    let act = ArenaCompactTree::from_zipper(map_of(base.clone()).read_zipper(), |v: &u64| *v);
    let before = act.get_data().len();
    assert!(before > 4096);

    let add = map_of([(b"abz".to_vec(), 5u64)]);
    let merged = act.merge_zipper(add.read_zipper(), |v: &u64| *v).unwrap();
    let grown = merged.get_data().len() - before;
    assert!(grown > 0 && grown < 80, "grown by {grown}");
    base.push((b"abz".to_vec(), 5));
    for (k, v) in &base {
        assert_eq!(merged.get_val_at(k), Some(*v));
    }
}

#[test]
fn test_act_merge_wide_branch() {
    // Merging into a >=32-child branch exercises the mask encoding
    let evens: Vec<Vec<u8>> = (0..=254u16).step_by(2).map(|b| vec![b as u8]).collect();
    let odds: Vec<Vec<u8>> = (1..=255u16).step_by(2).map(|b| vec![b as u8]).collect();
    let base_map = map_of(evens.iter().map(|k| (k, 1u64)));
    let act = ArenaCompactTree::from_zipper(base_map.read_zipper(), |v: &u64| *v);

    let add_map = map_of(odds.iter().map(|k| (k, 2u64)));
    let merged = act.merge_zipper(add_map.read_zipper(), |v: &u64| *v).unwrap();
    for b in 0..=255u8 {
        assert_eq!(merged.get_val_at(&[b]), Some(1 + (b & 1) as u64), "byte {b}");
    }
    assert_eq!(merged.get_val_at(&[0, 0]), None);
}

#[test]
fn test_act_merge_repeated_and_act_source() {
    // Several merge waves over an LCG key soup; the last wave merges from
    // an ACT zipper instead of a PathMap zipper.
    let mut state: u64 = 0x1234_5678_9abc_def0;
    let mut next = move || {
        state = state.wrapping_mul(6364136223846793005).wrapping_add(1442695040888963407);
        state >> 33
    };
    let mut make_wave = |n: usize| -> Vec<(String, u64)> {
        (0..n).map(|_| {
            let r = next();
            // small alphabet + variable length -> shared prefixes and line splits
            let len = 1 + (r % 12) as usize;
            let key: String = (0..len)
                .map(|i| (b'a' + ((r >> (i * 2)) & 0x3) as u8) as char)
                .collect();
            (key, r % 1000)
        }).collect()
    };

    let wave0 = make_wave(200);
    let base_map = map_of(wave0.iter().map(|(k, v)| (k, *v)));
    let mut act = ArenaCompactTree::from_zipper(base_map.read_zipper(), |v: &u64| *v);

    let mut expect: BTreeMap<String, u64> = wave0.into_iter().collect();
    for wave_idx in 0..3 {
        let wave = make_wave(300);
        let wave_map = map_of(wave.iter().map(|(k, v)| (k, *v)));
        let before = act.get_data().to_vec();
        let merged = if wave_idx < 2 {
            act.merge_zipper(wave_map.read_zipper(), |v: &u64| *v).unwrap()
        } else {
            // final wave: merge from an ACT zipper (ACT -> ACT merge)
            let wave_act = ArenaCompactTree::from_zipper(wave_map.read_zipper(), |v: &u64| *v);
            act.merge_zipper(wave_act.read_zipper_u64(), |v: &u64| *v).unwrap()
        };
        // Later entries win
        expect.extend(wave.into_iter());
        let after = merged.get_data();
        assert_eq!(&after[16..before.len()], &before[16..], "append-only violated");

        let items: Vec<(&str, u64)> = expect.iter().map(|(k, v)| (k.as_str(), *v)).collect();
        assert_act_content(&merged, &items);

        // The root chain grows by one per merge: the base root plus one
        // recorded root for each merge performed so far. Roots are appended,
        // so newest-first they strictly decrease in file offset, and the head
        // is the live root at the header.
        let history = merged.root_history();
        assert_eq!(history.len(), wave_idx + 2, "root history length");
        let mut root = [0; 8];
        root.copy_from_slice(&after[MAGIC_LENGTH..MAGIC_LENGTH + 8]);
        assert_eq!(history[0].0, u64::from_le_bytes(root), "history head is live root");
        for pair in history.windows(2) {
            assert!(pair[0].0 > pair[1].0, "roots must be newest-first: {history:?}");
        }
        act = merged;
    }
}

#[test]
fn test_act_output_stream() {
    let mut paths = PATHS.to_vec();
    paths.sort();

    let mut out = ACTOutputStream::new();
    for (idx, path) in paths.iter().enumerate() {
        out.push_val(path.as_bytes(), idx as u64).unwrap();
    }
    let tree = out.finish().unwrap();
    for (idx, path) in paths.iter().enumerate() {
        assert_eq!(tree.get_val_at(path.as_bytes()), Some(idx as u64));
    }
    assert_eq!(tree.get_val_at(b"arr"), None);
    assert_eq!(tree.get_val_at(b"arrows"), None);

    // The streamed tree must enumerate the same paths/values as one
    // built from a map
    let btm = map_of(paths.iter().enumerate().map(|(idx, path)| (path, idx as u64)));
    let act = ArenaCompactTree::from_zipper(btm.read_zipper(), |v: &u64| *v);
    let mut cata_zipper = act.read_zipper_u64();
    let mut stream_zipper = tree.read_zipper_u64();
    let mut cata_observed = Vec::<u8>::new();
    let mut stream_observed = Vec::<u8>::new();
    loop {
        let cata_next = cata_zipper.to_next_val_observed(&mut cata_observed);
        let stream_next = stream_zipper.to_next_val_observed(&mut stream_observed);
        assert_eq!(cata_next, stream_next);
        assert_eq!(cata_zipper.path(), stream_zipper.path());
        assert_eq!(cata_observed, stream_observed);
        assert_eq!(&cata_observed[..], cata_zipper.path());
        assert_eq!(cata_zipper.get_val(), stream_zipper.get_val());
        if !cata_next {
            break;
        }
    }
}

#[test]
fn test_act_output_stream_prefixes() {
    let mut out = ACTOutputStream::new();
    // Empty path, paths extending previous ones, and a long chain
    let paths: &[&str] = &["", "a", "ab", "abc", "abcdefgh", "b"];
    for (idx, path) in paths.iter().enumerate() {
        out.push_val(path.as_bytes(), idx as u64).unwrap();
    }
    let tree = out.finish().unwrap();
    for (idx, path) in paths.iter().enumerate() {
        assert_eq!(tree.get_val_at(path.as_bytes()), Some(idx as u64), "path={path:?}");
    }
    assert_eq!(tree.get_val_at(b"abcd"), None);
    assert_eq!(tree.get_val_at(b"ba"), None);
}

#[test]
fn test_act_output_stream_wide_branch() {
    let mut out = ACTOutputStream::new();
    // 256 children at the root exercises the child-mask encoding
    for byte in 0..=255_u8 {
        out.push_val(&[byte], byte as u64).unwrap();
    }
    let tree = out.finish().unwrap();
    for byte in 0..=255_u8 {
        assert_eq!(tree.get_val_at(&[byte]), Some(byte as u64));
    }
    assert_eq!(tree.get_val_at(&[0, 0]), None);
}

#[test]
fn test_act_output_stream_rejects_unordered() {
    let mut out = ACTOutputStream::new();
    out.push(b"bcd").unwrap();
    assert!(out.push(b"bcd").is_err(), "duplicates must be rejected");
    assert!(out.push(b"abc").is_err(), "out-of-order must be rejected");
    assert!(out.push(b"b").is_err(), "prefix of previous is out-of-order");
    assert!(matches!(out.push(b"bcd"), Err(StreamError::OutOfOrder)));
    out.push(b"bce").unwrap();
    let tree = out.finish().unwrap();
    assert_eq!(tree.get_val_at(b"bcd"), Some(0));
    assert_eq!(tree.get_val_at(b"bce"), Some(0));
    assert_eq!(tree.get_val_at(b"abc"), None);
}

#[test]
fn a_stream_hands_its_output_over_piece_by_piece() {
    let mut whole = ACTOutputStream::new();
    let mut pieces = ACTOutputStream::new();
    let mut written = Vec::new();
    for byte in 0..=255_u8 {
        whole.push_val(&[byte, 7, byte], byte as u64).unwrap();
        pieces.push_val(&[byte, 7, byte], byte as u64).unwrap();
        written.extend(pieces.take_output());
    }
    let (tail, root) = pieces.finish_output().unwrap();
    written.extend(tail);
    let mut expected = whole.finish().unwrap().into_data();
    assert_eq!(&written[MAGIC_LENGTH + 8..], &expected[MAGIC_LENGTH + 8..]);
    expected.truncate(MAGIC_LENGTH + 8);
    assert_eq!(&expected[MAGIC_LENGTH..], &root.0.to_le_bytes());
}

/// The sibling of a byte that leads nowhere is defined by the parent's children, so it exists while
/// the parent is real.
#[test]
fn act_zipper_sibling_step_from_an_off_trie_focus() {
    let mut m = PathMap::<u64>::new();
    m.insert(&[], 38);
    m.insert(&[1u8], 5);
    m.insert(&[1u8, 0, 2], 22);
    m.insert(&[3u8], 7);
    let t = ArenaCompactTree::from_zipper(m.read_zipper(), |v: &u64| *v);

    //One byte off the trie, with a sibling on either side
    let mut az = t.read_zipper_u64();
    az.descend_to(&[2u8]);
    assert!(!az.path_exists());
    assert_eq!(az.to_next_sibling_byte(), Some(3));
    assert_eq!(az.path(), &[3u8]);
    assert_eq!(az.val(), Some(&7));
    az.ascend(1);
    az.descend_to(&[2u8]);
    assert_eq!(az.to_prev_sibling_byte(), Some(1));
    assert_eq!(az.path(), &[1u8]);
    assert_eq!(az.val(), Some(&5));

    //No sibling on that side: the zipper stays where it was
    let mut az = t.read_zipper_u64();
    az.descend_to(&[0u8]);
    assert_eq!(az.to_prev_sibling_byte(), None);
    assert_eq!(az.path(), &[0u8]);
    assert!(!az.path_exists());
    assert_eq!(az.to_next_sibling_byte(), Some(1));

    //Two bytes off the trie: the parent is not real, so there is no sibling
    let mut az = t.read_zipper_u64();
    az.descend_to(&[2u8, 0]);
    assert_eq!(az.to_next_sibling_byte(), None);
    assert_eq!(az.path(), &[2u8, 0]);

    //`to_next_step` from an off-trie focus visits what follows it
    let mut az = t.read_zipper_u64();
    az.descend_to(&[0u8]);
    let mut seen = Vec::new();
    while az.to_next_step() {
        seen.push(az.path().to_vec());
    }
    assert_eq!(seen, vec![vec![1u8], vec![1, 0], vec![1, 0, 2], vec![3]]);
}

#[test]
fn varints_have_as_many_bytes_as_they_need() {
    for (value, len) in [(0u64, 1), (246, 1), (247, 1), (248, 2), (255, 2), (256, 3), (u64::MAX, 9)] {
        let mut bytes = Vec::new();
        let written = push_varint_u64(&mut bytes, value);
        assert_eq!(written, bytes.len());
        assert_eq!(read_varint_u64(&bytes), (value, written));
        assert!(written <= len, "{value} takes {written}");
    }
}

#[test]
fn varints_are_stored_in_little_endian_order() {
    let stored = |value: u64| {
        let mut bytes = Vec::new();
        push_varint_u64(&mut bytes, value);
        bytes
    };
    assert_eq!(stored(100), [100]);
    assert_eq!(stored(1000), [249, 232, 3]);
    assert_eq!(stored(u64::MAX), [255, 255, 255, 255, 255, 255, 255, 255, 255]);
    assert_eq!(read_varint_u64(&[249, 232, 3]), (1000, 3));
    assert_eq!(read_varint_u64(&[7, 99]), (7, 1));
}

#[test]
fn opening_asks_for_the_magic() {
    let file = build_act_file(&[("arrow", 1)]);
    assert_eq!(ArenaCompactTree::open(file.clone()).unwrap().get(b"arrow"), Some(1));
    let mut other = file;
    other[0] ^= 1;
    assert!(matches!(ArenaCompactTree::open(other), Err(ActError::InvalidMagic)));
    assert!(matches!(ArenaCompactTree::open(vec![]), Err(ActError::InvalidMagic)));
}

#[test]
fn storage_hands_out_its_bytes() {
    let bytes = vec![1u8, 2, 3];
    assert_eq!(Storage::as_bytes(&bytes), &[1, 2, 3]);
}

#[test]
fn moves_of_a_zipper() {
    let map = map_of([("roman", 3), ("romane", 4), ("romanus", 8), ("rubicon", 5), ("bow", 2)]);
    let tree = ArenaCompactTree::from_zipper(map.read_zipper(), |v: &u64| *v);
    let mut z = tree.read_zipper_u64();

    assert_eq!(z.descend_first_byte(), Some(b'b'));
    assert!(z.descend_until());
    assert_eq!(z.path(), b"bow");
    assert_eq!(z.ascend_until(), 3);
    assert!(z.at_root());
    assert_eq!(z.descend_last_byte(), Some(b'r'));
    assert_eq!(z.descend_indexed_byte(2), None);
    assert_eq!(z.descend_indexed_byte(1), Some(b'u'));
    assert_eq!(z.to_prev_sibling_byte(), Some(b'o'));
    assert_eq!(z.to_next_sibling_byte(), Some(b'u'));
    assert_eq!(z.to_next_sibling_byte(), None);
    assert_eq!(z.move_to_path(b"romanx"), 1);
    assert!(!z.path_exists());
    assert_eq!(z.ascend_until_branch(), 1);
    assert_eq!(z.path(), b"roman");
    assert_eq!(z.get_val(), Some(3));
    assert_eq!(z.val_at(b"us"), Some(8));
    assert_eq!(z.child_count(), 2);
    assert_eq!(z.val_count(), 3);
    assert_eq!(z.descend_to_val(b"usx"), 2);
    assert!(!z.descend_until_max_bytes(4));
    assert!(z.ascend_byte());
    assert!(!z.descend_to_existing_byte(b'x'));
    assert!(z.descend_to_existing_byte(b's'));
    z.reset();
    assert!(z.descend_first_k_path(2));
    assert_eq!(z.path(), b"bo");
    assert!(z.to_next_k_path(2));
    assert_eq!(z.path(), b"ro");
    assert!(z.to_next_k_path(2));
    assert_eq!(z.path(), b"ru");
    assert!(!z.to_next_k_path(2));
    assert!(z.at_root());
    assert!(z.descend_last_path());
    assert_eq!(z.path(), b"rubicon");
    assert!(z.descend_to_check(b""));
    assert!(!z.descend_to_check(b"s"));
    assert_eq!(z.focus_byte(), Some(b's'));
}

#[test]
fn a_zipper_keeps_below_its_root() {
    let map = map_of([("roman", 3), ("romane", 4), ("rubicon", 5), ("bow", 2)]);
    let tree = ArenaCompactTree::from_zipper(map.read_zipper(), |v: &u64| *v);
    let mut z = tree.read_zipper_at_path_u64(b"rom");
    assert_eq!(z.root_prefix_path(), b"rom");
    let mut seen = Vec::new();
    while z.to_next_val() {
        seen.push((z.path().to_vec(), z.origin_path().to_vec()));
    }
    assert_eq!(seen, vec![
        (b"an".to_vec(), b"roman".to_vec()),
        (b"ane".to_vec(), b"romane".to_vec()),
    ]);
    assert_eq!(z.ascend(9), 0);
    assert_eq!(z.to_next_sibling_byte(), None);
    let mut fork = {
        z.descend_to(b"an");
        z.fork_read_zipper()
    };
    assert_eq!(fork.root_prefix_path(), b"roman");
    assert_eq!(fork.get_val(), Some(3));
    fork.reset();
    assert_eq!(fork.path(), b"");
    let off = tree.read_zipper_at_path_u64(b"romx");
    assert!(!off.path_exists());
    let mut gone = off.clone();
    gone.descend_to(b"y");
    gone.reset();
    assert!(!gone.path_exists());
    assert_eq!(tree.read_zipper_at_path(b"bow").val(), Some(&()));
    assert!(tree.read_zipper().child_mask().test_bit(b'r'));
}

#[test]
fn the_first_paths_of_a_stream_have_room() {
    let mut stream = ACTOutputStream::new();
    stream.push(b"").unwrap();
    stream.push_val(b"a", 3).unwrap();
    let tree = stream.finish().unwrap();
    assert_eq!(tree.get_val_at(b""), Some(0));
    assert_eq!(tree.get_val_at(b"a"), Some(3));
}

#[test]
fn nodes_without_copies_are_written_as_without_regard_to_sharing() {
    // The nodes of a map have numbers also where each is led to by one path.
    let map = map_of([("ab", 1u64), ("ac", 2), ("bb", 3), ("bd", 4)]);
    let mut z = map.read_zipper();
    z.descend_to(b"a");
    assert!(z.shared_node_id().is_some());
    let plain = ArenaCompactTree::from_zipper(map.read_zipper(), |v: &u64| *v);
    let cached = ArenaCompactTree::from_zipper_cached(map.read_zipper(), |v: &u64| *v);
    assert_eq!(plain.get_data(), cached.get_data());
}

#[test]
fn what_is_below_the_focus_is_merged() {
    let base = map_of([("bow", 1u64), ("cat", 2)]);
    let add = map_of([("xbow", 5u64), ("xbowl", 6), ("y", 7)]);
    let mut z = add.read_zipper();
    z.descend_to(b"x");
    let act = ArenaCompactTree::from_zipper(base.read_zipper(), |v: &u64| *v);
    let merged = act.merge_zipper(z, |v: &u64| *v).unwrap();
    assert_act_content(&merged, &[("bow", 5), ("bowl", 6), ("cat", 2)]);
    assert_eq!(merged.get_val_at(b"y"), None);
    assert_eq!(merged.get_val_at(b"xbow"), None);
}

#[test]
fn nothing_is_merged_from_where_nothing_is() {
    let before = build_act_file(&[("bow", 1), ("cat", 2)]);
    let add = map_of([("xbow", 5u64)]);
    let mut z = add.read_zipper();
    z.descend_to(b"xz");
    let merged = ArenaCompactTree::open(before.clone()).unwrap()
        .merge_zipper(z, |v: &u64| *v).unwrap();
    assert_eq!(merged.get_data(), &before[..]);
}

#[test]
fn nothing_is_merged_into_a_short_file() {
    // The magic is there, but no root can be where the next bytes point.
    let mut short = b"ACTree03".to_vec();
    short.resize(24, 0xff);
    let tree = ArenaCompactTree::open(short).unwrap();
    assert!(!tree.is_sound());
    let add = map_of([("a", 1u64)]);
    assert!(matches!(
        tree.merge_zipper(add.read_zipper(), |v: &u64| *v),
        Err(ActError::InvalidMagic)
    ));
}

#[test]
fn a_broken_trailer_does_not_hinder_reading() {
    let mut data = build_act_file(&[("bow", 1), ("cat", 2)]);
    let whole = ArenaCompactTree::open(data.clone()).unwrap();
    assert!(whole.is_sound() && whole.has_sound_history());
    assert_eq!(whole.root_history().len(), 1);
    // The last word is the root before a merge, and the one before it says where the trailer of that
    // root is: here the same place again, so that the trailers never end.
    let trailer = data.len() as u64;
    data.extend_from_slice(&trailer.to_le_bytes());
    data.extend_from_slice(&17u64.to_le_bytes());
    let tree = ArenaCompactTree::open(data).unwrap();
    assert!(tree.is_sound());
    assert!(!tree.has_sound_history());
    assert_eq!(tree.get_val_at(b"bow"), Some(1));
    assert_eq!(tree.get_val_at(b"cat"), Some(2));
    let merged = tree.merge_zipper(map_of([("dog", 3u64)]).read_zipper(), |v: &u64| *v).unwrap();
    assert_act_content(&merged, &[("bow", 1), ("cat", 2), ("dog", 3)]);
    assert!(!merged.has_sound_history());
}

#[test]
fn no_path_is_longer_than_memory() {
    let act = ArenaCompactTree::from_zipper(numbered().read_zipper(), |v: &u64| *v);
    let mut z = act.read_zipper_u64();
    z.descend_to(b"rom");
    assert!(!z.descend_first_k_path(usize::MAX));
    assert_eq!(z.path(), b"rom");
}

fn streamed(items: &[(&str, u64)]) -> ACTVec {
    let mut out = ACTOutputStream::new();
    for (path, val) in items {
        out.push_val(path.as_bytes(), *val).unwrap();
    }
    out.finish().unwrap()
}

#[test]
fn a_stream_writes_what_the_builder_writes() {
    let items = [("", 9u64), ("arrow", 1), ("arrowhead", 2), ("bow", 3), ("bowl", 4)];
    assert_eq!(streamed(&items).get_data(), &build_act_file(&items)[..]);
    let items = [("arrow", 1u64), ("bow", 3), ("cannon", 7)];
    assert_eq!(streamed(&items).get_data(), &build_act_file(&items)[..]);

    // A root from which one byte leads on has a node of its own in a stream.
    let items = [("arrow", 1u64), ("arrowhead", 2)];
    let tree = streamed(&items);
    assert!(tree.get_data().len() > build_act_file(&items).len());
    assert_act_content(&tree, &items);
}

/// A map in which a fork with two leaves is at `a` and `c`, with `rows` times 256 values between its
/// copies.
fn forks_apart(rows: u16) -> PathMap<u64> {
    let mut leaf = PathMap::new();
    leaf.create_path(b"x");
    leaf.create_path(b"y");
    let mut map = PathMap::new();
    let node = map.adopt(&leaf);
    map.graft(b"a", node);
    map.graft(b"c", node);
    for row in 0..rows {
        for column in 0..=255u8 {
            map.insert(&[b'b', row as u8, column], 1);
        }
    }
    map
}

#[test]
fn a_reference_far_back_can_be_longer_than_a_copy() {
    for (rows, gain) in [(0, 2), (1, 0), (256, -1)] {
        let map = forks_apart(rows);
        let plain = ArenaCompactTree::from_zipper(map.read_zipper(), |v: &u64| *v);
        let cached = ArenaCompactTree::from_zipper_cached(map.read_zipper(), |v: &u64| *v);
        assert_eq!(
            plain.get_data().len() as i64 - cached.get_data().len() as i64,
            gain,
            "{rows}"
        );
        assert_eq!(places(&mut cached.read_zipper_u64()), places(&mut map.read_zipper()));
    }
}

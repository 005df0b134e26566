use pathmap::path_map::hash_scheme::{HashScheme, MixScheme};
use pathmap::utils::{BitMask, ByteMask};
use pathmap::zipper::Zipper;
use pathmap::PathMap;
use std::collections::{BTreeMap, HashMap, HashSet};

fn map_of<P: AsRef<[u8]>, I: IntoIterator<Item = P>>(paths: I) -> PathMap<()> {
    let mut map = PathMap::new();
    for path in paths {
        map.insert(path.as_ref(), ());
    }
    map
}

/// Every bitstring of length 1..=4 over {0,1} ending in `1`, plus the empty path.
fn bit_paths() -> Vec<Vec<u8>> {
    let mut paths: Vec<Vec<u8>> = vec![vec![]];
    for len in 1..=4usize {
        for bits in 0..(1u32 << len) {
            let p: Vec<u8> = (0..len).map(|i| ((bits >> (len - 1 - i)) & 1) as u8).collect();
            if *p.last().unwrap() == 1 {
                paths.push(p);
            }
        }
    }
    paths
}

/// Walks every node reachable from `map`'s root and groups them by an
/// independently computed *structural* key: the sorted list of
/// `(path, value, child's key)` triples that a node carries. Returns, per structural key, every
/// distinct node found with that key.
fn structural_classes<V: Copy + std::fmt::Debug>(map: &PathMap<V>) -> HashMap<String, Vec<usize>> {
    fn structural_key<V: Copy + std::fmt::Debug>(
        map: &PathMap<V>,
        node: usize,
        seen: &mut HashMap<usize, String>,
        classes: &mut HashMap<String, Vec<usize>>,
    ) -> String {
        if let Some(key) = seen.get(&node) {
            return key.clone();
        }
        let mut parts = Vec::new();
        for item in map.items(node) {
            let child = item.child.map(|child| structural_key(map, child, seen, classes));
            parts.push(format!("{:?} {:?} {:?}", item.path, item.val, child));
        }
        parts.sort();
        let key = parts.join(";");
        seen.insert(node, key.clone());
        classes.entry(key.clone()).or_default().push(node);
        key
    }

    let mut seen = HashMap::new();
    let mut classes = HashMap::new();
    structural_key(map, map.root_node(), &mut seen, &mut classes);
    classes
}

/// Asserts that every structural class contains exactly one node. Returns the number of distinct
/// structural classes found (a proxy for "how many distinct node shapes remain").
fn assert_maximal_sharing<V: Copy + std::fmt::Debug>(map: &PathMap<V>) -> usize {
    let classes = structural_classes(map);
    for (key, ids) in &classes {
        assert_eq!(ids.len(), 1, "under-shared structural class {key}");
    }
    classes.len()
}

/// The full observable (path, value) contents of a map, so tests can assert `merkleize` never
/// changes what the trie means, only how it's represented.
fn snapshot<V: Copy>(map: &PathMap<V>) -> BTreeMap<Vec<u8>, Option<V>> {
    fn visit<V: Copy, Z: Zipper<V>>(
        z: &mut Z,
        path: &mut Vec<u8>,
        out: &mut BTreeMap<Vec<u8>, Option<V>>,
    ) {
        out.insert(path.clone(), z.val().copied());
        for byte in z.child_mask().to_vec() {
            z.descend_to_byte(byte);
            path.push(byte);
            visit(z, path, out);
            path.pop();
            z.ascend(1);
        }
    }
    let mut out = BTreeMap::new();
    visit(&mut map.read_zipper(), &mut Vec::new(), &mut out);
    out
}

/// Counts the distinct physical nodes reachable from the map root
fn physical_node_count(map: &PathMap<()>) -> usize {
    fn visit(map: &PathMap<()>, node: usize, seen: &mut HashSet<usize>) {
        if map.items(node).is_empty() || !seen.insert(node) {
            return;
        }
        for item in map.items(node) {
            if let Some(child) = item.child {
                visit(map, child, seen);
            }
        }
    }
    let mut seen = HashSet::new();
    visit(map, map.root_node(), &mut seen);
    seen.len()
}

fn all_paths(map: &PathMap<()>) -> Vec<Vec<u8>> {
    snapshot(map).into_iter().filter_map(|(path, val)| val.map(|_| path)).collect()
}

/// The same four paths, either inserted directly (`abcd`/`abce` become `abc` -> `{d, e}`)
/// or assembled by grafting `{cd, ce}` under `ab` (which leaves `ab` -> `c` -> `{d, e}`)
fn insert_copy(map: &mut PathMap<()>, prefix: &[u8], grafted: bool) {
    let at = |path: &[u8]| [prefix, path].concat();
    if grafted {
        let sub = map_of([b"cd".as_slice(), b"ce"]);
        map.graft_map(&at(b"ab"), &sub);
        for path in [b"m".as_slice(), b"n"] {
            map.insert(&at(path), ());
        }
    } else {
        for path in [b"abcd".as_slice(), b"abce", b"m", b"n"] {
            map.insert(&at(path), ());
        }
    }
}

/// The memo key must not include the value stored in the *parent's* slot for a child, otherwise
/// byte-identical nodes reached through a valued slot and an unvalued slot are never merged.
///
/// The subtrie below byte `0` and the subtrie below byte `1` are identical, except that the path
/// `[1]` carries a value, which lives in the root node's slot, not in the child. So after
/// merkleization there should be exactly one physical node per depth: 4 in total.
#[test]
fn merkleize_parent_slot_value_should_not_split_identical_children() {
    let paths = bit_paths();
    assert_eq!(paths.len(), 16);
    let mut map = map_of(&paths);
    assert_eq!(all_paths(&map).len(), 16);

    map.merkleize();
    let after = physical_node_count(&map);
    assert_eq!(all_paths(&map).len(), 16, "merkleize must not change the logical contents");
    assert_eq!(after, 4, "expected one physical node per depth after merkleize, got {after}");
}

/// Every level has one child ending the path (valued) and one child continuing it (unvalued),
/// reaching an *otherwise identical* subtrie, which collapses to a single chain of 4 shared nodes.
#[test]
fn test_merkleize_dedups_value_vs_no_value_edges() {
    let mut map = map_of(bit_paths());
    let before_ids: usize =
        structural_classes(&map).values().flatten().collect::<HashSet<_>>().len();

    let result = map.merkleize();

    let after_classes = assert_maximal_sharing(&map);
    assert_eq!(after_classes, 4, "expected exactly 4 distinct node shapes after merkleize");
    assert!(
        after_classes < before_ids,
        "merkleize should have reduced the number of distinct node identities"
    );
    assert!(result.reused > 0, "merkleize should have found reusable nodes");
}

/// Two sibling subtries are byte-for-byte identical *except* that one is reached through a valued
/// parent slot and the other through an unvalued (dangling) one. Structurally the two subtries
/// are identical, so they must merge.
#[test]
fn test_merkleize_value_and_dangling_siblings_share() {
    let mut map = PathMap::<()>::new();
    // valued edge into a subtrie: [0] itself carries a value
    map.insert(&[0u8][..], ());
    map.insert(&[0u8, 1, 0][..], ());
    map.insert(&[0u8, 1, 1][..], ());
    // dangling (no value) edge into the identical subtrie: [1] exists but is unvalued
    map.create_path(&[1u8]);
    map.insert(&[1u8, 1, 0][..], ());
    map.insert(&[1u8, 1, 1][..], ());
    let result = map.merkleize();
    assert_maximal_sharing(&map);
    assert!(result.reused > 0);
}

/// Identical subtries reached via *different* values at the parent edge. These must remain distinct
/// (the edge value differs), but the child subtrie beneath each must still be the same shared node.
#[test]
fn test_merkleize_distinguishes_different_edge_values_but_shares_children() {
    let mut map = PathMap::<u8>::new();
    map.insert(&[0u8][..], 1);
    map.insert(&[0u8, 5, 0][..], 9);
    map.insert(&[0u8, 5, 1][..], 9);
    map.insert(&[1u8][..], 2); // different value at this edge
    map.insert(&[1u8, 5, 0][..], 9);
    map.insert(&[1u8, 5, 1][..], 9);
    let before = snapshot(&map);
    let result = map.merkleize();
    assert_maximal_sharing(&map);
    let after = snapshot(&map);
    assert_eq!(before, after, "merkleize must not change observable content");
    assert!(result.reused > 0);
}

/// Deeply nested, asymmetric repetition: a chain of dangling paths of increasing depth, where only
/// some branches are dangling and others carry values, all funnelling into the same terminal shape.
#[test]
fn test_merkleize_nested_mixed_dangling_and_valued() {
    let mut map = PathMap::<()>::new();
    for prefix in [&[0u8][..], &[0u8, 0][..], &[1u8][..], &[1u8, 1][..], &[2u8, 0, 0][..]] {
        // half dangling, half valued at each prefix
        map.create_path(prefix);
    }
    map.insert(&[0u8, 1][..], ());
    map.insert(&[1u8, 0][..], ());
    map.insert(&[2u8, 0, 1][..], ());
    // give every branch the same terminal subtrie shape
    for base in [
        &[0u8, 0][..], &[0u8, 1][..], &[1u8, 0][..], &[1u8, 1][..], &[2u8, 0, 0][..],
        &[2u8, 0, 1][..],
    ] {
        let mut k = base.to_vec();
        k.push(7);
        map.insert(&k[..], ());
        k.pop();
        k.push(8);
        map.insert(&k[..], ());
    }
    let before = snapshot(&map);
    let result = map.merkleize();
    assert_maximal_sharing(&map);
    let after = snapshot(&map);
    assert_eq!(before, after, "merkleize must not change observable content");
    assert!(result.reused > 0);
}

#[test]
fn merkleize_hash_is_the_cata_hash_and_keeps_the_contents() {
    let mut map = PathMap::<()>::new();
    insert_copy(&mut map, b"1", false);
    insert_copy(&mut map, b"2", true);
    map.insert(b"1", ());
    let paths = all_paths(&map);
    let hash = map.hash();

    let result = map.merkleize();

    assert_eq!(result.hash, hash);
    assert_eq!(all_paths(&map), paths);
    assert_eq!(map.hash(), hash);
}

#[test]
fn merkleize_merges_logically_equal_subtries_with_different_layouts() {
    let mut direct = PathMap::<()>::new();
    insert_copy(&mut direct, b"", false);
    let mut split = PathMap::<()>::new();
    insert_copy(&mut split, b"", true);
    assert_eq!(all_paths(&direct), all_paths(&split));
    let (direct_nodes, grafted_nodes) =
        (physical_node_count(&direct), physical_node_count(&split));
    assert_ne!(
        direct_nodes, grafted_nodes,
        "the two copies should differ in layout for this test to mean anything"
    );

    let mut map = PathMap::<()>::new();
    insert_copy(&mut map, b"1", false);
    insert_copy(&mut map, b"2", true);
    let before = physical_node_count(&map);
    assert_eq!(before, 1 + direct_nodes + grafted_nodes);

    let result = map.merkleize();
    let after = physical_node_count(&map);
    // The second copy collapses onto the first, node for node, so only the root is left on top
    // of one copy (whose own internal duplicates are merged as well)
    direct.merkleize();
    assert_eq!(after, 1 + physical_node_count(&direct));
    assert!(result.reused >= 1);
}

#[test]
fn merkleize_is_idempotent_and_leaves_shared_nodes_alone() {
    let mut map = PathMap::<()>::new();
    for prefix in [b"1".as_slice(), b"2", b"3"] {
        insert_copy(&mut map, prefix, prefix == b"2");
    }
    let first = map.merkleize();
    assert!(first.reused > 0);
    let after_first = physical_node_count(&map);

    let second = map.merkleize();
    assert_eq!(second.hash, first.hash);
    assert_eq!((second.reused, second.replaced, second.cloned), (0, 0, 0));
    assert_eq!(physical_node_count(&map), after_first);

    // A trie that already shares its nodes physically is left untouched too
    let mut grafted = PathMap::<()>::new();
    let mut shared = PathMap::<()>::new();
    insert_copy(&mut shared, b"", false);
    let node = grafted.adopt(&shared);
    for prefix in [b"1".as_slice(), b"2", b"3"] {
        grafted.graft(prefix, node);
    }
    let before = physical_node_count(&grafted);
    let result = grafted.merkleize();
    assert_eq!((result.reused, result.replaced, result.cloned), (0, 0, 0));
    assert_eq!(physical_node_count(&grafted), before);
}

#[test]
fn test_btm_merkleize() {
    let paths: &[&[u8]] =
        &[b"axx", b"ayy", b"bxx", b"byy", b"cxx", b"cyy", b"ddxx", b"ddyy"];
    let mut btm = map_of(paths);
    let before = all_paths(&btm);
    let result = btm.merkleize();
    assert_eq!(all_paths(&btm), before);
    assert_eq!(result.hash, btm.hash());
}

fn assert_same_paths_and_report(map: &mut PathMap<()>) -> (usize, usize, usize) {
    let before_paths = all_paths(map);
    let before_nodes = physical_node_count(map);
    let result = map.merkleize();
    let after_nodes = physical_node_count(map);
    assert_eq!(all_paths(map), before_paths, "merkleize must not change contents");
    assert_maximal_sharing(map);
    (before_nodes, after_nodes, result.reused)
}

fn half_by_grafts() -> PathMap<()> {
    let leaf = map_of([[0u8].as_slice(), &[1u8]]);
    let mut mid = PathMap::<()>::new();
    mid.graft_map(&[0u8], &leaf);
    let mut outer = PathMap::<()>::new();
    outer.graft_map(&[0u8], &mid);
    outer
}

/// The topology built by plain insertion, and by grafting so the `1` half gets different
/// node boundaries than the `0` half
#[test]
fn topology_img_0825_legal_layouts() {
    // (a) natural layout from direct insertion
    let mut natural = PathMap::<()>::new();
    for p in [[0u8, 0, 0, 0], [0, 0, 0, 1], [1, 0, 0, 0], [1, 0, 0, 1]] {
        natural.insert(&p[..], ());
    }
    let (before, after, _) = assert_same_paths_and_report(&mut natural);
    assert!(after <= before);

    // (b) `0` half by insertion, `1` half by grafting
    let mut map = PathMap::<()>::new();
    map.insert(&[0u8, 0, 0, 0][..], ());
    map.insert(&[0u8, 0, 0, 1][..], ());
    map.graft_map(&[1u8], &half_by_grafts());
    let (_, _, reused) = assert_same_paths_and_report(&mut map);
    assert!(
        reused >= 1,
        "the {{000, 001}} subtrie under `1` should collapse onto the one under `0`"
    );

    // (c) the reverse: `1` half by insertion, `0` half by grafting
    let mut map = PathMap::<()>::new();
    map.insert(&[1u8, 0, 0, 0][..], ());
    map.insert(&[1u8, 0, 0, 1][..], ());
    map.graft_map(&[0u8], &half_by_grafts());
    let (_, _, reused) = assert_same_paths_and_report(&mut map);
    assert!(reused >= 1);
}

#[test]
fn the_hash_tells_values_and_paths_apart() {
    let hashes: HashSet<u128> = [
        map_of::<&[u8], _>([]).hash(),
        map_of([b"".as_slice()]).hash(),
        map_of([b"a".as_slice()]).hash(),
        map_of([b"b".as_slice()]).hash(),
        map_of([b"a".as_slice(), b"b"]).hash(),
        map_of([b"ab".as_slice()]).hash(),
    ]
    .into_iter()
    .collect();
    assert_eq!(hashes.len(), 6);
    let mut one = PathMap::<u64>::new();
    one.insert(b"a", 1);
    let mut two = PathMap::<u64>::new();
    two.insert(b"a", 2);
    assert_ne!(one.hash(), two.hash());
    assert_eq!(one.hash(), one.hash_with(&MixScheme));
}

#[test]
fn a_scheme_mixes_masks_and_children() {
    let scheme = MixScheme;
    let a = HashScheme::<()>::begin(&scheme, &ByteMask::from(1));
    let b = HashScheme::<()>::begin(&scheme, &ByteMask::from(2));
    assert_ne!(a, b);
    assert!(ByteMask::from(1).test_bit(1));
    let c = HashScheme::<()>::child(&scheme, a, 5);
    assert_ne!(c, HashScheme::<()>::child(&scheme, a, 6));
    assert_ne!(
        HashScheme::<()>::with_value(&scheme, 1, HashScheme::<()>::finish(&scheme, c)),
        HashScheme::<()>::finish(&scheme, c),
    );
}

#[test]
fn the_copies_of_a_node_are_counted() {
    // Two equal forks, and nothing else to merge: one of them is re-used, and the root copied.
    let mut map = map_of([b"ac", b"ad", b"bc", b"bd"]);
    let before = physical_node_count(&map);
    let r = map.merkleize();
    assert_eq!((r.reused, r.cloned, r.replaced), (1, 1, 1));
    assert_eq!(physical_node_count(&map), before - 1);
    let again = map.merkleize();
    assert_eq!(again.hash, r.hash);
    assert_eq!((again.reused, again.cloned, again.replaced), (0, 0, 0));
}

#[test]
fn grafted_places_are_shared() {
    let child = map_of([b"c", b"d"]);
    let mut map = map_of([b"zz"]);
    let node = map.adopt(&child);
    map.graft(b"a", node);
    map.graft(b"xy", node);
    let id = |path: &[u8]| {
        let mut z = map.read_zipper();
        z.descend_to(path);
        z.shared_node_id()
    };
    assert_eq!(id(b"a"), Some(node as u64));
    assert_eq!(id(b"xy"), Some(node as u64));
    assert_eq!(id(b"x"), None);

    // A place with a value is not shared.
    let mut valued = map_of([b"a"]);
    valued.graft_map(b"a", &child);
    let mut z = valued.read_zipper();
    z.descend_to(b"a");
    assert_eq!(z.shared_node_id(), None);
    valued.graft_map(b"b", &child);
    let mut z = valued.read_zipper();
    z.descend_to(b"b");
    assert!(z.shared_node_id().is_some());
}

#[test]
fn the_references_that_are_replaced_are_counted() {
    // Three equal forks below the root: two of its references lead to the first afterwards.
    let mut map = map_of([b"ac", b"ad", b"bc", b"bd", b"ec", b"ed"]);
    let r = map.merkleize();
    assert_eq!((r.reused, r.cloned, r.replaced), (2, 1, 2));

    // Below `x` and `y` two equal forks each. The node of `x` is copied for its second fork, that of
    // `y` for both before it turns out to be known, and the root for both.
    let mut map = map_of([b"xac", b"xad", b"xbc", b"xbd", b"yac", b"yad", b"ybc", b"ybd"]);
    let r = map.merkleize();
    assert_eq!((r.reused, r.cloned, r.replaced), (4, 3, 5));
}

use pathmap::arena_compact::ArenaCompactTree;
use pathmap::morphisms::CatamorphismDebug;
use pathmap::utils::{BitMask, ByteMask};
use pathmap::PathMap;
use std::cell::{Cell, RefCell};
use std::convert::Infallible;

fn map_of(paths: &[&[u8]]) -> PathMap<()> {
    let mut map = PathMap::new();
    for path in paths {
        map.insert(path, ());
    }
    map
}

#[test]
fn debug_cached_cata_uses_the_zipper_focus_and_absolute_paths() {
    let map = map_of(&[b"a", b"ab", b"ac", b"z"]);
    let mut zipper = map.read_zipper();
    zipper.descend_to(b"a");
    let paths = RefCell::new(Vec::new());

    let count = zipper
        .factored_cata_jumping_debug::<usize, usize, Infallible, _, _, _, _, _>(
            |_: &ByteMask| Ok(0),
            |_mask: &ByteMask, child, total| Ok(total + child),
            |_value: &(), _prefix: &[u8], path: &[u8]| {
                paths.borrow_mut().push(path.to_vec());
                Ok(1)
            },
            |_mask: &ByteMask, total: Option<usize>, _prefix: &[u8], path: &[u8]| {
                paths.borrow_mut().push(path.to_vec());
                Ok(total.unwrap_or(0))
            },
            |_value: &(), below, path: &[u8]| {
                paths.borrow_mut().push(path.to_vec());
                Ok(1 + below)
            },
        )
        .unwrap();

    assert_eq!(count, 3);
    assert!(paths.borrow().iter().all(|path| path.starts_with(b"a")));
    assert!(paths.borrow().contains(&b"a".to_vec()));
    assert_eq!(zipper.path(), b"a");
}

#[test]
fn debug_cached_cata_does_not_ascend_past_a_unary_focus() {
    let map = map_of(&[b"abc", b"z"]);
    let mut zipper = map.read_zipper();
    zipper.descend_to(b"a");
    let paths = RefCell::new(Vec::new());

    let count = zipper
        .factored_cata_jumping_debug::<usize, usize, Infallible, _, _, _, _, _>(
            |_: &ByteMask| Ok(0),
            |_mask: &ByteMask, child, total| Ok(total + child),
            |_value: &(), _prefix: &[u8], path: &[u8]| {
                paths.borrow_mut().push(path.to_vec());
                Ok(1)
            },
            |_mask: &ByteMask, total: Option<usize>, _prefix: &[u8], path: &[u8]| {
                paths.borrow_mut().push(path.to_vec());
                Ok(total.unwrap_or(0))
            },
            |_value: &(), below, path: &[u8]| {
                paths.borrow_mut().push(path.to_vec());
                Ok(1 + below)
            },
        )
        .unwrap();

    assert_eq!(count, 1);
    assert!(paths.borrow().iter().all(|path| path.starts_with(b"a")));
    assert_eq!(zipper.path(), b"a");
}

fn count_values(map: &PathMap<()>) -> (usize, usize) {
    let calls = Cell::new(0usize);
    let count = map
        .factored_cata_jumping_debug::<usize, usize, Infallible, _, _, _, _, _>(
            |_: &ByteMask| Ok(0),
            |_mask: &ByteMask, child, total| Ok(total + child),
            |_value: &(), _prefix: &[u8], _path: &[u8]| {
                calls.set(calls.get() + 1);
                Ok(1)
            },
            |_mask: &ByteMask, total: Option<usize>, _prefix: &[u8], _path: &[u8]| {
                calls.set(calls.get() + 1);
                Ok(total.unwrap_or(0))
            },
            |_value: &(), below, _path: &[u8]| Ok(1 + below),
        )
        .unwrap();
    (count, calls.get())
}

#[test]
fn debug_cached_cata_short_circuits_shared_subtries() {
    let child = map_of(&[b"c", b"d"]);
    let mut map = PathMap::new();
    let node = map.adopt(&child);
    for path in [b"a".as_slice(), b"b".as_slice()] {
        map.graft(path, node);
    }

    // Two leaves and a branch, once for both paths to them, and the branch at the root.
    let (debug, debug_calls) = count_values(&map);
    assert_eq!(debug, 4);
    assert_eq!(debug_calls, 4);

    // The same trie without sharing has the same result.
    let (plain, plain_calls) = count_values(&map_of(&[b"ac", b"ad", b"bc", b"bd"]));
    assert_eq!(plain, debug);
    assert_eq!(plain_calls, 7);
}

#[test]
fn folds_stop_at_the_first_error() {
    let map = map_of(&[b"a", b"b", b"c"]);
    let seen = RefCell::new(Vec::new());
    let r = map.factored_cata_jumping_debug::<usize, usize, Vec<u8>, _, _, _, _, _>(
        |_: &ByteMask| Ok(0),
        |_mask: &ByteMask, child, total| Ok(total + child),
        |_value: &(), _prefix: &[u8], path: &[u8]| {
            seen.borrow_mut().push(path.to_vec());
            if path == b"b" {
                Err(path.to_vec())
            } else {
                Ok(1)
            }
        },
        |_mask: &ByteMask, total: Option<usize>, _prefix: &[u8], _path: &[u8]| {
            Ok(total.unwrap_or(0))
        },
        |_value: &(), below, _path: &[u8]| Ok(1 + below),
    );
    assert_eq!(r, Err(b"b".to_vec()));
    assert_eq!(seen.into_inner(), vec![b"a".to_vec(), b"b".to_vec()]);
}

#[test]
fn folds_over_a_compact_trie_jump_over_lines() {
    let mut map = PathMap::new();
    map.insert(b"roman", 3u64);
    map.insert(b"romanus", 8);
    map.insert(b"bow", 2);
    map.create_path(b"zz");
    let tree = ArenaCompactTree::from_zipper(map.read_zipper(), |v: &u64| *v);
    let z = tree.read_zipper_u64();
    let text = z
        .factored_cata_jumping_debug::<String, String, Infallible, _, _, _, _, _>(
            |mask: &ByteMask| Ok(format!("{}", mask.count_bits())),
            |_mask: &ByteMask, child: String, acc: String| Ok(format!("{acc}[{child}]")),
            |v: &u64, p: &[u8], _q: &[u8]| Ok(format!("{v}@{}", String::from_utf8_lossy(p))),
            |_m: &ByteMask, acc: Option<String>, p: &[u8], _q: &[u8]| {
                Ok(format!("{}@{}", acc.unwrap_or_default(), String::from_utf8_lossy(p)))
            },
            |v: &u64, below: String, q: &[u8]| {
                Ok(format!("{v}/{}({below})", String::from_utf8_lossy(q)))
            },
        )
        .unwrap();
    assert_eq!(text, "3[2@ow][3/roman(1[8@s]@oman)][@z]@");
    let mut off = tree.read_zipper_u64();
    off.descend_to(b"q");
    let none = off
        .factored_cata_jumping_debug::<usize, usize, Infallible, _, _, _, _, _>(
            |_: &ByteMask| Ok(0),
            |_: &ByteMask, child, total| Ok(total + child),
            |_: &u64, _: &[u8], _: &[u8]| Ok(1),
            |m: &ByteMask, total: Option<usize>, _: &[u8], _: &[u8]| {
                assert!(total.is_none() && m.is_empty_mask());
                Ok(0)
            },
            |_: &u64, below, _: &[u8]| Ok(1 + below),
        )
        .unwrap();
    assert_eq!(none, 0);
}

#[test]
fn every_place_is_told_its_own_path() {
    // All leaves are equal, and none is shared: each is told the path that leads to it.
    let paths: &[&[u8]] = &[b"aa", b"ab", b"ba", b"bb", b"cx"];
    let map = map_of(paths);
    let leaves = RefCell::new(Vec::new());
    let forks = RefCell::new(Vec::new());
    map.factored_cata_jumping_debug::<(), (), Infallible, _, _, _, _, _>(
        |_: &ByteMask| Ok(()),
        |_mask: &ByteMask, _child, _total| Ok(()),
        |_value: &(), _prefix: &[u8], path: &[u8]| {
            leaves.borrow_mut().push(path.to_vec());
            Ok(())
        },
        |_mask: &ByteMask, _total: Option<()>, _prefix: &[u8], path: &[u8]| {
            forks.borrow_mut().push(path.to_vec());
            Ok(())
        },
        |_value: &(), _below, _path: &[u8]| Ok(()),
    )
    .unwrap();
    assert_eq!(leaves.into_inner(), paths.iter().map(|p| p.to_vec()).collect::<Vec<_>>());
    assert_eq!(forks.into_inner(), vec![b"a".to_vec(), b"b".to_vec(), b"".to_vec()]);
}

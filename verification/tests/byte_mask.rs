use pathmap::ring::{AlgebraicResult, DistributiveLattice, Lattice, COUNTER_IDENT, SELF_IDENT};
use pathmap::utils::{empty_mask, BitMask, ByteMask, IntoByteMaskIter};
use std::ops::{Bound, RangeInclusive};

fn ranges(mask: ByteMask) -> Vec<RangeInclusive<u8>> {
    let mut iter = mask.range_iter();
    let mut out = Vec::new();
    while let Some(range) = iter.next() {
        out.push(range);
    }
    out
}

#[test]
fn bit_utils_test() {
    let mut mask = ByteMask::new();
    assert_eq!(mask.count_bits(), 0);
    assert_eq!(mask.is_empty_mask(), true);

    mask.set_bit(b'C');
    mask.set_bit(b'a');
    mask.set_bit(b't');
    assert_eq!(mask.is_empty_mask(), false);
    assert_eq!(mask.count_bits(), 3);

    mask.set_bit(b'C');
    mask.set_bit(b'a');
    mask.set_bit(b'n');
    assert_eq!(mask.count_bits(), 4);

    mask.clear_bit(b't');
    assert_eq!(mask.test_bit(b'n'), true);
    assert_eq!(mask.test_bit(b't'), false);
}

fn check_neighbours(test_mask: ByteMask) {
    let set_bits: Vec<u8> = (0..=255).filter(|i| test_mask.test_bit(*i)).collect();

    let mut i = 0;
    let mut cnt = test_mask.test_bit(0) as usize;
    while let Some(next_bit) = test_mask.next_bit(i) {
        assert!(test_mask.test_bit(next_bit));
        i = next_bit;
        cnt += 1;
    }
    assert_eq!(cnt, set_bits.len());

    let mut i = 255;
    let mut cnt = test_mask.test_bit(255) as usize;
    while let Some(prev_bit) = test_mask.prev_bit(i) {
        assert!(test_mask.test_bit(prev_bit));
        i = prev_bit;
        cnt += 1;
    }
    assert_eq!(cnt, set_bits.len());
}

#[test]
fn next_bit_test() {
    check_neighbours(ByteMask::from([
        0b1010010010010010010010000000000000000000000000000000000000010101u64,
        0b0000000000000000000000000000000000000000100000000000000000000000u64,
        0b0000000000000000000000000000000000000000000000000000000000000000u64,
        0b1001000000000000000000000000000000000000000000000000000000000001u64,
    ]));
    check_neighbours(ByteMask::from([
        0b0000000000000000000000000000000000000000000000000000000000000000u64,
        0b0000000000000000000000000000000000000000100000000000000000000000u64,
        0b0000000000000000000000000000000000000000000000000000000000000000u64,
        0b1001000000000000000000000000000000000000000000000000000000000001u64,
    ]));
    check_neighbours(ByteMask::full());
}

#[test]
fn next_bit_test2() {
    let mut test_mask = ByteMask::new();
    test_mask.set_bit(39);
    test_mask.set_bit(97);
    test_mask.set_bit(117);

    assert_eq!(Some(39), test_mask.next_bit(0));
    assert_eq!(Some(97), test_mask.next_bit(39));
    assert_eq!(Some(117), test_mask.next_bit(97));
    assert_eq!(None, test_mask.next_bit(117));
}

#[test]
fn bit_siblings_test() {
    let x = 0b0000000000000000000000000000000000000100001001100000000000000010u64;
    let i = 0b0000000000000000000000000000000000000000000001000000000000000000u64;
    let p = 0b0000000000000000000000000000000000000000001000000000000000000000u64;
    let n = 0b0000000000000000000000000000000000000000000000100000000000000000u64;
    let f = 0b0000000000000000000000000000000000000100000000000000000000000000u64;
    let l = 0b0000000000000000000000000000000000000000000000000000000000000010u64;
    let mask = ByteMask::from([x, 0, 0, 0]);
    let bit_i = i.trailing_zeros() as u8;
    assert_eq!(i, 1u64 << bit_i);
    assert_ne!(i & x, 0);

    // Existing-child lookup within one mask word, including both ends.
    assert_eq!(mask.prev_bit(bit_i), Some(n.trailing_zeros() as u8));
    assert_eq!(mask.next_bit(bit_i), Some(p.trailing_zeros() as u8));
    assert_eq!(mask.prev_bit(l.trailing_zeros() as u8), None);
    assert_eq!(mask.next_bit(f.trailing_zeros() as u8), None);

    // Missing-focus lookup and sibling lookup across every mask-word boundary.
    let mut mask = ByteMask::new();
    for byte in [10, 20, 70, 130, 200] {
        mask.set_bit(byte);
    }
    assert_eq!(mask.prev_bit(64), Some(20));
    assert_eq!(mask.next_bit(63), Some(70));
    assert_eq!(mask.prev_bit(130), Some(70));
    assert_eq!(mask.next_bit(70), Some(130));
    assert_eq!(mask.prev_bit(200), Some(130));
    assert_eq!(mask.next_bit(130), Some(200));
}

#[test]
fn from_range_test() {
    assert_eq!(ByteMask::from_range(10..70), ByteMask::from([
        0b1111111111111111111111111111111111111111111111111111110000000000u64,
        0b0000000000000000000000000000000000000000000000000000000000111111u64,
        0b0000000000000000000000000000000000000000000000000000000000000000u64,
        0b0000000000000000000000000000000000000000000000000000000000000000u64,
    ]));
    assert_eq!(ByteMask::from_range(..), ByteMask::full());
    assert_eq!(ByteMask::from_range(..=127), ByteMask::from([
        0b1111111111111111111111111111111111111111111111111111111111111111u64,
        0b1111111111111111111111111111111111111111111111111111111111111111u64,
        0b0000000000000000000000000000000000000000000000000000000000000000u64,
        0b0000000000000000000000000000000000000000000000000000000000000000u64,
    ]));
    assert_eq!(ByteMask::from_range(10..), ByteMask::from([
        0b1111111111111111111111111111111111111111111111111111110000000000u64,
        0b1111111111111111111111111111111111111111111111111111111111111111u64,
        0b1111111111111111111111111111111111111111111111111111111111111111u64,
        0b1111111111111111111111111111111111111111111111111111111111111111u64,
    ]));
    assert_eq!(ByteMask::from_range(0..0), ByteMask::new());
    assert_eq!(ByteMask::from_range(0..=0), ByteMask::from(0));
    assert_eq!(ByteMask::from_range(255..255), ByteMask::new());
    assert_eq!(ByteMask::from_range(255..=255), ByteMask::from(255));
}

#[test]
fn range_iter_test() {
    fn next_once(mask: ByteMask) -> Option<RangeInclusive<u8>> {
        let mut iter = mask.range_iter();
        iter.next()
    }

    // Returns from the short in-word path.
    assert_eq!(next_once(ByteMask::from(10..12)), Some(10..=11));

    // Returns at a word boundary when the next word starts with zero.
    assert_eq!(next_once(ByteMask::from(62..=63)), Some(62..=63));

    // Returns from the next-word prefix path.
    assert_eq!(next_once(ByteMask::from(62..=66)), Some(62..=66));

    // Returns from the full-word continuation path after spanning a whole intermediate word.
    assert_eq!(next_once(ByteMask::from(62..=130)), Some(62..=130));

    // Returns from the end-of-mask path.
    assert_eq!(next_once(ByteMask::from(250..=255)), Some(250..=255));

    // Iterates multiple disjoint ranges in ascending order.
    let mask = ByteMask::from(0..=3)
        | ByteMask::from(10..12)
        | ByteMask::from(64..=64)
        | ByteMask::from(126..=130)
        | ByteMask::from(255..=255);
    assert_eq!(ranges(mask), vec![0..=3, 10..=11, 64..=64, 126..=130, 255..=255]);

    // Span multiple words
    let mask = ByteMask::from(2..=4) | ByteMask::from(30..220);
    assert_eq!(ranges(mask), vec![2..=4, 30..=219]);

    // Empty mask
    let mut iter = ByteMask::new().range_iter();
    assert_eq!(iter.next(), None);

    // Full mask
    let mut iter = ByteMask::full().range_iter();
    assert_eq!(iter.next(), Some(0..=255));
}

#[test]
fn byte_mask_construction_and_formatting() {
    assert_eq!(ByteMask::new(), ByteMask::default());
    assert_eq!(ByteMask::new(), empty_mask());
    assert_eq!(ByteMask::from(42), ByteMask::from_range(42..=42));
    assert_eq!(ByteMask::from(10..12), ByteMask::from_range(10..12));
    assert_eq!(ByteMask::from(10..=11), ByteMask::from_range(10..=11));
    assert_eq!(ByteMask::from([1, 2, 3, 4]).into_inner(), [1, 2, 3, 4]);
    assert_eq!(<[u64; 4]>::from(ByteMask::from([1, 2, 3, 4])), [1, 2, 3, 4]);

    let mask: ByteMask = ByteMask::from_iter(&[0, 64, 255]);
    assert_eq!(mask, [1, 1, 0, 1u64 << 63]);
    assert_eq!(mask.as_ref(), &[1, 1, 0, 1u64 << 63]);
    assert_eq!(mask.to_text(), "{0, 64, 255}");
    assert_eq!(mask.fmt_binary().to_debug_text().len(), 256);
    assert_eq!(mask.fmt_binary().to_text().len(), 287);

    let subset = ByteMask::subset(0b1010_0110);
    for byte in 0..=255 {
        assert_eq!(subset.test_bit(byte), byte & 0b1010_0110 == byte);
    }
}

#[test]
fn binary_text_has_a_digit_for_each_byte() {
    let text = ByteMask::from_iter(&[0, 9]).fmt_binary().to_text();
    let digits: Vec<&str> = text.split(|c: char| c != '0' && c != '1').collect();
    assert_eq!(digits.len(), 32);
    assert!(digits.iter().all(|group| group.len() == 8));
    assert_eq!(text.chars().filter(|c| *c == '1').count(), 2);
    let plain = ByteMask::from_iter(&[0, 9]).fmt_binary().to_debug_text();
    assert_eq!(digits.concat(), plain);
}

#[test]
fn byte_mask_bitwise_operations_and_assignments() {
    let left = ByteMask::from_iter(&[0, 64, 128, 192]);
    let right = ByteMask::from_iter(&[64, 65, 192, 255]);

    assert_eq!(left.or(&right), ByteMask::from_iter(&[0, 64, 65, 128, 192, 255]));
    assert_eq!(left.and(&right), ByteMask::from_iter(&[64, 192]));
    assert_eq!(left.xor(&right), ByteMask::from_iter(&[0, 65, 128, 255]));
    assert_eq!(left.andn(&right), ByteMask::from_iter(&[0, 128]));
    assert_eq!(left.not().and(&left), ByteMask::new());
    assert_eq!(left | right, left.or(&right));
    assert_eq!(&left | &right, left.or(&right));
    assert_eq!(&left & &right, left.and(&right));

    let mut assigned = left;
    assigned |= right;
    assert_eq!(assigned, left.or(&right));
    assigned &= right;
    assert_eq!(assigned, right);
    assigned.toggle_bit(65);
    assert!(!assigned.test_bit(65));
    assigned.toggle_bit(65);
    assert!(assigned.test_bit(65));
    assigned.make_empty();
    assert_eq!(assigned, ByteMask::new());
}

#[test]
fn byte_mask_iteration_and_indexing() {
    let mask = ByteMask::from_iter(&[0, 2, 63, 64, 130, 255]);
    assert_eq!(mask.iter().collect(), vec![0, 2, 63, 64, 130, 255]);
    let mut other_iter = mask.byte_mask_iter();
    assert_eq!(other_iter.collect(), vec![0, 2, 63, 64, 130, 255]);
    assert_eq!(mask.index_of(0), 0);
    assert_eq!(mask.index_of(64), 3);
    assert_eq!(mask.index_of(255), 5);
    assert_eq!(mask.indexed_bit::<true>(0), Some(0));
    assert_eq!(mask.indexed_bit::<true>(5), Some(255));
    assert_eq!(mask.indexed_bit::<true>(6), None);
    assert_eq!(mask.indexed_bit::<false>(0), Some(255));
    assert_eq!(mask.indexed_bit::<false>(5), Some(0));
    assert_eq!(mask.indexed_bit::<false>(6), None);
}

#[test]
fn byte_mask_lattice_operations() {
    let left = ByteMask::from_iter(&[1, 2]);
    let right = ByteMask::from_iter(&[2, 3]);
    assert_eq!(left.pjoin(&right), AlgebraicResult::Element(ByteMask::from_iter(&[1, 2, 3])));
    assert_eq!(left.pmeet(&right), AlgebraicResult::Element(ByteMask::from(2)));
    assert_eq!(left.psubtract(&right), AlgebraicResult::Element(ByteMask::from(1)));
    assert_eq!(left.psubtract(&left), AlgebraicResult::Nothing);
}

#[test]
fn lattice_results_tell_which_operand_is_the_result() {
    let small = ByteMask::from_iter(&[1]);
    let large = ByteMask::from_iter(&[1, 2]);
    assert_eq!(small.pjoin(&large), AlgebraicResult::Identity(COUNTER_IDENT));
    assert_eq!(large.pjoin(&small), AlgebraicResult::Identity(SELF_IDENT));
    assert_eq!(small.pmeet(&large), AlgebraicResult::Identity(SELF_IDENT));
    assert_eq!(large.pmeet(&small), AlgebraicResult::Identity(COUNTER_IDENT));
    assert_eq!(large.psubtract(&ByteMask::from(9)), AlgebraicResult::Identity(SELF_IDENT));
    assert_eq!(
        small.pmeet(&ByteMask::from(9)),
        AlgebraicResult::Nothing,
    );
    assert_eq!(
        large.pjoin(&large),
        AlgebraicResult::Identity(SELF_IDENT | COUNTER_IDENT),
    );
}

#[test]
fn byte_mask_inclusive_range_test() {
    fn test_single_range(b: &mut ByteMask, start: u8, end: u8) {
        b.clear_inclusive_bit_range(0..=u8::MAX);
        b.set_inclusive_bit_range(start..=end);
        let mut i = 0;
        for (mask_b, range_b) in b.to_vec().into_iter().zip(start..=end) {
            assert_eq!(mask_b, range_b);
            i += 1;
        }
        assert_eq!(i, end as usize - start as usize + 1);
        b.clear_inclusive_bit_range(start..=end);
        assert!(b.iter().next().is_none());
    }
    let mut b = ByteMask::from([0; 4]);
    test_single_range(&mut b, b'a', b'z');
    test_single_range(&mut b, b'A', b'Z');
    test_single_range(&mut b, b'0', b'9');
    test_single_range(&mut b, 0, 255);

    b.clear_inclusive_bit_range(0..=255);

    b.set_inclusive_bit_range(0..=99);
    b.set_inclusive_bit_range(201..=255);
    b.toggle_inclusive_bit_range(0..=200);

    for (mask_byte, range_byte) in b.to_vec().into_iter().zip(100..=255) {
        assert_eq!(mask_byte, range_byte);
    }
    assert_eq!(b.count_bits(), 156);
}

#[test]
fn ranks_and_indices_are_inverse() {
    let mask = ByteMask::from_iter(&[5, 63, 64, 127, 128, 191, 192]);
    for (i, byte) in mask.to_vec().into_iter().enumerate() {
        assert_eq!(mask.index_of(byte) as usize, i);
        assert_eq!(mask.indexed_bit::<true>(i), Some(byte));
        assert_eq!(mask.indexed_bit::<false>(mask.count_bits() - 1 - i), Some(byte));
    }
}

#[test]
fn ranges_that_were_used_up_and_pairs_of_bounds() {
    let mut used = 7..=9u8;
    assert_eq!(used.next(), Some(7));
    assert_eq!(ByteMask::from_range(used.clone()).to_vec(), vec![8, 9]);
    used.by_ref().for_each(drop);
    assert_eq!(ByteMask::from_range(used.clone()), ByteMask::new());
    assert_eq!(ByteMask::from(used), ByteMask::new());
    assert_eq!(ByteMask::from_range(9..=7u8), ByteMask::new());

    let mask = ByteMask::from_range((Bound::Excluded(3u8), Bound::Included(6u8)));
    assert_eq!(mask.to_vec(), vec![4, 5, 6]);
    let mask = ByteMask::from_range((Bound::Included(3u8), Bound::Excluded(5u8)));
    assert_eq!(mask.to_vec(), vec![3, 4]);
    let all: (Bound<u8>, Bound<u8>) = (Bound::Unbounded, Bound::Unbounded);
    assert_eq!(ByteMask::from_range(all), ByteMask::full());
    let none = (Bound::Excluded(255u8), Bound::Unbounded);
    assert_eq!(ByteMask::from_range(none), ByteMask::new());
}

use iejoin::order::compare;
use iejoin::predicate::{CmpOp, JoinPredicate, SortOrder};
use iejoin::rows::{row_comes_before, Side};
use iejoin::scanner::{L1BitVec, MAX_BITS};
use iejoin::sorting::sort_rows;
use iejoin::union::{L1Union, L2Union};

#[test]
fn sort_order_of_each_operator() {
    assert_eq!(CmpOp::Gt.sort_order(), SortOrder::Desc);
    assert_eq!(CmpOp::LtEq.sort_order(), SortOrder::Desc);
    assert_eq!(CmpOp::Lt.sort_order(), SortOrder::Asc);
    assert_eq!(CmpOp::GtEq.sort_order(), SortOrder::Asc);
}

#[test]
fn side_is_right() {
    assert!(Side::Right.is_right());
    assert!(!Side::Left.is_right());
}

#[test]
fn predicate_keeps_its_parts() {
    let p: JoinPredicate<i32> = JoinPredicate::new(CmpOp::GtEq, vec![1, 2], vec![3]);
    assert_eq!(p.op, CmpOp::GtEq);
    assert_eq!(p.left, vec![1, 2]);
    assert_eq!(p.right, vec![3]);
}

#[test]
fn compare_tells_less_equal_and_greater() {
    assert_eq!(compare(&1i32, &2i32), (true, false));
    assert_eq!(compare(&2i32, &2i32), (false, true));
    assert_eq!(compare(&3i32, &2i32), (false, false));
    assert_eq!(compare(&"a", &"b"), (true, false));
}

#[test]
fn rows_compare_by_key_then_side_then_position() {
    let left: Vec<i32> = vec![5, 7, 5];
    let right: Vec<i32> = vec![5, 9];
    // By key.
    assert!(row_comes_before(&left, &right, SortOrder::Asc, 0, 1));
    assert!(!row_comes_before(&left, &right, SortOrder::Asc, 1, 0));
    assert!(row_comes_before(&left, &right, SortOrder::Desc, 1, 0));
    assert!(row_comes_before(&left, &right, SortOrder::Desc, 4, 1));
    // Equal keys: the right row first, in either direction.
    assert!(row_comes_before(&left, &right, SortOrder::Asc, 3, 0));
    assert!(!row_comes_before(&left, &right, SortOrder::Asc, 0, 3));
    assert!(row_comes_before(&left, &right, SortOrder::Desc, 3, 2));
    assert!(!row_comes_before(&left, &right, SortOrder::Desc, 2, 3));
    // Equal keys on one side: by position.
    assert!(row_comes_before(&left, &right, SortOrder::Asc, 0, 2));
    assert!(!row_comes_before(&left, &right, SortOrder::Desc, 2, 0));
    // No row before itself.
    assert!(!row_comes_before(&left, &right, SortOrder::Asc, 2, 2));
}

#[test]
fn sort_rows_in_both_directions() {
    let left: Vec<i32> = vec![5, 3, 9];
    let right: Vec<i32> = vec![4, 9, 1];
    assert_eq!(sort_rows(&left, &right, SortOrder::Asc), vec![5, 1, 3, 0, 4, 2]);
    assert_eq!(sort_rows(&left, &right, SortOrder::Desc), vec![4, 2, 0, 3, 1, 5]);
}

#[test]
fn sort_rows_of_nothing_and_of_one() {
    let none: Vec<u8> = Vec::new();
    let one: Vec<u8> = vec![7];
    assert_eq!(sort_rows(&none, &none, SortOrder::Asc), Vec::<usize>::new());
    assert_eq!(sort_rows(&one, &none, SortOrder::Desc), vec![0]);
    assert_eq!(sort_rows(&none, &one, SortOrder::Asc), vec![0]);
}

#[test]
fn sort_rows_is_a_permutation_in_order() {
    let left: Vec<u32> = vec![8, 1, 8, 3, 3, 0, 7, 7, 7, 2, 9, 4, 4];
    let right: Vec<u32> = vec![3, 8, 8, 1, 0, 5, 7, 2, 2, 6, 9];
    let n: usize = left.len() + right.len();
    let key = |c: usize| if c < left.len() { left[c] } else { right[c - left.len()] };
    let sorted: Vec<usize> = sort_rows(&left, &right, SortOrder::Asc);
    assert_eq!(sorted.len(), n);
    let mut seen: Vec<bool> = vec![false; n];
    for &c in sorted.iter() {
        assert!(!seen[c]);
        seen[c] = true;
    }
    for w in sorted.windows(2) {
        assert!(key(w[0]) <= key(w[1]));
        assert!(row_comes_before(&left, &right, SortOrder::Asc, w[0], w[1]));
    }
}

#[test]
fn primary_union_ascending() {
    let (perms, l1): (Vec<usize>, L1Union<i32>) =
        L1Union::union_and_sort(vec![3, 1], vec![2], SortOrder::Asc);
    assert_eq!(perms, vec![1, 2, 0]);
    assert_eq!(l1.values, vec![(1, Side::Left, 1), (2, Side::Right, 0), (3, Side::Left, 0)]);
}

#[test]
fn primary_union_descending() {
    let (perms, l1): (Vec<usize>, L1Union<i32>) =
        L1Union::union_and_sort(vec![3, 1], vec![2], SortOrder::Desc);
    assert_eq!(perms, vec![0, 2, 1]);
    assert_eq!(l1.values, vec![(3, Side::Left, 0), (2, Side::Right, 0), (1, Side::Left, 1)]);
}

#[test]
fn primary_union_puts_right_rows_first_among_equals() {
    let expected: Vec<(i32, Side, usize)> =
        vec![(2, Side::Right, 0), (2, Side::Right, 1), (2, Side::Left, 0), (2, Side::Left, 1)];
    let (perms, l1): (Vec<usize>, L1Union<i32>) =
        L1Union::union_and_sort(vec![2, 2], vec![2, 2], SortOrder::Asc);
    assert_eq!(perms, vec![2, 3, 0, 1]);
    assert_eq!(l1.values, expected);
    let (perms, l1): (Vec<usize>, L1Union<i32>) =
        L1Union::union_and_sort(vec![2, 2], vec![2, 2], SortOrder::Desc);
    assert_eq!(perms, vec![2, 3, 0, 1]);
    assert_eq!(l1.values, expected);
}

#[test]
fn primary_union_of_nothing() {
    let (perms, l1): (Vec<usize>, L1Union<i32>) =
        L1Union::union_and_sort(Vec::new(), Vec::new(), SortOrder::Asc);
    assert!(perms.is_empty());
    assert!(l1.values.is_empty());
}

#[test]
fn secondary_union_carries_primary_ranks() {
    let a: Vec<i32> = vec![100, 140, 80, 90];
    let b: Vec<i32> = vec![6, 11, 10, 5];
    let (perms, l1): (Vec<usize>, L1Union<i32>) =
        L1Union::union_and_sort(a.clone(), a.clone(), SortOrder::Desc);
    assert_eq!(perms, vec![5, 1, 4, 0, 7, 3, 6, 2]);
    let l2: L2Union<i32> =
        L2Union::union_and_sort_with_permutations(b.clone(), b.clone(), SortOrder::Desc, perms.clone());
    assert_eq!(
        l2.values,
        vec![(11, 0), (11, 1), (10, 6), (10, 7), (6, 2), (6, 3), (5, 4), (5, 5)]
    );
    let l2: L2Union<i32> =
        L2Union::union_and_sort_with_permutations(b.clone(), b.clone(), SortOrder::Asc, perms.clone());
    assert_eq!(
        l2.values,
        vec![(5, 4), (5, 5), (6, 2), (6, 3), (10, 6), (10, 7), (11, 0), (11, 1)]
    );
    // Each entry's rank leads back, through the rank permutation, to a row
    // with that entry's key.
    for &(key, rank) in l2.values.iter() {
        let row: usize = perms[rank];
        assert_eq!(b[row % 4], key);
        assert_eq!(l1.values[rank].0, a[row % 4]);
    }
}

#[test]
fn scanner_starts_unmarked() {
    let mut bits: L1BitVec = L1BitVec::new(5);
    assert_eq!(bits.next(), None);
    assert_eq!(bits.next(), None);
}

#[test]
fn scanner_of_no_ranks() {
    let mut bits: L1BitVec = L1BitVec::new(0);
    assert_eq!(bits.next(), None);
    bits.maybe_reset_start(3);
    assert_eq!(bits.next(), None);
}

#[test]
fn scanner_yields_marks_in_rising_order() {
    let mut bits: L1BitVec = L1BitVec::new(8);
    bits.set(6);
    bits.set(1);
    bits.set(3);
    bits.set(3);
    assert_eq!(bits.next(), Some(1));
    assert_eq!(bits.next(), Some(3));
    assert_eq!(bits.next(), Some(6));
    assert_eq!(bits.next(), None);
}

#[test]
fn scanner_does_not_look_before_its_start() {
    let mut bits: L1BitVec = L1BitVec::new(8);
    bits.set(1);
    bits.set(5);
    bits.maybe_reset_start(2);
    assert_eq!(bits.next(), Some(5));
    assert_eq!(bits.next(), None);
}

#[test]
fn scanner_reset_to_the_same_start_goes_on() {
    let mut bits: L1BitVec = L1BitVec::new(8);
    bits.set(2);
    bits.set(4);
    bits.maybe_reset_start(2);
    assert_eq!(bits.next(), Some(2));
    bits.maybe_reset_start(2);
    assert_eq!(bits.next(), Some(4));
    bits.maybe_reset_start(2);
    assert_eq!(bits.next(), None);
}

#[test]
fn scanner_reset_to_a_new_start_yields_marks_again() {
    let mut bits: L1BitVec = L1BitVec::new(8);
    bits.set(2);
    bits.set(4);
    bits.maybe_reset_start(1);
    assert_eq!(bits.next(), Some(2));
    assert_eq!(bits.next(), Some(4));
    bits.maybe_reset_start(3);
    assert_eq!(bits.next(), Some(4));
    bits.maybe_reset_start(0);
    assert_eq!(bits.next(), Some(2));
}

#[test]
fn scanner_sees_marks_set_after_a_walk_began() {
    let mut bits: L1BitVec = L1BitVec::new(4);
    bits.maybe_reset_start(1);
    assert_eq!(bits.next(), None);
    bits.set(3);
    bits.maybe_reset_start(2);
    assert_eq!(bits.next(), Some(3));
}

#[test]
fn scanner_started_past_the_end() {
    let mut bits: L1BitVec = L1BitVec::new(4);
    bits.set(3);
    bits.maybe_reset_start(9);
    assert_eq!(bits.next(), None);
}

#[test]
fn bit_limit_is_an_eighth_of_the_address_space() {
    assert_eq!(MAX_BITS, usize::MAX >> 3);
}

use iejoin::iejoin::InequalityJoin;
use iejoin::nlj::NestedLoopJoin;
use iejoin::predicate::{CmpOp, JoinPredicate};

const OPS: [CmpOp; 4] = [CmpOp::Lt, CmpOp::LtEq, CmpOp::Gt, CmpOp::GtEq];

fn holds(op: CmpOp, a: i32, b: i32) -> bool {
    match op {
        CmpOp::Lt => a < b,
        CmpOp::LtEq => a <= b,
        CmpOp::Gt => a > b,
        CmpOp::GtEq => a >= b,
    }
}

/// The pairs of both predicates by a nested loop over the rows, each as the
/// right row's first attribute with the left row's second attribute.
fn by_nested_loop(
    op1: CmpOp,
    left_a: &[i32],
    right_a: &[i32],
    op2: CmpOp,
    left_b: &[i32],
    right_b: &[i32],
) -> Vec<(i32, i32)> {
    let left: Vec<(i32, i32)> = left_a.iter().copied().zip(left_b.iter().copied()).collect();
    let right: Vec<(i32, i32)> = right_a.iter().copied().zip(right_b.iter().copied()).collect();
    let pred = move |l: &(i32, i32), r: &(i32, i32)| holds(op1, l.0, r.0) && holds(op2, l.1, r.1);
    let rows: Vec<((i32, i32), (i32, i32))> = NestedLoopJoin::new(left, right, pred).collect();
    rows.iter().map(|(l, r)| (r.0, l.1)).collect()
}

fn by_scan(
    op1: CmpOp,
    left_a: &[i32],
    right_a: &[i32],
    op2: CmpOp,
    left_b: &[i32],
    right_b: &[i32],
) -> Vec<(i32, i32)> {
    let join1: JoinPredicate<i32> = JoinPredicate::new(op1, left_a.to_vec(), right_a.to_vec());
    let join2: JoinPredicate<i32> = JoinPredicate::new(op2, left_b.to_vec(), right_b.to_vec());
    InequalityJoin::new(join1, join2).collect()
}

fn sorted(mut pairs: Vec<(i32, i32)>) -> Vec<(i32, i32)> {
    pairs.sort();
    pairs
}

#[test]
fn strict_then_lenient() {
    let join1 = JoinPredicate::new(CmpOp::Gt, vec![100, 140, 80, 90], vec![100, 140, 80, 90]);
    let join2 = JoinPredicate::new(CmpOp::LtEq, vec![6, 11, 10, 5], vec![6, 11, 10, 5]);
    let expected: Vec<(i32, i32)> = vec![(80, 6), (80, 5)];

    let iejoin = InequalityJoin::new(join1, join2);
    let out: Vec<(i32, i32)> = iejoin.collect();
    assert_eq!(expected, out);
}

#[test]
fn less_then_at_least() {
    let join1 = JoinPredicate::new(CmpOp::Lt, vec![100, 140, 80, 90], vec![100, 140, 80, 90]);
    let join2 = JoinPredicate::new(CmpOp::GtEq, vec![6, 11, 10, 5], vec![6, 11, 10, 5]);
    let out: Vec<(i32, i32)> = InequalityJoin::new(join1, join2).collect();
    assert_eq!(out, vec![(90, 10), (100, 10)]);
    assert_eq!(sorted(out), sorted(vec![(100, 10), (90, 10)]));
}

#[test]
fn two_strict_operators_follow_the_scan() {
    // The scan pairs a left row with the right rows that sort after it by
    // the first attribute and not after it by the second: here, with the
    // right rows that are smaller in both attributes.
    let join1 = JoinPredicate::new(CmpOp::Gt, vec![100, 140, 80, 90], vec![100, 140, 80, 90]);
    let join2 = JoinPredicate::new(CmpOp::Lt, vec![6, 11, 10, 5], vec![6, 11, 10, 5]);
    let out: Vec<(i32, i32)> = InequalityJoin::new(join1, join2).collect();
    assert_eq!(out, vec![(90, 6), (100, 11), (90, 11), (80, 11)]);
}

#[test]
fn different_sides() {
    let left_a: Vec<i32> = vec![5, 1, 7, 3];
    let right_a: Vec<i32> = vec![2, 6, 4];
    let left_b: Vec<i32> = vec![10, 40, 20, 30];
    let right_b: Vec<i32> = vec![25, 35, 15];
    let out = by_scan(CmpOp::Gt, &left_a, &right_a, CmpOp::LtEq, &left_b, &right_b);
    assert_eq!(out, vec![(6, 20), (2, 20), (4, 10), (2, 10)]);
    let brute = by_nested_loop(CmpOp::Gt, &left_a, &right_a, CmpOp::LtEq, &left_b, &right_b);
    assert_eq!(brute, vec![(2, 10), (4, 10), (2, 20), (6, 20)]);
}

#[test]
fn one_pair_per_call() {
    let join1 = JoinPredicate::new(CmpOp::Lt, vec![1, 2, 3], vec![2, 3, 4]);
    let join2 = JoinPredicate::new(CmpOp::GtEq, vec![7, 8, 9], vec![9, 8, 7]);
    let mut join: InequalityJoin<i32, i32> = InequalityJoin::new(join1, join2);
    assert_eq!(join.next(), Some((4, 7)));
    assert_eq!(join.next(), Some((3, 8)));
    assert_eq!(join.next(), Some((4, 8)));
    assert_eq!(join.next(), Some((4, 9)));
    assert_eq!(join.next(), None);
    assert_eq!(join.next(), None);
}

#[test]
fn collect_after_some_pairs() {
    let join1 = JoinPredicate::new(CmpOp::Lt, vec![1, 2, 3], vec![2, 3, 4]);
    let join2 = JoinPredicate::new(CmpOp::GtEq, vec![7, 8, 9], vec![9, 8, 7]);
    let mut join: InequalityJoin<i32, i32> = InequalityJoin::new(join1, join2);
    assert_eq!(join.next(), Some((4, 7)));
    assert_eq!(join.next(), Some((3, 8)));
    assert_eq!(join.collect(), vec![(4, 8), (4, 9)]);
}

#[test]
fn agrees_with_the_nested_loop_on_both_predicates() {
    let a: Vec<i32> = vec![100, 140, 80, 90];
    let b: Vec<i32> = vec![6, 11, 10, 5];
    let left_a: Vec<i32> = vec![5, 1, 7, 3, 5, 2];
    let right_a: Vec<i32> = vec![2, 6, 4, 5, 5];
    let left_b: Vec<i32> = vec![1, 4, 2, 3, 3, 0];
    let right_b: Vec<i32> = vec![2, 3, 1, 3, 0];
    for op1 in [CmpOp::Lt, CmpOp::Gt] {
        for op2 in [CmpOp::LtEq, CmpOp::GtEq] {
            // A relation joined with itself.
            assert_eq!(
                sorted(by_scan(op1, &a, &a, op2, &b, &b)),
                sorted(by_nested_loop(op1, &a, &a, op2, &b, &b))
            );
            // Two relations, with repeated values.
            assert_eq!(
                sorted(by_scan(op1, &left_a, &right_a, op2, &left_b, &right_b)),
                sorted(by_nested_loop(op1, &left_a, &right_a, op2, &left_b, &right_b))
            );
        }
    }
}

#[test]
fn equal_values_fail_a_strict_operator_and_pass_a_lenient_one() {
    let out = by_scan(CmpOp::Gt, &[5, 6], &[5], CmpOp::LtEq, &[1, 1], &[1]);
    assert_eq!(out, vec![(5, 1)]);
    let out = by_scan(CmpOp::Lt, &[5, 4], &[5], CmpOp::GtEq, &[1, 1], &[1]);
    assert_eq!(out, vec![(5, 1)]);
}

#[test]
fn equal_rows_are_paired_one_by_one() {
    let out = by_scan(CmpOp::Gt, &[3, 3], &[1, 1], CmpOp::LtEq, &[0, 0], &[0, 0]);
    assert_eq!(out, vec![(1, 0), (1, 0), (1, 0), (1, 0)]);
}

#[test]
fn empty_left_side() {
    for op1 in OPS {
        for op2 in OPS {
            assert!(by_scan(op1, &[], &[1, 2, 3], op2, &[], &[4, 5, 6]).is_empty());
        }
    }
}

#[test]
fn empty_right_side() {
    for op1 in OPS {
        for op2 in OPS {
            assert!(by_scan(op1, &[1, 2, 3], &[], op2, &[4, 5, 6], &[]).is_empty());
        }
    }
}

#[test]
fn empty_on_both_sides() {
    for op1 in OPS {
        for op2 in OPS {
            let join1: JoinPredicate<i32> = JoinPredicate::new(op1, Vec::new(), Vec::new());
            let join2: JoinPredicate<i32> = JoinPredicate::new(op2, Vec::new(), Vec::new());
            let mut join = InequalityJoin::new(join1, join2);
            assert_eq!(join.next(), None);
        }
    }
}

#[test]
fn no_left_value_above_any_right_value() {
    let out = by_scan(CmpOp::Gt, &[1, 2, 3], &[4, 5, 6], CmpOp::LtEq, &[1, 2, 3], &[4, 5, 6]);
    assert!(out.is_empty());
    let out = by_scan(CmpOp::Gt, &[1, 2, 3], &[3, 4, 5], CmpOp::LtEq, &[1, 2, 3], &[4, 5, 6]);
    assert!(out.is_empty());
}

#[test]
fn no_pair_of_rows_twice() {
    // All values differ, so a pair of values stands for one pair of rows.
    let left_a: Vec<i32> = vec![50, 10, 70, 30, 90];
    let right_a: Vec<i32> = vec![20, 60, 40, 80];
    let left_b: Vec<i32> = vec![1, 4, 2, 3, 0];
    let right_b: Vec<i32> = vec![12, 13, 11, 10];
    let out = by_scan(CmpOp::Gt, &left_a, &right_a, CmpOp::LtEq, &left_b, &right_b);
    assert_eq!(out.len(), 10);
    let mut seen: Vec<(i32, i32)> = out.clone();
    seen.sort();
    seen.dedup();
    assert_eq!(seen.len(), out.len());
}

#[test]
fn built_twice_yields_the_same() {
    let a: Vec<i32> = vec![3, 1, 3, 2, 2];
    let b: Vec<i32> = vec![1, 1, 2, 0, 2];
    for op1 in OPS {
        for op2 in OPS {
            assert_eq!(by_scan(op1, &a, &a, op2, &b, &b), by_scan(op1, &a, &a, op2, &b, &b));
        }
    }
}

#[test]
fn values_other_than_integers() {
    let join1 = JoinPredicate::new(CmpOp::Lt, vec!['a', 'c'], vec!['b', 'd']);
    let join2 = JoinPredicate::new(CmpOp::GtEq, vec![true, false], vec![false, true]);
    let out: Vec<(char, bool)> = InequalityJoin::new(join1, join2).collect();
    let mut got = out.clone();
    got.sort();
    assert_eq!(got, vec![('b', true), ('d', true)]);
}

#[test]
fn try_new_accepts_matching_sides() {
    let join1: JoinPredicate<i32> = JoinPredicate::new(CmpOp::Gt, vec![5, 6], vec![5]);
    let join2: JoinPredicate<i32> = JoinPredicate::new(CmpOp::LtEq, vec![1, 1], vec![1]);
    let join = InequalityJoin::try_new(join1, join2);
    assert!(join.is_some());
    assert_eq!(join.unwrap().collect(), vec![(5, 1)]);
}

#[test]
fn try_new_rejects_different_left_sides() {
    let join1: JoinPredicate<i32> = JoinPredicate::new(CmpOp::Gt, vec![5, 6], vec![5]);
    let join2: JoinPredicate<i32> = JoinPredicate::new(CmpOp::LtEq, vec![1], vec![1]);
    assert!(InequalityJoin::try_new(join1, join2).is_none());
}

#[test]
fn try_new_rejects_different_right_sides() {
    let join1: JoinPredicate<i32> = JoinPredicate::new(CmpOp::Gt, vec![5, 6], vec![5]);
    let join2: JoinPredicate<i32> = JoinPredicate::new(CmpOp::LtEq, vec![1, 1], vec![1, 2]);
    assert!(InequalityJoin::try_new(join1, join2).is_none());
}

#[test]
fn try_new_rejects_an_empty_predicate_beside_a_full_one() {
    let join1: JoinPredicate<i32> = JoinPredicate::new(CmpOp::Gt, Vec::new(), Vec::new());
    let join2: JoinPredicate<i32> = JoinPredicate::new(CmpOp::LtEq, vec![1, 1], vec![1, 2]);
    assert!(InequalityJoin::try_new(join1, join2).is_none());
}

use iejoin::nlj::NestedLoopJoin;

#[test]
fn equality() {
    let pred = |a: &i32, b: &i32| a == b;

    let l: Vec<i32> = vec![1, 2, 3, 4, 5];
    let r: Vec<i32> = vec![2, 3, 4, 5, 6];
    let expected: Vec<(i32, i32)> = vec![(2, 2), (3, 3), (4, 4), (5, 5)];

    let nlj = NestedLoopJoin::new(l, r, pred);
    let out: Vec<(i32, i32)> = nlj.collect();

    assert_eq!(expected, out);
}

#[test]
fn fixed_ranges() {
    let pred = |&a: &i32, &b: &i32| b >= a - 1 && b <= a + 1;

    let l: Vec<i32> = vec![1, 2, 3, 4];
    let r: Vec<i32> = vec![2, 3, 4, 5];
    let expected: Vec<(i32, i32)> = vec![
        (1, 2),
        (2, 2),
        (2, 3),
        (3, 2),
        (3, 3),
        (3, 4),
        (4, 3),
        (4, 4),
        (4, 5),
    ];

    let nlj = NestedLoopJoin::new(l, r, pred);
    let out: Vec<(i32, i32)> = nlj.collect();

    assert_eq!(expected, out);
}

#[test]
fn out_of_order() {
    let pred = |a: &i32, b: &i32| a > b;

    let l: Vec<i32> = vec![4, 3, 4, 1];
    let r: Vec<i32> = vec![1, 5, 2];
    let expected: Vec<(i32, i32)> = vec![(4, 1), (4, 2), (3, 1), (3, 2), (4, 1), (4, 2)];

    let nlj = NestedLoopJoin::new(l, r, pred);
    let out: Vec<(i32, i32)> = nlj.collect();

    assert_eq!(expected, out);
}

#[test]
fn nested_loop_yields_one_pair_per_call() {
    let l: Vec<u8> = vec![1, 2];
    let r: Vec<u8> = vec![1, 2, 3];
    let mut nlj = NestedLoopJoin::new(l, r, |a: &u8, b: &u8| a < b);
    assert_eq!(nlj.next(), Some((1, 2)));
    assert_eq!(nlj.next(), Some((1, 3)));
    assert_eq!(nlj.next(), Some((2, 3)));
    assert_eq!(nlj.next(), None);
    assert_eq!(nlj.next(), None);
}

#[test]
fn nested_loop_collects_what_is_left() {
    let l: Vec<u8> = vec![1, 2];
    let r: Vec<u8> = vec![1, 2, 3];
    let mut nlj = NestedLoopJoin::new(l, r, |a: &u8, b: &u8| a < b);
    assert_eq!(nlj.next(), Some((1, 2)));
    let rest: Vec<(u8, u8)> = nlj.collect();
    assert_eq!(rest, vec![(1, 3), (2, 3)]);
}

#[test]
fn nested_loop_with_an_empty_side() {
    let none: Vec<i64> = Vec::new();
    let some: Vec<i64> = vec![1, 2, 3];
    let out: Vec<(i64, i64)> =
        NestedLoopJoin::new(none.clone(), some.clone(), |_: &i64, _: &i64| true).collect();
    assert!(out.is_empty());
    let out: Vec<(i64, i64)> =
        NestedLoopJoin::new(some.clone(), none.clone(), |_: &i64, _: &i64| true).collect();
    assert!(out.is_empty());
    let out: Vec<(i64, i64)> = NestedLoopJoin::new(none.clone(), none, |_: &i64, _: &i64| true).collect();
    assert!(out.is_empty());
}

#[test]
fn nested_loop_accepting_everything_is_the_product() {
    let l: Vec<char> = vec!['a', 'b'];
    let r: Vec<bool> = vec![true, false];
    let out: Vec<(char, bool)> = NestedLoopJoin::new(l, r, |_: &char, _: &bool| true).collect();
    assert_eq!(out, vec![('a', true), ('a', false), ('b', true), ('b', false)]);
}

#[test]
fn nested_loop_rejecting_everything_is_empty() {
    let l: Vec<i32> = vec![1, 2, 3];
    let r: Vec<i32> = vec![4, 5];
    let mut nlj = NestedLoopJoin::new(l, r, |_: &i32, _: &i32| false);
    assert_eq!(nlj.next(), None);
}

//! The sorted order of the rows of a column, and the sort that computes it.

use crate::multisets::lemma_same_elements_same_multiset;
use crate::order::lawful;
use crate::predicate::SortOrder;
use crate::rows::{
    lemma_row_before_strict, lemma_row_before_transitive, row_before, row_comes_before,
};
use vstd::prelude::*;
use vstd::relations::{sorted_by, total_ordering};
use vstd::seq_lib::lemma_sorted_unique;

verus! {

/// The rows `0 .. n`, each at its own position.
pub open spec fn all_rows(n: nat) -> Seq<usize> {
    Seq::new(n, |i: int| i as usize)
}

/// "Row `c` is row `d` or sorts before it", as a relation.
pub open spec fn row_leq<T: Ord>(left: Seq<T>, right: Seq<T>, order: SortOrder) -> spec_fn(
    usize,
    usize,
) -> bool {
    |c: usize, d: usize| c == d || row_before(left, right, order, c as int, d as int)
}

/// The rows of a column in sorted order: the entry at rank `r` is the row
/// that occupies rank `r`.
pub open spec fn row_order<T: Ord>(left: Seq<T>, right: Seq<T>, order: SortOrder) -> Seq<usize> {
    all_rows(left.len() + right.len()).sort_by(row_leq(left, right, order))
}

/// `s` lists each of the rows `0 .. n` exactly once.
pub open spec fn is_permutation(s: Seq<usize>, n: int) -> bool {
    &&& s.len() == n
    &&& forall|i: int| 0 <= i < s.len() ==> s[i] < n
    &&& s.no_duplicates()
    &&& forall|c: usize| c < n ==> s.contains(c)
}

/// `s` lists the rows `lo .. hi`, each once, every row before the rows that
/// sort after it.
pub open spec fn is_sorted_span<T: Ord>(
    s: Seq<usize>,
    left: Seq<T>,
    right: Seq<T>,
    order: SortOrder,
    lo: int,
    hi: int,
) -> bool {
    &&& s.len() == hi - lo
    &&& forall|i: int| 0 <= i < s.len() ==> lo <= #[trigger] s[i] < hi
    &&& forall|c: usize| lo <= c < hi ==> s.contains(c)
    &&& forall|i: int, j: int|
        0 <= i < j < s.len() ==> row_before(left, right, order, s[i] as int, s[j] as int)
}

/// `s` is the sorted order of all rows of the column.
pub open spec fn is_row_order<T: Ord>(
    s: Seq<usize>,
    left: Seq<T>,
    right: Seq<T>,
    order: SortOrder,
) -> bool {
    is_sorted_span(s, left, right, order, 0, (left.len() + right.len()) as int)
}

/// A sorted order lists every row exactly once.
pub proof fn lemma_row_order_is_permutation<T: Ord>(
    s: Seq<usize>,
    left: Seq<T>,
    right: Seq<T>,
    order: SortOrder,
)
    requires
        lawful::<T>(),
        is_row_order(s, left, right, order),
    ensures
        is_permutation(s, (left.len() + right.len()) as int),
{
    assert forall|i: int, j: int| 0 <= i < s.len() && 0 <= j < s.len() && i != j implies s[i]
        != s[j] by {
        lemma_row_before_strict(left, right, order, s[i] as int, s[j] as int);
        if i < j {
            assert(row_before(left, right, order, s[i] as int, s[j] as int));
        } else {
            assert(row_before(left, right, order, s[j] as int, s[i] as int));
        }
    }
}

/// "Is or sorts before" is a total order on rows.
pub proof fn lemma_row_leq_total<T: Ord>(left: Seq<T>, right: Seq<T>, order: SortOrder)
    requires
        lawful::<T>(),
    ensures
        total_ordering(row_leq(left, right, order)),
{
    let leq = row_leq(left, right, order);
    assert forall|x: usize, y: usize| #[trigger] leq(x, y) && #[trigger] leq(y, x) implies x
        == y by {
        lemma_row_before_strict(left, right, order, x as int, y as int);
    }
    assert forall|x: usize, y: usize, z: usize| #[trigger] leq(x, y) && #[trigger] leq(y, z) implies leq(x, z) by {
        if x != y && y != z {
            lemma_row_before_transitive(left, right, order, x as int, y as int, z as int);
        }
    }
    assert forall|x: usize, y: usize| #[trigger] leq(x, y) || #[trigger] leq(y, x) by {
        lemma_row_before_strict(left, right, order, x as int, y as int);
    }
}

/// `row_order` is a sorted order of all rows.
pub proof fn lemma_row_order_sorted<T: Ord>(left: Seq<T>, right: Seq<T>, order: SortOrder)
    requires
        lawful::<T>(),
        left.len() + right.len() <= usize::MAX,
    ensures
        is_row_order(row_order(left, right, order), left, right, order),
{
    let n = left.len() + right.len();
    let id = all_rows(n);
    let leq = row_leq(left, right, order);
    let s = row_order(left, right, order);
    lemma_row_leq_total(left, right, order);
    id.lemma_sort_by_ensures(leq);
    id.to_multiset_ensures();
    s.to_multiset_ensures();
    assert(id.no_duplicates());
    id.lemma_multiset_has_no_duplicates();
    s.lemma_multiset_has_no_duplicates_conv();
    assert forall|i: int| 0 <= i < s.len() implies 0 <= #[trigger] s[i] < n by {
        if !id.contains(s[i]) {
            assert(s.contains(s[i]));
        }
        let k = choose|k: int| 0 <= k < id.len() && id[k] == s[i];
        assert(id[k] == k);
    }
    assert forall|c: usize| 0 <= c < n implies s.contains(c) by {
        assert(id[c as int] == c);
        assert(id.contains(c));
        assert(s.to_multiset().count(c) > 0);
    }
    assert forall|i: int, j: int| 0 <= i < j < s.len() implies row_before(
        left,
        right,
        order,
        s[i] as int,
        s[j] as int,
    ) by {
        assert(leq(s[i], s[j]));
    }
}

/// A column has only one sorted order.
pub proof fn lemma_row_order_unique<T: Ord>(
    s: Seq<usize>,
    left: Seq<T>,
    right: Seq<T>,
    order: SortOrder,
)
    requires
        lawful::<T>(),
        left.len() + right.len() <= usize::MAX,
        is_row_order(s, left, right, order),
    ensures
        s == row_order(left, right, order),
{
    let t = row_order(left, right, order);
    let leq = row_leq(left, right, order);
    lemma_row_order_sorted(left, right, order);
    lemma_row_order_is_permutation(s, left, right, order);
    lemma_row_order_is_permutation(t, left, right, order);
    lemma_row_leq_total(left, right, order);
    assert forall|x: usize| s.contains(x) <==> t.contains(x) by {
        if s.contains(x) {
            let i = choose|i: int| 0 <= i < s.len() && s[i] == x;
            assert(s[i] < left.len() + right.len());
        }
        if t.contains(x) {
            let i = choose|i: int| 0 <= i < t.len() && t[i] == x;
            assert(t[i] < left.len() + right.len());
        }
    }
    lemma_same_elements_same_multiset(s, t);
    assert(sorted_by(s, leq)) by {
        assert forall|i: int, j: int| 0 <= i < j < s.len() implies #[trigger] leq(s[i], s[j]) by {
            assert(row_before(left, right, order, s[i] as int, s[j] as int));
        }
    }
    assert(sorted_by(t, leq)) by {
        assert forall|i: int, j: int| 0 <= i < j < t.len() implies #[trigger] leq(t[i], t[j]) by {
            assert(row_before(left, right, order, t[i] as int, t[j] as int));
        }
    }
    lemma_sorted_unique(s, t, leq);
}

/// Merges the sorted rows `lo .. mid` with the sorted rows `mid .. hi`.
fn merge_spans<T: Ord>(
    left: &Vec<T>,
    right: &Vec<T>,
    order: SortOrder,
    a: &Vec<usize>,
    b: &Vec<usize>,
    lo: usize,
    mid: usize,
    hi: usize,
) -> (out: Vec<usize>)
    requires
        lawful::<T>(),
        lo <= mid <= hi <= left.len() + right.len(),
        is_sorted_span(a@, left@, right@, order, lo as int, mid as int),
        is_sorted_span(b@, left@, right@, order, mid as int, hi as int),
    ensures
        is_sorted_span(out@, left@, right@, order, lo as int, hi as int),
{
    let mut out: Vec<usize> = Vec::new();
    let mut i: usize = 0;
    let mut j: usize = 0;
    while i < a.len() || j < b.len()
        invariant
            lawful::<T>(),
            lo <= mid <= hi <= left.len() + right.len(),
            is_sorted_span(a@, left@, right@, order, lo as int, mid as int),
            is_sorted_span(b@, left@, right@, order, mid as int, hi as int),
            i <= a.len(),
            j <= b.len(),
            out.len() == i + j,
            forall|k: int| 0 <= k < out.len() ==> lo <= #[trigger] out[k] < hi,
            forall|k: int, m: int|
                0 <= k < m < out.len() ==> row_before(
                    left@,
                    right@,
                    order,
                    out[k] as int,
                    out[m] as int,
                ),
            forall|k: int, x: int|
                0 <= k < out.len() && i <= x < a.len() ==> row_before(
                    left@,
                    right@,
                    order,
                    out[k] as int,
                    a[x] as int,
                ),
            forall|k: int, y: int|
                0 <= k < out.len() && j <= y < b.len() ==> row_before(
                    left@,
                    right@,
                    order,
                    out[k] as int,
                    b[y] as int,
                ),
            forall|x: int| 0 <= x < i ==> out@.contains(#[trigger] a[x]),
            forall|y: int| 0 <= y < j ==> out@.contains(#[trigger] b[y]),
        decreases a.len() - i + b.len() - j,
    {
        let take_a = if i >= a.len() {
            false
        } else if j >= b.len() {
            true
        } else {
            row_comes_before(left, right, order, a[i], b[j])
        };
        let ghost prev = out@;
        if take_a {
            let v = a[i];
            proof {
                assert forall|y: int| j <= y < b.len() implies row_before(
                    left@,
                    right@,
                    order,
                    v as int,
                    b[y] as int,
                ) by {
                    if y > j {
                        lemma_row_before_transitive(
                            left@,
                            right@,
                            order,
                            v as int,
                            b[j as int] as int,
                            b[y] as int,
                        );
                    }
                }
            }
            out.push(v);
            i += 1;
            proof {
                assert(out@[out.len() - 1] == v);
                assert forall|x: int| 0 <= x < i implies out@.contains(#[trigger] a[x]) by {
                    if x < i - 1 {
                        let k = choose|k: int| 0 <= k < prev.len() && prev[k] == a[x];
                        assert(out@[k] == a[x]);
                    }
                }
                assert forall|y: int| 0 <= y < j implies out@.contains(#[trigger] b[y]) by {
                    let k = choose|k: int| 0 <= k < prev.len() && prev[k] == b[y];
                    assert(out@[k] == b[y]);
                }
            }
        } else {
            let v = b[j];
            proof {
                assert forall|x: int| i <= x < a.len() implies row_before(
                    left@,
                    right@,
                    order,
                    v as int,
                    a[x] as int,
                ) by {
                    lemma_row_before_strict(left@, right@, order, a[i as int] as int, v as int);
                    if x > i {
                        lemma_row_before_transitive(
                            left@,
                            right@,
                            order,
                            v as int,
                            a[i as int] as int,
                            a[x] as int,
                        );
                    }
                }
            }
            out.push(v);
            j += 1;
            proof {
                assert(out@[out.len() - 1] == v);
                assert forall|x: int| 0 <= x < i implies out@.contains(#[trigger] a[x]) by {
                    let k = choose|k: int| 0 <= k < prev.len() && prev[k] == a[x];
                    assert(out@[k] == a[x]);
                }
                assert forall|y: int| 0 <= y < j implies out@.contains(#[trigger] b[y]) by {
                    if y < j - 1 {
                        let k = choose|k: int| 0 <= k < prev.len() && prev[k] == b[y];
                        assert(out@[k] == b[y]);
                    }
                }
            }
        }
    }
    proof {
        assert forall|c: usize| lo <= c < hi implies out@.contains(c) by {
            if c < mid {
                assert(a@.contains(c));
                let x = choose|x: int| 0 <= x < a@.len() && a@[x] == c;
                assert(out@.contains(a[x]));
            } else {
                assert(b@.contains(c));
                let y = choose|y: int| 0 <= y < b@.len() && b@[y] == c;
                assert(out@.contains(b[y]));
            }
        }
    }
    out
}

/// Sorts the rows `lo .. hi` by merging the sorted halves.
fn sort_span<T: Ord>(
    left: &Vec<T>,
    right: &Vec<T>,
    order: SortOrder,
    lo: usize,
    hi: usize,
) -> (out: Vec<usize>)
    requires
        lawful::<T>(),
        lo <= hi <= left.len() + right.len(),
    ensures
        is_sorted_span(out@, left@, right@, order, lo as int, hi as int),
    decreases hi - lo,
{
    if hi - lo <= 1 {
        let mut out: Vec<usize> = Vec::new();
        if lo < hi {
            out.push(lo);
            proof {
                assert(out@[0] == lo);
            }
        }
        out
    } else {
        let mid: usize = lo + (hi - lo) / 2;
        let a = sort_span(left, right, order, lo, mid);
        let b = sort_span(left, right, order, mid, hi);
        merge_spans(left, right, order, &a, &b, lo, mid, hi)
    }
}

/// The sorted order of all rows of a column, by merge sort.
pub fn sort_rows<T: Ord>(left: &Vec<T>, right: &Vec<T>, order: SortOrder) -> (out: Vec<usize>)
    requires
        lawful::<T>(),
        left.len() + right.len() <= usize::MAX,
    ensures
        out@ == row_order(left@, right@, order),
{
    let n: usize = left.len() + right.len();
    let out = sort_span(left, right, order, 0, n);
    proof {
        lemma_row_order_unique(out@, left@, right@, order);
    }
    out
}

} // verus!

//! Nested loop join: every pair of a left item and a right item that a
//! predicate accepts, left items outermost.

use crate::ranges::{
    collect, concat, lemma_collect_contains, lemma_collect_no_duplicates, lemma_concat_contains,
    lemma_concat_no_duplicates,
};
use vstd::prelude::*;

verus! {

/// For each position in `right`, whether `f` accepts `a` with the item
/// there.
pub open spec fn accepted_in_row<A, B>(a: A, right: Seq<B>, f: spec_fn(A, B) -> bool) -> spec_fn(
    int,
) -> bool {
    |j: int| f(a, right[j])
}

/// For each position in `right`, the pair of `a` with the item there.
pub open spec fn paired_in_row<A, B>(a: A, right: Seq<B>) -> spec_fn(int) -> (A, B) {
    |j: int| (a, right[j])
}

/// The accepted pairs of `a` with the items of `right` from position `from`
/// onward.
pub open spec fn row_pairs<A, B>(a: A, right: Seq<B>, from: int, f: spec_fn(A, B) -> bool) -> Seq<
    (A, B),
> {
    collect(from, right.len() as int, accepted_in_row(a, right, f), paired_in_row(a, right))
}

/// For each position in `left`, the accepted pairs of the item there with
/// the items of `right`.
pub open spec fn rows_of<A, B>(left: Seq<A>, right: Seq<B>, f: spec_fn(A, B) -> bool) -> spec_fn(
    int,
) -> Seq<(A, B)> {
    |i: int| row_pairs(left[i], right, 0, f)
}

/// The pairs in `left` x `right` that `f` accepts, ordered by the left
/// item's position and then by the right item's position.
pub open spec fn nested_loop<A, B>(left: Seq<A>, right: Seq<B>, f: spec_fn(A, B) -> bool) -> Seq<
    (A, B),
> {
    concat(0, left.len() as int, rows_of(left, right, f))
}

/// A nested loop yields exactly the accepted pairs of a left item with a
/// right item.
pub proof fn lemma_nested_loop_contains<A, B>(
    left: Seq<A>,
    right: Seq<B>,
    f: spec_fn(A, B) -> bool,
    x: (A, B),
)
    ensures
        nested_loop(left, right, f).contains(x) <==> f(x.0, x.1) && left.contains(x.0)
            && right.contains(x.1),
{
    let parts = rows_of(left, right, f);
    lemma_concat_contains(0, left.len() as int, parts, x);
    if nested_loop(left, right, f).contains(x) {
        let i = choose|i: int| 0 <= i < left.len() && (#[trigger] parts(i)).contains(x);
        lemma_collect_contains(
            0,
            right.len() as int,
            accepted_in_row(left[i], right, f),
            paired_in_row(left[i], right),
            x,
        );
        let keep = accepted_in_row(left[i], right, f);
        let j = choose|j: int|
            0 <= j < right.len() && #[trigger] keep(j) && paired_in_row(left[i], right)(j) == x;
        assert(left[i] == x.0);
        assert(right[j] == x.1);
    }
    if f(x.0, x.1) && left.contains(x.0) && right.contains(x.1) {
        let i = choose|i: int| 0 <= i < left.len() && left[i] == x.0;
        let j = choose|j: int| 0 <= j < right.len() && right[j] == x.1;
        let keep = accepted_in_row(left[i], right, f);
        lemma_collect_contains(0, right.len() as int, keep, paired_in_row(left[i], right), x);
        assert(keep(j) && paired_in_row(left[i], right)(j) == x);
        assert(parts(i).contains(x));
    }
}

/// A nested loop over sequences that hold nothing twice yields nothing
/// twice.
pub proof fn lemma_nested_loop_no_duplicates<A, B>(
    left: Seq<A>,
    right: Seq<B>,
    f: spec_fn(A, B) -> bool,
)
    requires
        left.no_duplicates(),
        right.no_duplicates(),
    ensures
        nested_loop(left, right, f).no_duplicates(),
{
    let parts = rows_of(left, right, f);
    assert forall|i: int| 0 <= i < left.len() implies (#[trigger] parts(i)).no_duplicates() by {
        lemma_collect_no_duplicates(
            0,
            right.len() as int,
            accepted_in_row(left[i], right, f),
            paired_in_row(left[i], right),
        );
    }
    assert forall|p: int, q: int, x: (A, B)|
        0 <= p < q < left.len() && #[trigger] parts(p).contains(x) implies !#[trigger] parts(
            q,
        ).contains(x) by {
        lemma_collect_contains(
            0,
            right.len() as int,
            accepted_in_row(left[p], right, f),
            paired_in_row(left[p], right),
            x,
        );
        lemma_collect_contains(
            0,
            right.len() as int,
            accepted_in_row(left[q], right, f),
            paired_in_row(left[q], right),
            x,
        );
    }
    lemma_concat_no_duplicates(0, left.len() as int, parts);
}

/// The pair of positions `(i1, j1)` comes before `(i2, j2)` in a nested
/// loop.
#[verifier::inline]
pub open spec fn comes_before(i1: int, j1: int, i2: int, j2: int) -> bool {
    i1 < i2 || (i1 == i2 && j1 < j2)
}

/// The relation "`pred` can return `true` on this pair".
pub open spec fn accepts<A, B, F: Fn(&A, &B) -> bool>(pred: F) -> spec_fn(A, B) -> bool {
    |a: A, b: B| call_ensures(pred, (&a, &b), true)
}

/// `pred` never has a choice between `true` and `false`.
pub open spec fn decided<A, B, F: Fn(&A, &B) -> bool>(pred: F) -> bool {
    forall|a: A, b: B|
        !(#[trigger] call_ensures(pred, (&a, &b), true) && call_ensures(pred, (&a, &b), false))
}

/// A join that tests every left item against every right item.
pub struct NestedLoopJoin<A, B, F> {
    left: Vec<A>,
    right: Vec<B>,
    row: usize,
    col: usize,
    pred: F,
}

impl<A, B, F> NestedLoopJoin<A, B, F> where A: Copy, B: Copy, F: Fn(&A, &B) -> bool {
    /// The left items.
    pub closed spec fn left(&self) -> Seq<A> {
        self.left@
    }

    /// The right items.
    pub closed spec fn right(&self) -> Seq<B> {
        self.right@
    }

    /// The predicate.
    pub closed spec fn pred(&self) -> F {
        self.pred
    }

    /// The position of the left item under test.
    pub closed spec fn row(&self) -> int {
        self.row as int
    }

    /// The position of the right item to test next.
    pub closed spec fn col(&self) -> int {
        self.col as int
    }

    /// The positions are in range and the predicate can be called on every
    /// pair of items.
    pub closed spec fn wf(&self) -> bool {
        &&& self.row <= self.left.len()
        &&& self.col <= self.right.len()
        &&& forall|i: int, j: int|
            0 <= i < self.left.len() && 0 <= j < self.right.len() ==> call_requires(
                self.pred,
                (&#[trigger] self.left[i], &#[trigger] self.right[j]),
            )
    }

    /// Every pair of positions from `(i1, j1)` up to, not including,
    /// `(i2, j2)` holds items on which the predicate returned `false`.
    pub open spec fn rejected_between(&self, i1: int, j1: int, i2: int, j2: int) -> bool {
        forall|i: int, j: int|
            0 <= i < self.left().len() && 0 <= j < self.right().len() && !comes_before(
                i,
                j,
                i1,
                j1,
            ) && comes_before(i, j, i2, j2) ==> call_ensures(
                self.pred(),
                (&#[trigger] self.left()[i], &#[trigger] self.right()[j]),
                false,
            )
    }

    /// The pairs still to come, where the predicate never has a choice.
    pub open spec fn remaining(&self) -> Seq<(A, B)> {
        if self.row() < self.left().len() {
            row_pairs(self.left()[self.row()], self.right(), self.col(), accepts(self.pred()))
                + concat(
                self.row() + 1,
                self.left().len() as int,
                rows_of(self.left(), self.right(), accepts(self.pred())),
            )
        } else {
            Seq::empty()
        }
    }

    /// A join of `left` with `right` under `pred`, about to test the first
    /// pair.
    pub fn new(left: Vec<A>, right: Vec<B>, pred: F) -> (join: Self)
        requires
            forall|i: int, j: int|
                0 <= i < left.len() && 0 <= j < right.len() ==> call_requires(
                    pred,
                    (&#[trigger] left[i], &#[trigger] right[j]),
                ),
        ensures
            join.wf(),
            join.left() == left@,
            join.right() == right@,
            join.pred() == pred,
            join.row() == 0,
            join.col() == 0,
            join.remaining() == nested_loop(left@, right@, accepts(pred)),
    {
        NestedLoopJoin { left, right, row: 0, col: 0, pred }
    }

    /// The next pair that the predicate accepts, or `None` when no pair is
    /// left to test.
    pub fn next(&mut self) -> (out: Option<(A, B)>)
        requires
            old(self).wf(),
        ensures
            final(self).wf(),
            final(self).left() == old(self).left(),
            final(self).right() == old(self).right(),
            final(self).pred() == old(self).pred(),
            match out {
                Some(pair) => {
                    let i = final(self).row();
                    let j = final(self).col() - 1;
                    &&& 0 <= i < old(self).left().len()
                    &&& 0 <= j < old(self).right().len()
                    &&& !comes_before(i, j, old(self).row(), old(self).col())
                    &&& pair == (old(self).left()[i], old(self).right()[j])
                    &&& call_ensures(old(self).pred(), (&pair.0, &pair.1), true)
                    &&& old(self).rejected_between(old(self).row(), old(self).col(), i, j)
                },
                None => {
                    &&& final(self).row() == old(self).left().len()
                    &&& old(self).rejected_between(
                        old(self).row(),
                        old(self).col(),
                        old(self).left().len() as int,
                        0,
                    )
                },
            },
            decided(old(self).pred()) ==> match out {
                Some(pair) => old(self).remaining() == seq![pair] + final(self).remaining(),
                None => old(self).remaining() == Seq::<(A, B)>::empty(),
            },
    {
        loop
            invariant
                self.wf(),
                self.left == old(self).left,
                self.right == old(self).right,
                self.pred == old(self).pred,
                !comes_before(self.row(), self.col(), old(self).row(), old(self).col()),
                old(self).rejected_between(
                    old(self).row(),
                    old(self).col(),
                    self.row(),
                    self.col(),
                ),
                decided(self.pred) ==> old(self).remaining() == self.remaining(),
            decreases self.left.len() - self.row, self.right.len() - self.col,
        {
            if self.row >= self.left.len() {
                return None;
            }
            if self.col >= self.right.len() {
                self.row += 1;
                self.col = 0;
                continue ;
            }
            let a = self.left[self.row];
            let b = self.right[self.col];
            let ghost before = self.remaining();
            self.col += 1;
            let keep = (self.pred)(&a, &b);
            if keep {
                proof {
                    if decided(self.pred) {
                        assert(before == seq![(a, b)] + self.remaining());
                    }
                }
                return Some((a, b));
            }
            proof {
                if decided(self.pred) {
                    assert(before == self.remaining());
                }
            }
        }
    }

    /// All pairs still to come that the predicate accepts, in the order of
    /// the nested loop.
    pub fn collect(self) -> (out: Vec<(A, B)>)
        requires
            self.wf(),
        ensures
            forall|k: int|
                0 <= k < out.len() ==> {
                    &&& self.left().contains((#[trigger] out[k]).0)
                    &&& self.right().contains(out[k].1)
                    &&& call_ensures(self.pred(), (&out[k].0, &out[k].1), true)
                },
            decided(self.pred()) ==> out@ == self.remaining(),
    {
        let ghost all = self.remaining();
        let mut join = self;
        let mut out: Vec<(A, B)> = Vec::new();
        loop
            invariant
                join.wf(),
                join.left() == self.left(),
                join.right() == self.right(),
                join.pred() == self.pred(),
                all == self.remaining(),
                forall|k: int|
                    0 <= k < out.len() ==> {
                        &&& self.left().contains((#[trigger] out[k]).0)
                        &&& self.right().contains(out[k].1)
                        &&& call_ensures(self.pred(), (&out[k].0, &out[k].1), true)
                    },
                decided(self.pred()) ==> all == out@ + join.remaining(),
            decreases join.left().len() - join.row(), join.right().len() - join.col(),
        {
            let ghost before = out@;
            match join.next() {
                Some(pair) => {
                    out.push(pair);
                    proof {
                        if decided(self.pred()) {
                            assert(all =~= out@ + join.remaining());
                        }
                    }
                },
                None => {
                    proof {
                        if decided(self.pred()) {
                            assert(all =~= out@);
                        }
                    }
                    return out;
                },
            }
        }
    }
}

} // verus!

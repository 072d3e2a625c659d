//! What an inequality join yields, as a function of its two predicates.
//!
//! The join walks the rows in the sorted order of the second attribute. A
//! right row marks its rank in the sorted order of the first attribute. A
//! left row yields, for every marked rank from its own rank onward, the pair
//! of itself with the right row at that rank.

use crate::order::lawful;
use crate::predicate::Predicate;
use crate::ranges::{collect, concat, lemma_collect_exhausted, lemma_collect_found};
use crate::sorting::{
    is_permutation, is_row_order, lemma_row_order_is_permutation, lemma_row_order_sorted,
    row_order,
};
use crate::union::lemma_index_of_unique;
use vstd::prelude::*;

verus! {

/// Both predicates speak of the same left rows and the same right rows.
pub open spec fn compatible<T1, T2>(pa: Predicate<T1>, pb: Predicate<T2>) -> bool {
    pa.left.len() == pb.left.len() && pa.right.len() == pb.right.len()
}

impl<T: Ord> Predicate<T> {
    /// The rows in the sorted order of this predicate's attribute.
    pub open spec fn order(self) -> Seq<usize> {
        row_order(self.left, self.right, self.op.direction())
    }

    /// The rank of `row` in the sorted order.
    pub open spec fn rank_of(self, row: usize) -> int {
        self.order().index_of(row)
    }
}

/// Rank `rank` of the first order holds a right row that stands before
/// position `pos` in the second order: the rank is marked by the time the
/// row at `pos` is looked at.
pub open spec fn active<T1: Ord, T2: Ord>(
    pa: Predicate<T1>,
    pb: Predicate<T2>,
    pos: int,
    rank: int,
) -> bool {
    let row = pa.order()[rank];
    &&& row >= pa.left.len()
    &&& exists|k: int| 0 <= k < pos && #[trigger] pb.order()[k] == row
}

/// The left row at position `pos` with the right row at rank `rank`, each by
/// its position within its side.
pub open spec fn pair_at<T1: Ord, T2: Ord>(
    pa: Predicate<T1>,
    pb: Predicate<T2>,
    pos: int,
    rank: int,
) -> (int, int) {
    (pb.order()[pos] as int, pa.order()[rank] - pa.left.len())
}

/// Which ranks are marked when the row at position `pos` is looked at.
pub open spec fn marked<T1: Ord, T2: Ord>(pa: Predicate<T1>, pb: Predicate<T2>, pos: int) -> spec_fn(
    int,
) -> bool {
    |rank: int| active(pa, pb, pos, rank)
}

/// The pair that the row at position `pos` forms with each rank.
pub open spec fn paired<T1: Ord, T2: Ord>(pa: Predicate<T1>, pb: Predicate<T2>, pos: int) -> spec_fn(
    int,
) -> (int, int) {
    |rank: int| pair_at(pa, pb, pos, rank)
}

/// The pairs that the row at position `pos` yields from rank `from` onward:
/// one for each marked rank, in rising order.
pub open spec fn drain<T1: Ord, T2: Ord>(
    pa: Predicate<T1>,
    pb: Predicate<T2>,
    pos: int,
    from: int,
) -> Seq<(int, int)> {
    collect(from, pa.rows() as int, marked(pa, pb, pos), paired(pa, pb, pos))
}

/// The pairs that the row at position `pos` yields: none for a right row,
/// for a left row those from its own rank onward.
pub open spec fn yield_at<T1: Ord, T2: Ord>(pa: Predicate<T1>, pb: Predicate<T2>, pos: int) -> Seq<
    (int, int),
> {
    if pb.order()[pos] < pb.left.len() {
        drain(pa, pb, pos, pa.rank_of(pb.order()[pos]))
    } else {
        Seq::empty()
    }
}

/// What each position yields.
pub open spec fn yields<T1: Ord, T2: Ord>(pa: Predicate<T1>, pb: Predicate<T2>) -> spec_fn(
    int,
) -> Seq<(int, int)> {
    |pos: int| yield_at(pa, pb, pos)
}

/// The pairs that the rows from position `pos` onward yield.
pub open spec fn rows_from<T1: Ord, T2: Ord>(
    pa: Predicate<T1>,
    pb: Predicate<T2>,
    pos: int,
) -> Seq<(int, int)> {
    concat(pos, pb.rows() as int, yields(pa, pb))
}

/// The pairs of rows that the join yields, in the order it yields them. A
/// pair `(l, r)` stands for left row `l` and right row `r`.
pub open spec fn join_rows<T1: Ord, T2: Ord>(pa: Predicate<T1>, pb: Predicate<T2>) -> Seq<
    (int, int),
> {
    rows_from(pa, pb, 0)
}

/// The values that the join yields for a pair of rows: the right row's first
/// attribute and the left row's second attribute.
pub open spec fn pair_values<T1, T2>(pa: Predicate<T1>, pb: Predicate<T2>, m: (int, int)) -> (
    T1,
    T2,
) {
    (pa.right[m.1], pb.left[m.0])
}

/// The values that the join yields for each pair of rows.
pub open spec fn values_of<T1, T2>(pa: Predicate<T1>, pb: Predicate<T2>) -> spec_fn(
    (int, int),
) -> (T1, T2) {
    |m: (int, int)| pair_values(pa, pb, m)
}

/// The pairs of values that the join yields, in the order it yields them.
pub open spec fn join_pairs<T1: Ord, T2: Ord>(pa: Predicate<T1>, pb: Predicate<T2>) -> Seq<
    (T1, T2),
> {
    join_rows(pa, pb).map_values(values_of(pa, pb))
}

/// What is still to come when the join stands at position `pos` and its
/// scanner has `start` and `cursor`.
pub open spec fn pending<T1: Ord, T2: Ord>(
    pa: Predicate<T1>,
    pb: Predicate<T2>,
    pos: int,
    start: int,
    cursor: int,
) -> Seq<(int, int)> {
    if pos >= pb.rows() {
        Seq::empty()
    } else if pb.order()[pos] < pb.left.len() {
        let rank = pa.rank_of(pb.order()[pos]);
        let from = if start == rank {
            cursor
        } else {
            rank
        };
        drain(pa, pb, pos, from) + rows_from(pa, pb, pos + 1)
    } else {
        rows_from(pa, pb, pos + 1)
    }
}

/// The sorted order of a predicate lists every row once, and finds each row
/// at its rank.
pub proof fn lemma_order_is_permutation<T: Ord>(p: Predicate<T>)
    requires
        lawful::<T>(),
        p.rows() <= usize::MAX,
    ensures
        is_row_order(p.order(), p.left, p.right, p.op.direction()),
        is_permutation(p.order(), p.rows() as int),
        forall|row: usize|
            row < p.rows() ==> 0 <= #[trigger] p.rank_of(row) < p.rows() && p.order()[p.rank_of(
                row,
            )] == row,
        forall|rank: int|
            0 <= rank < p.rows() ==> p.rank_of(#[trigger] p.order()[rank]) == rank,
{
    lemma_row_order_sorted(p.left, p.right, p.op.direction());
    lemma_row_order_is_permutation(p.order(), p.left, p.right, p.op.direction());
    assert forall|row: usize| row < p.rows() implies 0 <= #[trigger] p.rank_of(row) < p.rows()
        && p.order()[p.rank_of(row)] == row by {
        assert(p.order().contains(row));
    }
    assert forall|rank: int| 0 <= rank < p.rows() implies p.rank_of(#[trigger] p.order()[rank])
        == rank by {
        lemma_index_of_unique(p.order(), rank);
    }
}

/// A walk that meets its first marked rank at `rank` yields that rank's pair
/// and then what the walk from the next rank yields.
pub proof fn lemma_drain_found<T1: Ord, T2: Ord>(
    pa: Predicate<T1>,
    pb: Predicate<T2>,
    pos: int,
    from: int,
    rank: int,
)
    requires
        from <= rank < pa.rows(),
        forall|k: int| from <= k < rank ==> !active(pa, pb, pos, k),
        active(pa, pb, pos, rank),
    ensures
        drain(pa, pb, pos, from) == seq![pair_at(pa, pb, pos, rank)] + drain(
            pa,
            pb,
            pos,
            rank + 1,
        ),
{
    lemma_collect_found(
        from,
        pa.rows() as int,
        marked(pa, pb, pos),
        paired(pa, pb, pos),
        rank,
    );
}

/// A walk that meets no marked rank yields nothing.
pub proof fn lemma_drain_exhausted<T1: Ord, T2: Ord>(
    pa: Predicate<T1>,
    pb: Predicate<T2>,
    pos: int,
    from: int,
)
    requires
        forall|k: int| from <= k < pa.rows() ==> !active(pa, pb, pos, k),
    ensures
        drain(pa, pb, pos, from) == Seq::<(int, int)>::empty(),
{
    lemma_collect_exhausted(from, pa.rows() as int, marked(pa, pb, pos), paired(pa, pb, pos));
}

/// Once the join moves on from position `pos`, with its scanner started at
/// the rank of the row there, what is still to come is what the rows after
/// `pos` yield.
pub proof fn lemma_pending_after_advance<T1: Ord, T2: Ord>(
    pa: Predicate<T1>,
    pb: Predicate<T2>,
    pos: int,
    cursor: int,
)
    requires
        lawful::<T1>(),
        lawful::<T2>(),
        compatible(pa, pb),
        pa.rows() <= usize::MAX,
        0 <= pos < pb.rows(),
    ensures
        pending(pa, pb, pos + 1, pa.rank_of(pb.order()[pos]), cursor) == rows_from(
            pa,
            pb,
            pos + 1,
        ),
{
    lemma_order_is_permutation(pa);
    lemma_order_is_permutation(pb);
    if pos + 1 < pb.rows() {
        let row = pb.order()[pos];
        let next = pb.order()[pos + 1];
        assert(row != next);
        assert(pa.order()[pa.rank_of(row)] == row);
        assert(pa.order()[pa.rank_of(next)] == next);
    }
}

} // verus!

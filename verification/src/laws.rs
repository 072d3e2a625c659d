//! What holds of every inequality join.
//!
//! The scan pairs a left row `l` with a right row `r` exactly when `l` sorts
//! strictly before `r` by the first attribute and not strictly before `r` by
//! the second. Where the first operator is strict and the second is not,
//! that is the conjunction of the two predicates.

use crate::model::{
    active, compatible, join_pairs, join_rows, lemma_order_is_permutation, marked, paired,
    values_of, yield_at, yields,
};
use crate::multisets::{lemma_map_values_multiset, lemma_same_elements_same_multiset};
use crate::nlj::{lemma_nested_loop_contains, lemma_nested_loop_no_duplicates, nested_loop};
use crate::order::{lawful, lemma_trichotomy};
use crate::predicate::Predicate;
use crate::ranges::{
    lemma_collect_contains, lemma_collect_no_duplicates, lemma_concat_contains,
    lemma_concat_no_duplicates,
};
use crate::rows::{earlier, lemma_row_before_strict, row_before};
use vstd::prelude::*;

verus! {

/// The positions `0 .. n`.
pub open spec fn positions(n: nat) -> Seq<int> {
    Seq::new(n, |i: int| i)
}

/// `l` is a left row and `r` is a right row.
pub open spec fn in_range<T1, T2>(pa: Predicate<T1>, pb: Predicate<T2>, l: int, r: int) -> bool {
    0 <= l < pa.left.len() && 0 <= r < pa.right.len()
}

/// Right row `r` stands before left row `l` in the order of the second
/// attribute: it has been looked at, and its rank marked, by the time `l` is
/// looked at.
pub open spec fn candidate<T1: Ord, T2: Ord>(
    pa: Predicate<T1>,
    pb: Predicate<T2>,
    l: int,
    r: int,
) -> bool {
    pb.rank_of((pb.left.len() + r) as usize) < pb.rank_of(l as usize)
}

/// Right row `r` has a rank, in the order of the first attribute, that the
/// walk from left row `l`'s rank reaches.
pub open spec fn reachable<T1: Ord, T2: Ord>(
    pa: Predicate<T1>,
    pb: Predicate<T2>,
    l: int,
    r: int,
) -> bool {
    pa.rank_of(l as usize) <= pa.rank_of((pa.left.len() + r) as usize)
}

/// The relation that the scan decides: `l` sorts strictly before `r` by the
/// first attribute, and not strictly before `r` by the second.
pub open spec fn scan_matches<T1: Ord, T2: Ord>(
    pa: Predicate<T1>,
    pb: Predicate<T2>,
    l: int,
    r: int,
) -> bool {
    &&& earlier(pa.op.direction(), pa.left[l], pa.right[r])
    &&& !earlier(pb.op.direction(), pb.left[l], pb.right[r])
}

/// Both predicates hold between left row `l` and right row `r`.
pub open spec fn both_hold<T1: Ord, T2: Ord>(
    pa: Predicate<T1>,
    pb: Predicate<T2>,
    l: int,
    r: int,
) -> bool {
    pa.op.holds(pa.left[l], pa.right[r]) && pb.op.holds(pb.left[l], pb.right[r])
}

/// `both_hold` as a relation on rows.
pub open spec fn conjunction<T1: Ord, T2: Ord>(pa: Predicate<T1>, pb: Predicate<T2>) -> spec_fn(
    int,
    int,
) -> bool {
    |l: int, r: int| both_hold(pa, pb, l, r)
}

/// `scan_matches` as a relation on rows.
pub open spec fn scan_relation<T1: Ord, T2: Ord>(pa: Predicate<T1>, pb: Predicate<T2>) -> spec_fn(
    int,
    int,
) -> bool {
    |l: int, r: int| scan_matches(pa, pb, l, r)
}

/// The pairs of rows that a nested loop over all rows finds to satisfy both
/// predicates.
pub open spec fn brute_force_rows<T1: Ord, T2: Ord>(pa: Predicate<T1>, pb: Predicate<T2>) -> Seq<
    (int, int),
> {
    nested_loop(positions(pa.left.len()), positions(pa.right.len()), conjunction(pa, pb))
}

/// The values of the pairs that a nested loop over all rows finds to satisfy
/// both predicates.
pub open spec fn brute_force_pairs<T1: Ord, T2: Ord>(pa: Predicate<T1>, pb: Predicate<T2>) -> Seq<
    (T1, T2),
> {
    brute_force_rows(pa, pb).map_values(values_of(pa, pb))
}

/// A row has a smaller rank than another exactly when it sorts before it.
pub proof fn lemma_rank_order<T: Ord>(p: Predicate<T>, c: usize, d: usize)
    requires
        lawful::<T>(),
        p.rows() <= usize::MAX,
        c < p.rows(),
        d < p.rows(),
    ensures
        p.rank_of(c) < p.rank_of(d) <==> row_before(
            p.left,
            p.right,
            p.op.direction(),
            c as int,
            d as int,
        ),
        p.rank_of(c) == p.rank_of(d) <==> c == d,
{
    lemma_order_is_permutation(p);
    lemma_row_before_strict(p.left, p.right, p.op.direction(), c as int, d as int);
    lemma_row_before_strict(p.left, p.right, p.op.direction(), d as int, c as int);
    let i = p.rank_of(c);
    let j = p.rank_of(d);
    assert(p.order()[i] == c && p.order()[j] == d);
    if i < j {
        assert(row_before(p.left, p.right, p.op.direction(), c as int, d as int));
    } else if j < i {
        assert(row_before(p.left, p.right, p.op.direction(), d as int, c as int));
    }
}

/// What a position yields pairs the row at that position, a left row, with
/// right rows.
proof fn lemma_yield_at_contains<T1: Ord, T2: Ord>(
    pa: Predicate<T1>,
    pb: Predicate<T2>,
    pos: int,
    x: (int, int),
)
    requires
        lawful::<T1>(),
        lawful::<T2>(),
        compatible(pa, pb),
        pa.rows() <= usize::MAX,
        0 <= pos < pb.rows(),
    ensures
        yield_at(pa, pb, pos).contains(x) <==> {
            &&& in_range(pa, pb, x.0, x.1)
            &&& x.0 == pb.order()[pos]
            &&& candidate(pa, pb, x.0, x.1)
            &&& reachable(pa, pb, x.0, x.1)
        },
{
    lemma_order_is_permutation(pa);
    lemma_order_is_permutation(pb);
    let n = pa.rows() as int;
    let nl = pa.left.len();
    let row = pb.order()[pos];
    let keep = marked(pa, pb, pos);
    let emit = paired(pa, pb, pos);
    let from = pa.rank_of(row);
    lemma_collect_contains(from, n, keep, emit, x);
    assert(pb.rank_of(row) == pos);
    if yield_at(pa, pb, pos).contains(x) {
        assert(row < nl);
        let rank = choose|k: int| from <= k < n && #[trigger] keep(k) && emit(k) == x;
        assert(active(pa, pb, pos, rank));
        let other = pa.order()[rank];
        let k = choose|k: int| 0 <= k < pos && #[trigger] pb.order()[k] == other;
        assert(pb.rank_of(other) == k);
        assert(pa.rank_of(other) == rank);
        assert(other == (nl + x.1) as usize);
    }
    if in_range(pa, pb, x.0, x.1) && x.0 == row && candidate(pa, pb, x.0, x.1) && reachable(
        pa,
        pb,
        x.0,
        x.1,
    ) {
        let other = (nl + x.1) as usize;
        let rank = pa.rank_of(other);
        let k = pb.rank_of(other);
        assert(pb.order()[k] == other);
        assert(active(pa, pb, pos, rank));
        assert(keep(rank) && emit(rank) == x);
    }
}

/// The join yields the pair of left row `l` and right row `r` exactly when
/// `r` is a candidate by the time `l` is looked at and the walk from `l`'s
/// rank reaches `r`'s rank.
pub proof fn lemma_join_rows_contains<T1: Ord, T2: Ord>(
    pa: Predicate<T1>,
    pb: Predicate<T2>,
    l: int,
    r: int,
)
    requires
        lawful::<T1>(),
        lawful::<T2>(),
        compatible(pa, pb),
        pa.rows() <= usize::MAX,
    ensures
        join_rows(pa, pb).contains((l, r)) <==> in_range(pa, pb, l, r) && candidate(pa, pb, l, r)
            && reachable(pa, pb, l, r),
{
    lemma_order_is_permutation(pa);
    lemma_order_is_permutation(pb);
    let n = pb.rows() as int;
    let parts = yields(pa, pb);
    lemma_concat_contains(0, n, parts, (l, r));
    if join_rows(pa, pb).contains((l, r)) {
        let pos = choose|pos: int| 0 <= pos < n && (#[trigger] parts(pos)).contains((l, r));
        lemma_yield_at_contains(pa, pb, pos, (l, r));
    }
    if in_range(pa, pb, l, r) && candidate(pa, pb, l, r) && reachable(pa, pb, l, r) {
        let pos = pb.rank_of(l as usize);
        lemma_yield_at_contains(pa, pb, pos, (l, r));
        assert(parts(pos).contains((l, r)));
    }
}

/// A right row is a candidate for a left row and is reached from it exactly
/// when the scan relation holds between the two.
pub proof fn lemma_candidate_and_reachable<T1: Ord, T2: Ord>(
    pa: Predicate<T1>,
    pb: Predicate<T2>,
    l: int,
    r: int,
)
    requires
        lawful::<T1>(),
        lawful::<T2>(),
        compatible(pa, pb),
        pa.rows() <= usize::MAX,
        in_range(pa, pb, l, r),
    ensures
        candidate(pa, pb, l, r) && reachable(pa, pb, l, r) <==> scan_matches(pa, pb, l, r),
{
    let nl = pa.left.len();
    let lrow = l as usize;
    let rrow = (nl + r) as usize;
    lemma_rank_order(pa, lrow, rrow);
    lemma_rank_order(pb, rrow, lrow);
    lemma_trichotomy(pb.left[l], pb.right[r]);
    lemma_trichotomy(pb.right[r], pb.left[l]);
}

/// The join yields no pair of rows twice.
pub proof fn lemma_join_rows_no_duplicates<T1: Ord, T2: Ord>(
    pa: Predicate<T1>,
    pb: Predicate<T2>,
)
    requires
        lawful::<T1>(),
        lawful::<T2>(),
        compatible(pa, pb),
        pa.rows() <= usize::MAX,
    ensures
        join_rows(pa, pb).no_duplicates(),
{
    lemma_order_is_permutation(pa);
    lemma_order_is_permutation(pb);
    let n = pb.rows() as int;
    let parts = yields(pa, pb);
    assert forall|pos: int| 0 <= pos < n implies (#[trigger] parts(pos)).no_duplicates() by {
        if pb.order()[pos] < pb.left.len() {
            let keep = marked(pa, pb, pos);
            let emit = paired(pa, pb, pos);
            let from = pa.rank_of(pb.order()[pos]);
            assert forall|j: int, k: int|
                from <= j < k < n && #[trigger] keep(j) && #[trigger] keep(k) implies emit(j)
                != emit(k) by {
                assert(pa.order()[j] != pa.order()[k]);
            }
            lemma_collect_no_duplicates(from, n, keep, emit);
        }
    }
    assert forall|p: int, q: int, x: (int, int)|
        0 <= p < q < n && #[trigger] parts(p).contains(x) implies !#[trigger] parts(q).contains(
            x,
        ) by {
        lemma_yield_at_contains(pa, pb, p, x);
        lemma_yield_at_contains(pa, pb, q, x);
        assert(pb.order()[p] != pb.order()[q]);
    }
    lemma_concat_no_duplicates(0, n, parts);
}

/// As a multiset, what the join yields is what a nested loop over all rows
/// yields under any relation that agrees with the scan relation.
pub proof fn lemma_join_is_nested_loop<T1: Ord, T2: Ord>(
    pa: Predicate<T1>,
    pb: Predicate<T2>,
    f: spec_fn(int, int) -> bool,
)
    requires
        lawful::<T1>(),
        lawful::<T2>(),
        compatible(pa, pb),
        pa.rows() <= usize::MAX,
        forall|l: int, r: int|
            in_range(pa, pb, l, r) ==> #[trigger] f(l, r) == scan_matches(pa, pb, l, r),
    ensures
        join_rows(pa, pb).to_multiset() == nested_loop(
            positions(pa.left.len()),
            positions(pa.right.len()),
            f,
        ).to_multiset(),
        join_pairs(pa, pb).to_multiset() == nested_loop(
            positions(pa.left.len()),
            positions(pa.right.len()),
            f,
        ).map_values(values_of(pa, pb)).to_multiset(),
{
    let ls = positions(pa.left.len());
    let rs = positions(pa.right.len());
    let found = join_rows(pa, pb);
    let brute = nested_loop(ls, rs, f);
    lemma_join_rows_no_duplicates(pa, pb);
    lemma_nested_loop_no_duplicates(ls, rs, f);
    assert forall|x: (int, int)| found.contains(x) <==> brute.contains(x) by {
        lemma_join_rows_contains(pa, pb, x.0, x.1);
        lemma_nested_loop_contains(ls, rs, f, x);
        if in_range(pa, pb, x.0, x.1) {
            lemma_candidate_and_reachable(pa, pb, x.0, x.1);
            assert(ls[x.0] == x.0);
            assert(rs[x.1] == x.1);
        }
        if ls.contains(x.0) && rs.contains(x.1) {
            let i = choose|i: int| 0 <= i < ls.len() && ls[i] == x.0;
            let j = choose|j: int| 0 <= j < rs.len() && rs[j] == x.1;
            assert(in_range(pa, pb, x.0, x.1));
        }
    }
    lemma_same_elements_same_multiset(found, brute);
    lemma_map_values_multiset(found, brute, values_of(pa, pb));
}

/// As a multiset, the join yields what a nested loop over all rows yields
/// under the scan relation.
pub proof fn lemma_join_is_scan<T1: Ord, T2: Ord>(pa: Predicate<T1>, pb: Predicate<T2>)
    requires
        lawful::<T1>(),
        lawful::<T2>(),
        compatible(pa, pb),
        pa.rows() <= usize::MAX,
    ensures
        join_pairs(pa, pb).to_multiset() == nested_loop(
            positions(pa.left.len()),
            positions(pa.right.len()),
            scan_relation(pa, pb),
        ).map_values(values_of(pa, pb)).to_multiset(),
{
    lemma_join_is_nested_loop(pa, pb, scan_relation(pa, pb));
}

/// Where the first operator is strict and the second is not, the join
/// yields, as a multiset, what a nested loop finds to satisfy both
/// predicates.
pub proof fn lemma_join_is_brute_force<T1: Ord, T2: Ord>(pa: Predicate<T1>, pb: Predicate<T2>)
    requires
        lawful::<T1>(),
        lawful::<T2>(),
        compatible(pa, pb),
        pa.rows() <= usize::MAX,
        pa.op.is_strict(),
        !pb.op.is_strict(),
    ensures
        join_rows(pa, pb).to_multiset() == brute_force_rows(pa, pb).to_multiset(),
        join_pairs(pa, pb).to_multiset() == brute_force_pairs(pa, pb).to_multiset(),
{
    lemma_join_is_nested_loop(pa, pb, conjunction(pa, pb));
}

/// A join with no left rows or no right rows yields nothing.
pub proof fn lemma_empty_side<T1: Ord, T2: Ord>(pa: Predicate<T1>, pb: Predicate<T2>)
    requires
        lawful::<T1>(),
        lawful::<T2>(),
        compatible(pa, pb),
        pa.rows() <= usize::MAX,
        pa.left.len() == 0 || pa.right.len() == 0,
    ensures
        join_rows(pa, pb) == Seq::<(int, int)>::empty(),
        join_pairs(pa, pb) == Seq::<(T1, T2)>::empty(),
{
    let found = join_rows(pa, pb);
    if found.len() > 0 {
        let x = found[0];
        assert(found.contains(x));
        lemma_join_rows_contains(pa, pb, x.0, x.1);
    }
    assert(found =~= Seq::<(int, int)>::empty());
    assert(join_pairs(pa, pb) =~= Seq::<(T1, T2)>::empty());
}

} // verus!

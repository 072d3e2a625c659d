//! The two sorted unions a join is built from.
//!
//! The primary union holds every row's first attribute in sorted order and
//! yields the rank permutation; the secondary union holds every row's second
//! attribute in its own sorted order, each entry tagged with the rank its row
//! has in the primary union.

use crate::order::lawful;
use crate::predicate::SortOrder;
use crate::rows::{key_at, local_of, side_of, Side};
use crate::sorting::{is_permutation, lemma_row_order_sorted, row_order, sort_rows};
use vstd::prelude::*;

verus! {

/// The primary union's entry for row `c`: its key, its side, and its position
/// within that side.
pub open spec fn primary_entry<T>(left: Seq<T>, right: Seq<T>, c: usize) -> (T, Side, usize) {
    (
        key_at(left, right, c as int),
        side_of(left.len() as int, c as int),
        local_of(left.len() as int, c as int) as usize,
    )
}

/// The primary union of a column: the entries of all rows, in sorted order.
pub open spec fn primary_union<T: Ord>(left: Seq<T>, right: Seq<T>, order: SortOrder) -> Seq<
    (T, Side, usize),
> {
    row_order(left, right, order).map_values(|c: usize| primary_entry(left, right, c))
}

/// The secondary union's entry for row `c`: its key and the rank that
/// `permutation` gives the row.
pub open spec fn secondary_entry<T>(
    left: Seq<T>,
    right: Seq<T>,
    permutation: Seq<usize>,
    c: usize,
) -> (T, usize) {
    (key_at(left, right, c as int), permutation.index_of(c) as usize)
}

/// The secondary union of a column: the entries of all rows, in sorted order.
pub open spec fn secondary_union<T: Ord>(
    left: Seq<T>,
    right: Seq<T>,
    order: SortOrder,
    permutation: Seq<usize>,
) -> Seq<(T, usize)> {
    row_order(left, right, order).map_values(
        |c: usize| secondary_entry(left, right, permutation, c),
    )
}

/// In a sequence without duplicates, an element is found where it stands.
pub proof fn lemma_index_of_unique(s: Seq<usize>, i: int)
    requires
        s.no_duplicates(),
        0 <= i < s.len(),
    ensures
        s.index_of(s[i]) == i,
{
    let k = s.index_of(s[i]);
    assert(0 <= k < s.len() && s[k] == s[i]);
}

/// All rows' first attribute, sorted.
#[derive(Debug)]
pub struct L1Union<T> {
    /// For each rank: the key, the side and the position within the side of
    /// the row at that rank.
    pub values: Vec<(T, Side, usize)>,
}

impl<T> L1Union<T> where T: Ord + Copy {
    /// Sorts the rows of both sides by their first attribute. Returns the
    /// rank permutation (for each rank, the row at that rank) and the sorted
    /// union.
    pub fn union_and_sort(left: Vec<T>, right: Vec<T>, order: SortOrder) -> (out: (
        Vec<usize>,
        Self,
    ))
        requires
            lawful::<T>(),
            left.len() + right.len() <= usize::MAX,
        ensures
            out.0@ == row_order(left@, right@, order),
            out.1.values@ == primary_union(left@, right@, order),
    {
        let idxs = sort_rows(&left, &right, order);
        proof {
            lemma_row_order_sorted(left@, right@, order);
        }
        let nl = left.len();
        let mut values: Vec<(T, Side, usize)> = Vec::new();
        let mut rank: usize = 0;
        while rank < idxs.len()
            invariant
                idxs@ == row_order(left@, right@, order),
                idxs.len() == left.len() + right.len(),
                forall|i: int| 0 <= i < idxs.len() ==> 0 <= #[trigger] idxs[i] < idxs.len(),
                nl == left.len(),
                rank <= idxs.len(),
                values.len() == rank,
                forall|k: int|
                    0 <= k < rank ==> #[trigger] values[k] == primary_entry(
                        left@,
                        right@,
                        idxs[k],
                    ),
            decreases idxs.len() - rank,
        {
            let c = idxs[rank];
            let entry = if c < nl {
                (left[c], Side::Left, c)
            } else {
                (right[c - nl], Side::Right, c - nl)
            };
            values.push(entry);
            rank += 1;
        }
        assert(values@ =~= primary_union(left@, right@, order));
        (idxs, L1Union { values })
    }
}

/// All rows' second attribute, sorted, each with its row's rank in the
/// primary union.
#[derive(Debug)]
pub struct L2Union<T> {
    /// For each position: the key of the row at that position and the rank
    /// of that row in the primary union.
    pub values: Vec<(T, usize)>,
}

impl<T> L2Union<T> where T: Ord + Copy {
    /// Sorts the rows of both sides by their second attribute and tags each
    /// with the rank that `permutations`, the rank permutation of the primary
    /// union, gives it.
    pub fn union_and_sort_with_permutations(
        left: Vec<T>,
        right: Vec<T>,
        order: SortOrder,
        permutations: Vec<usize>,
    ) -> (out: Self)
        requires
            lawful::<T>(),
            left.len() + right.len() <= usize::MAX,
            is_permutation(permutations@, left.len() + right.len()),
        ensures
            out.values@ == secondary_union(left@, right@, order, permutations@),
    {
        let n = permutations.len();
        let nl = left.len();
        let mut ranks: Vec<usize> = Vec::new();
        let mut c: usize = 0;
        while c < n
            invariant
                c <= n,
                ranks.len() == c,
            decreases n - c,
        {
            ranks.push(0);
            c += 1;
        }
        let mut rank: usize = 0;
        while rank < n
            invariant
                n == permutations.len(),
                ranks.len() == n,
                is_permutation(permutations@, n as int),
                rank <= n,
                forall|k: int| 0 <= k < rank ==> ranks[permutations[k] as int] == k,
            decreases n - rank,
        {
            let row = permutations[rank];
            ranks.set(row, rank);
            rank += 1;
        }
        proof {
            assert forall|row: usize| row < n implies ranks[row as int]
                == permutations@.index_of(row) by {
                assert(permutations@.contains(row));
                let k = permutations@.index_of(row);
                assert(ranks[permutations[k] as int] == k);
            }
        }
        let idxs = sort_rows(&left, &right, order);
        proof {
            lemma_row_order_sorted(left@, right@, order);
        }
        let mut values: Vec<(T, usize)> = Vec::new();
        let mut pos: usize = 0;
        while pos < n
            invariant
                idxs@ == row_order(left@, right@, order),
                idxs.len() == n,
                n == left.len() + right.len(),
                nl == left.len(),
                ranks.len() == n,
                forall|i: int| 0 <= i < idxs.len() ==> 0 <= #[trigger] idxs[i] < n,
                forall|row: usize| row < n ==> ranks[row as int] == permutations@.index_of(row),
                pos <= n,
                values.len() == pos,
                forall|k: int|
                    0 <= k < pos ==> #[trigger] values[k] == secondary_entry(
                        left@,
                        right@,
                        permutations@,
                        idxs[k],
                    ),
            decreases n - pos,
        {
            let row = idxs[pos];
            let key = if row < nl {
                left[row]
            } else {
                right[row - nl]
            };
            values.push((key, ranks[row]));
            pos += 1;
        }
        assert(values@ =~= secondary_union(left@, right@, order, permutations@));
        L2Union { values }
    }
}

} // verus!

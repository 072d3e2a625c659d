//! Rows of the union of both sides, and the order a column sorts them in.
//!
//! A row is addressed by its position in the concatenation of the left rows
//! followed by the right rows. Rows whose keys compare as equal are ordered
//! right side first, then by position, so the order of rows is total.

use crate::order::{
    compare, eqv, lawful, lemma_eqv_lt, lemma_eqv_transitive, lemma_lt_eqv, lemma_lt_transitive,
    lemma_trichotomy, lt,
};
use crate::predicate::SortOrder;
use vstd::prelude::*;

verus! {

/// The input a row came from.
#[derive(Debug, Clone, Copy, PartialEq, Eq, Structural)]
pub enum Side {
    /// The left input.
    Left,
    /// The right input.
    Right,
}

impl Side {
    /// Whether this is the right side.
    pub fn is_right(&self) -> (b: bool)
        ensures
            b == (*self == Side::Right),
    {
        matches!(self, Side::Right)
    }
}

/// The side of row `c` when there are `nl` left rows.
pub open spec fn side_of(nl: int, c: int) -> Side {
    if c < nl {
        Side::Left
    } else {
        Side::Right
    }
}

/// The position of row `c` within its own side.
pub open spec fn local_of(nl: int, c: int) -> int {
    if c < nl {
        c
    } else {
        c - nl
    }
}

/// The key of row `c`.
pub open spec fn key_at<T>(left: Seq<T>, right: Seq<T>, c: int) -> T {
    if c < left.len() {
        left[c]
    } else {
        right[c - left.len()]
    }
}

/// `a` sorts strictly before `b` in direction `order`.
pub open spec fn earlier<T: Ord>(order: SortOrder, a: T, b: T) -> bool {
    match order {
        SortOrder::Asc => lt(a, b),
        SortOrder::Desc => lt(b, a),
    }
}

/// Among rows with equal keys: right rows first, then by position.
pub open spec fn tie_before(nl: int, c: int, d: int) -> bool {
    if (c < nl) == (d < nl) {
        c < d
    } else {
        d < nl
    }
}

/// Row `c` sorts before row `d`.
pub open spec fn row_before<T: Ord>(
    left: Seq<T>,
    right: Seq<T>,
    order: SortOrder,
    c: int,
    d: int,
) -> bool {
    let a = key_at(left, right, c);
    let b = key_at(left, right, d);
    earlier(order, a, b) || (eqv(a, b) && tie_before(left.len() as int, c, d))
}

/// No row sorts before itself, no two rows sort before each other, and of
/// two different rows one sorts before the other.
pub proof fn lemma_row_before_strict<T: Ord>(
    left: Seq<T>,
    right: Seq<T>,
    order: SortOrder,
    c: int,
    d: int,
)
    requires
        lawful::<T>(),
    ensures
        !row_before(left, right, order, c, c),
        row_before(left, right, order, c, d) ==> !row_before(left, right, order, d, c),
        c != d ==> row_before(left, right, order, c, d) || row_before(left, right, order, d, c),
{
    let a = key_at(left, right, c);
    let b = key_at(left, right, d);
    lemma_trichotomy(a, a);
    lemma_trichotomy(a, b);
    lemma_trichotomy(b, a);
}

/// Sorting before is transitive.
pub proof fn lemma_row_before_transitive<T: Ord>(
    left: Seq<T>,
    right: Seq<T>,
    order: SortOrder,
    c: int,
    d: int,
    e: int,
)
    requires
        lawful::<T>(),
        row_before(left, right, order, c, d),
        row_before(left, right, order, d, e),
    ensures
        row_before(left, right, order, c, e),
{
    let x = key_at(left, right, c);
    let y = key_at(left, right, d);
    let z = key_at(left, right, e);
    if earlier(order, x, y) {
        if earlier(order, y, z) {
            match order {
                SortOrder::Asc => lemma_lt_transitive(x, y, z),
                SortOrder::Desc => lemma_lt_transitive(z, y, x),
            }
        } else {
            match order {
                SortOrder::Asc => lemma_lt_eqv(x, y, z),
                SortOrder::Desc => {
                    lemma_trichotomy(y, z);
                    lemma_eqv_lt(z, y, x);
                },
            }
        }
    } else {
        if earlier(order, y, z) {
            match order {
                SortOrder::Asc => lemma_eqv_lt(x, y, z),
                SortOrder::Desc => {
                    lemma_trichotomy(x, y);
                    lemma_lt_eqv(z, y, x);
                },
            }
        } else {
            lemma_eqv_transitive(x, y, z);
        }
    }
}

/// Whether row `c` sorts before row `d`.
pub fn row_comes_before<T: Ord>(
    left: &Vec<T>,
    right: &Vec<T>,
    order: SortOrder,
    c: usize,
    d: usize,
) -> (b: bool)
    requires
        lawful::<T>(),
        c < left.len() + right.len(),
        d < left.len() + right.len(),
    ensures
        b == row_before(left@, right@, order, c as int, d as int),
{
    let nl = left.len();
    let a = if c < nl { &left[c] } else { &right[c - nl] };
    let b = if d < nl { &left[d] } else { &right[d - nl] };
    let (less, same) = match order {
        SortOrder::Asc => compare(a, b),
        SortOrder::Desc => compare(b, a),
    };
    proof {
        lemma_trichotomy(*a, *b);
    }
    if less {
        true
    } else if same {
        if (c < nl) == (d < nl) {
            c < d
        } else {
            d < nl
        }
    } else {
        false
    }
}

} // verus!

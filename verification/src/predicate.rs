//! Join predicates: a comparison operator and the two columns it relates.

use crate::order::lt;
use vstd::prelude::*;

verus! {

/// A comparison between a left value and a right value.
#[derive(Debug, Clone, Copy, PartialEq, Eq, Structural)]
pub enum CmpOp {
    /// `<`
    Lt,
    /// `<=`
    LtEq,
    /// `>`
    Gt,
    /// `>=`
    GtEq,
}

/// The direction in which a column is sorted.
#[derive(Debug, Clone, Copy, PartialEq, Eq, Structural)]
pub enum SortOrder {
    /// Smaller values first.
    Asc,
    /// Larger values first.
    Desc,
}

impl CmpOp {
    /// Whether `a op b` holds.
    pub open spec fn holds<T: Ord>(self, a: T, b: T) -> bool {
        match self {
            CmpOp::Lt => lt(a, b),
            CmpOp::LtEq => !lt(b, a),
            CmpOp::Gt => lt(b, a),
            CmpOp::GtEq => !lt(a, b),
        }
    }

    /// Whether the operator rejects values that compare as equal.
    pub open spec fn is_strict(self) -> bool {
        self is Lt || self is Gt
    }

    /// The direction the operator's columns are sorted in: descending for
    /// `>` and `<=`, ascending for `<` and `>=`.
    pub open spec fn direction(self) -> SortOrder {
        match self {
            CmpOp::Gt | CmpOp::LtEq => SortOrder::Desc,
            CmpOp::Lt | CmpOp::GtEq => SortOrder::Asc,
        }
    }

    /// The direction the operator's columns are sorted in.
    pub fn sort_order(&self) -> (order: SortOrder)
        ensures
            order == self.direction(),
    {
        match self {
            CmpOp::Gt | CmpOp::LtEq => SortOrder::Desc,
            _ => SortOrder::Asc,
        }
    }
}

/// One inequality condition of a join: `left[l] op right[r]`.
#[derive(Debug)]
pub struct JoinPredicate<T> {
    /// The comparison.
    pub op: CmpOp,
    /// The attribute's value in each left row.
    pub left: Vec<T>,
    /// The attribute's value in each right row.
    pub right: Vec<T>,
}

/// The mathematical content of a [`JoinPredicate`].
pub ghost struct Predicate<T> {
    /// The comparison.
    pub op: CmpOp,
    /// The attribute's value in each left row.
    pub left: Seq<T>,
    /// The attribute's value in each right row.
    pub right: Seq<T>,
}

impl<T> Predicate<T> {
    /// Number of rows on both sides together.
    pub open spec fn rows(self) -> nat {
        self.left.len() + self.right.len()
    }
}

impl<T> View for JoinPredicate<T> {
    type V = Predicate<T>;

    open spec fn view(&self) -> Predicate<T> {
        Predicate { op: self.op, left: self.left@, right: self.right@ }
    }
}

impl<T> JoinPredicate<T> where T: Ord {
    /// A predicate comparing `left` values with `right` values by `op`.
    pub fn new(op: CmpOp, left: Vec<T>, right: Vec<T>) -> (p: Self)
        ensures
            p@ == (Predicate { op, left: left@, right: right@ }),
    {
        JoinPredicate { op, left, right }
    }
}

} // verus!

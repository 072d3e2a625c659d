//! Inequality joins: pairing the rows of two relations under two ordering
//! predicates, with a sort-based scan and a quadratic nested-loop fallback.

pub mod iejoin;
pub mod laws;
pub mod model;
pub mod multisets;
pub mod nlj;
pub mod order;
pub mod predicate;
pub mod ranges;
pub mod rows;
pub mod scanner;
pub mod sorting;
pub mod union;

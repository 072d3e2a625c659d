//! The total order that join values are compared by.
//!
//! Everything else in this crate speaks of values through [`lt`] and [`eqv`];
//! this module ties them to `Ord` and proves the order laws they obey.

use core::cmp::Ordering;
use vstd::laws_cmp::{obeys_cmp, obeys_cmp_ord, obeys_cmp_partial_ord, obeys_partial_cmp_spec_properties};
use vstd::laws_eq::obeys_eq_spec_properties;
use vstd::prelude::*;
use vstd::std_specs::cmp::{OrdSpec, PartialEqSpec, PartialOrdSpec};

verus! {

/// `T`'s comparison is a total order, and `cmp` returns what the order says.
pub open spec fn lawful<T: Ord>() -> bool {
    obeys_cmp::<T>()
}

/// `a` is strictly smaller than `b`.
pub open spec fn lt<T: Ord>(a: T, b: T) -> bool {
    a.cmp_spec(&b) == Ordering::Less
}

/// `a` and `b` compare as equal.
pub open spec fn eqv<T: Ord>(a: T, b: T) -> bool {
    a.cmp_spec(&b) == Ordering::Equal
}

/// Exactly one of `a < b`, `a ~ b`, `b < a` holds.
pub proof fn lemma_trichotomy<T: Ord>(a: T, b: T)
    requires
        lawful::<T>(),
    ensures
        lt(a, b) || eqv(a, b) || lt(b, a),
        !(lt(a, b) && eqv(a, b)),
        !(lt(a, b) && lt(b, a)),
        !(eqv(a, b) && lt(b, a)),
        eqv(a, b) == eqv(b, a),
{
    reveal(obeys_cmp_ord);
    reveal(obeys_cmp_partial_ord);
    reveal(obeys_partial_cmp_spec_properties);
    reveal(obeys_eq_spec_properties);
    assert(a.partial_cmp_spec(&b) == Some(a.cmp_spec(&b)));
    assert(b.partial_cmp_spec(&a) == Some(b.cmp_spec(&a)));
    assert(a.eq_spec(&b) == b.eq_spec(&a));
}

/// Every value compares as equal to itself.
pub proof fn lemma_eqv_reflexive<T: Ord>(a: T)
    requires
        lawful::<T>(),
    ensures
        eqv(a, a),
{
    lemma_trichotomy(a, a);
}

/// Values that compare as equal to a common value compare as equal.
pub proof fn lemma_eqv_transitive<T: Ord>(a: T, b: T, c: T)
    requires
        lawful::<T>(),
        eqv(a, b),
        eqv(b, c),
    ensures
        eqv(a, c),
{
    reveal(obeys_cmp_ord);
    reveal(obeys_cmp_partial_ord);
    reveal(obeys_partial_cmp_spec_properties);
    reveal(obeys_eq_spec_properties);
    assert(a.partial_cmp_spec(&b) == Some(a.cmp_spec(&b)));
    assert(b.partial_cmp_spec(&c) == Some(b.cmp_spec(&c)));
    assert(a.partial_cmp_spec(&c) == Some(a.cmp_spec(&c)));
    assert(a.eq_spec(&b));
    assert(b.eq_spec(&c));
    assert(a.eq_spec(&c));
}

/// `<` is transitive.
pub proof fn lemma_lt_transitive<T: Ord>(a: T, b: T, c: T)
    requires
        lawful::<T>(),
        lt(a, b),
        lt(b, c),
    ensures
        lt(a, c),
{
    reveal(obeys_cmp_ord);
    reveal(obeys_partial_cmp_spec_properties);
    assert(a.partial_cmp_spec(&b) == Some(a.cmp_spec(&b)));
    assert(b.partial_cmp_spec(&c) == Some(b.cmp_spec(&c)));
    assert(a.partial_cmp_spec(&c) == Some(a.cmp_spec(&c)));
}

/// `<` does not tell apart values that compare as equal, on its right side.
pub proof fn lemma_lt_eqv<T: Ord>(a: T, b: T, c: T)
    requires
        lawful::<T>(),
        lt(a, b),
        eqv(b, c),
    ensures
        lt(a, c),
{
    lemma_trichotomy(a, c);
    lemma_trichotomy(a, b);
    lemma_trichotomy(b, c);
    if eqv(a, c) {
        lemma_eqv_transitive(a, c, b);
    } else if lt(c, a) {
        lemma_lt_transitive(c, a, b);
    }
}

/// `<` does not tell apart values that compare as equal, on its left side.
pub proof fn lemma_eqv_lt<T: Ord>(a: T, b: T, c: T)
    requires
        lawful::<T>(),
        eqv(a, b),
        lt(b, c),
    ensures
        lt(a, c),
{
    lemma_trichotomy(a, c);
    lemma_trichotomy(a, b);
    lemma_trichotomy(b, c);
    if eqv(a, c) {
        lemma_eqv_transitive(b, a, c);
    } else if lt(c, a) {
        lemma_lt_transitive(b, c, a);
    }
}

/// Three-way comparison of two values, as the pair (`a < b`, `a ~ b`).
pub fn compare<T: Ord>(a: &T, b: &T) -> (r: (bool, bool))
    requires
        lawful::<T>(),
    ensures
        r.0 == lt(*a, *b),
        r.1 == eqv(*a, *b),
{
    proof {
        reveal(obeys_cmp_ord);
    }
    match a.cmp(b) {
        Ordering::Less => (true, false),
        Ordering::Equal => (false, true),
        Ordering::Greater => (false, false),
    }
}

} // verus!

//! Sequences gathered by walking a range of integers.

use vstd::prelude::*;

verus! {

/// For each `k` in `from .. to` with `keep(k)`, in rising order: `emit(k)`.
pub open spec fn collect<X>(
    from: int,
    to: int,
    keep: spec_fn(int) -> bool,
    emit: spec_fn(int) -> X,
) -> Seq<X>
    decreases to - from,
{
    if from >= to {
        Seq::empty()
    } else if keep(from) {
        seq![emit(from)] + collect(from + 1, to, keep, emit)
    } else {
        collect(from + 1, to, keep, emit)
    }
}

/// `part(from)`, `part(from + 1)`, ..., `part(to - 1)`, one after another.
pub open spec fn concat<X>(from: int, to: int, part: spec_fn(int) -> Seq<X>) -> Seq<X>
    decreases to - from,
{
    if from >= to {
        Seq::empty()
    } else {
        part(from) + concat(from + 1, to, part)
    }
}

/// A walk whose first kept index is `at` gathers `emit(at)` and then what
/// the walk from `at + 1` gathers.
pub proof fn lemma_collect_found<X>(
    from: int,
    to: int,
    keep: spec_fn(int) -> bool,
    emit: spec_fn(int) -> X,
    at: int,
)
    requires
        from <= at < to,
        keep(at),
        forall|k: int| from <= k < at ==> !#[trigger] keep(k),
    ensures
        collect(from, to, keep, emit) == seq![emit(at)] + collect(at + 1, to, keep, emit),
    decreases at - from,
{
    if from < at {
        lemma_collect_found(from + 1, to, keep, emit, at);
    }
}

/// A walk that keeps no index gathers nothing.
pub proof fn lemma_collect_exhausted<X>(
    from: int,
    to: int,
    keep: spec_fn(int) -> bool,
    emit: spec_fn(int) -> X,
)
    requires
        forall|k: int| from <= k < to ==> !#[trigger] keep(k),
    ensures
        collect(from, to, keep, emit) == Seq::<X>::empty(),
    decreases to - from,
{
    if from < to {
        lemma_collect_exhausted(from + 1, to, keep, emit);
    }
}

/// A walk gathers exactly what the kept indices emit.
pub proof fn lemma_collect_contains<X>(
    from: int,
    to: int,
    keep: spec_fn(int) -> bool,
    emit: spec_fn(int) -> X,
    x: X,
)
    ensures
        collect(from, to, keep, emit).contains(x) <==> exists|k: int|
            from <= k < to && #[trigger] keep(k) && emit(k) == x,
    decreases to - from,
{
    let all = collect(from, to, keep, emit);
    if from < to {
        let rest = collect(from + 1, to, keep, emit);
        lemma_collect_contains(from + 1, to, keep, emit, x);
        if keep(from) {
            let head = seq![emit(from)];
            assert(all == head + rest);
            if all.contains(x) {
                let i = choose|i: int| 0 <= i < all.len() && all[i] == x;
                if i > 0 {
                    assert(rest[i - 1] == x);
                    assert(rest.contains(x));
                }
            }
            if exists|k: int| from <= k < to && #[trigger] keep(k) && emit(k) == x {
                let k = choose|k: int| from <= k < to && #[trigger] keep(k) && emit(k) == x;
                if k == from {
                    assert(all[0] == x);
                } else {
                    assert(rest.contains(x));
                    let i = choose|i: int| 0 <= i < rest.len() && rest[i] == x;
                    assert(all[i + 1] == x);
                }
            }
        }
    }
}

/// A walk whose kept indices emit different things gathers nothing twice.
pub proof fn lemma_collect_no_duplicates<X>(
    from: int,
    to: int,
    keep: spec_fn(int) -> bool,
    emit: spec_fn(int) -> X,
)
    requires
        forall|j: int, k: int|
            from <= j < k < to && #[trigger] keep(j) && #[trigger] keep(k) ==> emit(j) != emit(k),
    ensures
        collect(from, to, keep, emit).no_duplicates(),
    decreases to - from,
{
    if from < to {
        let rest = collect(from + 1, to, keep, emit);
        lemma_collect_no_duplicates(from + 1, to, keep, emit);
        if keep(from) {
            let head = seq![emit(from)];
            assert forall|i: int, j: int| 0 <= i < head.len() && 0 <= j < rest.len() implies head[i]
                != rest[j] by {
                lemma_collect_contains(from + 1, to, keep, emit, rest[j]);
                assert(rest.contains(rest[j]));
            }
            vstd::seq_lib::lemma_no_dup_in_concat(head, rest);
        }
    }
}

/// A concatenation holds exactly what its parts hold.
pub proof fn lemma_concat_contains<X>(from: int, to: int, part: spec_fn(int) -> Seq<X>, x: X)
    ensures
        concat(from, to, part).contains(x) <==> exists|p: int|
            from <= p < to && (#[trigger] part(p)).contains(x),
    decreases to - from,
{
    let all = concat(from, to, part);
    if from < to {
        let head = part(from);
        let rest = concat(from + 1, to, part);
        lemma_concat_contains(from + 1, to, part, x);
        assert(all == head + rest);
        if all.contains(x) {
            let i = choose|i: int| 0 <= i < all.len() && all[i] == x;
            if i < head.len() {
                assert(head[i] == x);
                assert(part(from).contains(x));
            } else {
                assert(rest[i - head.len()] == x);
                assert(rest.contains(x));
            }
        }
        if exists|p: int| from <= p < to && (#[trigger] part(p)).contains(x) {
            let p = choose|p: int| from <= p < to && (#[trigger] part(p)).contains(x);
            if p == from {
                let i = choose|i: int| 0 <= i < head.len() && head[i] == x;
                assert(all[i] == x);
            } else {
                assert(rest.contains(x));
                let i = choose|i: int| 0 <= i < rest.len() && rest[i] == x;
                assert(all[head.len() + i] == x);
            }
        }
    }
}

/// A concatenation of parts that hold nothing twice and share nothing holds
/// nothing twice.
pub proof fn lemma_concat_no_duplicates<X>(from: int, to: int, part: spec_fn(int) -> Seq<X>)
    requires
        forall|p: int| from <= p < to ==> (#[trigger] part(p)).no_duplicates(),
        forall|p: int, q: int, x: X|
            from <= p < q < to && #[trigger] part(p).contains(x) ==> !#[trigger] part(q).contains(
                x,
            ),
    ensures
        concat(from, to, part).no_duplicates(),
    decreases to - from,
{
    if from < to {
        let head = part(from);
        let rest = concat(from + 1, to, part);
        lemma_concat_no_duplicates(from + 1, to, part);
        assert forall|i: int, j: int| 0 <= i < head.len() && 0 <= j < rest.len() implies head[i]
            != rest[j] by {
            lemma_concat_contains(from + 1, to, part, rest[j]);
            assert(rest.contains(rest[j]));
            let q = choose|q: int| from + 1 <= q < to && (#[trigger] part(q)).contains(rest[j]);
            if head[i] == rest[j] {
                assert(part(from).contains(head[i]));
            }
        }
        vstd::seq_lib::lemma_no_dup_in_concat(head, rest);
    }
}

} // verus!

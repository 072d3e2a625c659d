//! The inequality join.
//!
//! A join is built from two predicates over the same rows. Both columns are
//! sorted, each in the direction of its operator, and one pass over the
//! second order, marking and scanning ranks of the first, finds the pairs.
//! The join yields a pair for each left row `l` and right row `r` such that
//! `l` sorts strictly before `r` by the first attribute and not strictly
//! before `r` by the second: the pair of `r`'s first attribute with `l`'s
//! second. Where the first operator is `<` or `>` and the second is `<=` or
//! `>=`, these are the rows between which both predicates hold.

use crate::model::{
    active, compatible, drain, join_pairs, join_rows, lemma_drain_exhausted, lemma_drain_found,
    lemma_order_is_permutation, lemma_pending_after_advance, pair_at, pending, rows_from,
};
use crate::order::lawful;
use crate::predicate::{JoinPredicate, Predicate};
use crate::rows::key_at;
use crate::scanner::{L1BitVec, MAX_BITS};
use crate::union::{primary_union, secondary_union, L1Union, L2Union};
use vstd::prelude::*;

verus! {

/// A join of two relations under two inequality predicates, yielding its
/// pairs one at a time: the sequence `output()`, of which `emitted()` pairs
/// have been yielded.
pub struct InequalityJoin<T1, T2> {
    l1: L1Union<T1>,
    l2: L2Union<T2>,
    l2_idx: usize,
    bitvec: L1BitVec,
    first: Ghost<Predicate<T1>>,
    second: Ghost<Predicate<T2>>,
    emitted: Ghost<nat>,
}

impl<T1, T2> InequalityJoin<T1, T2> where T1: Ord + Copy, T2: Ord + Copy {
    /// The predicate on the first attribute.
    pub closed spec fn first(&self) -> Predicate<T1> {
        self.first@
    }

    /// The predicate on the second attribute.
    pub closed spec fn second(&self) -> Predicate<T2> {
        self.second@
    }

    /// How many pairs the join has yielded so far.
    pub closed spec fn emitted(&self) -> nat {
        self.emitted@
    }

    /// All pairs of values that the join yields from start to end.
    pub open spec fn output(&self) -> Seq<(T1, T2)> {
        join_pairs(self.first(), self.second())
    }

    /// The pairs of values that the join has yet to yield.
    pub open spec fn remaining(&self) -> Seq<(T1, T2)> {
        self.output().skip(self.emitted() as int)
    }

    /// The sorted unions, the marks and the position agree with the
    /// predicates and with the number of pairs yielded.
    pub closed spec fn wf(&self) -> bool {
        let pa = self.first@;
        let pb = self.second@;
        let n = pa.rows();
        &&& lawful::<T1>()
        &&& lawful::<T2>()
        &&& compatible(pa, pb)
        &&& n <= MAX_BITS
        &&& self.l1.values@ == primary_union(pa.left, pa.right, pa.op.direction())
        &&& self.l2.values@ == secondary_union(pb.left, pb.right, pb.op.direction(), pa.order())
        &&& self.l2_idx <= n
        &&& self.bitvec.wf()
        &&& self.bitvec.bits().len() == n
        &&& forall|q: int|
            0 <= q < n ==> self.bitvec.bits()[q] == active(pa, pb, self.l2_idx as int, q)
        &&& self.emitted@ <= join_rows(pa, pb).len()
        &&& join_rows(pa, pb).skip(self.emitted@ as int) == pending(
            pa,
            pb,
            self.l2_idx as int,
            self.bitvec.start() as int,
            self.bitvec.cursor() as int,
        )
    }

    /// A join of the rows described by `join1` and `join2`, which must
    /// describe the same left rows and the same right rows.
    pub fn new(join1: JoinPredicate<T1>, join2: JoinPredicate<T2>) -> (join: Self)
        requires
            lawful::<T1>(),
            lawful::<T2>(),
            compatible(join1@, join2@),
            join1@.rows() <= MAX_BITS,
        ensures
            join.wf(),
            join.first() == join1@,
            join.second() == join2@,
            join.emitted() == 0,
    {
        let ghost pa = join1@;
        let ghost pb = join2@;
        let order1 = join1.op.sort_order();
        let order2 = join2.op.sort_order();
        let (perms, l1) = L1Union::union_and_sort(join1.left, join1.right, order1);
        proof {
            lemma_order_is_permutation(pa);
            lemma_order_is_permutation(pb);
        }
        let l2 = L2Union::union_and_sort_with_permutations(
            join2.left,
            join2.right,
            order2,
            perms,
        );
        let bitvec = L1BitVec::new(l1.values.len());
        proof {
            let all = join_rows(pa, pb);
            assert(l1.values@.len() == pa.rows());
            assert(all.skip(0) =~= all);
            assert(all == pending(pa, pb, 0, 0, 0));
        }
        InequalityJoin {
            l1,
            l2,
            l2_idx: 0,
            bitvec,
            first: Ghost(pa),
            second: Ghost(pb),
            emitted: Ghost(0),
        }
    }

    /// A join of the rows described by `join1` and `join2`, or `None` where
    /// the two do not describe the same left rows and the same right rows,
    /// or describe more rows than can be marked.
    pub fn try_new(join1: JoinPredicate<T1>, join2: JoinPredicate<T2>) -> (out: Option<Self>)
        requires
            lawful::<T1>(),
            lawful::<T2>(),
        ensures
            out.is_some() <==> compatible(join1@, join2@) && join1@.rows() <= MAX_BITS,
            match out {
                Some(join) => {
                    &&& join.wf()
                    &&& join.first() == join1@
                    &&& join.second() == join2@
                    &&& join.emitted() == 0
                },
                None => true,
            },
    {
        if join1.left.len() != join2.left.len() || join1.right.len() != join2.right.len() {
            return None;
        }
        if join1.left.len() > MAX_BITS || join1.right.len() > MAX_BITS - join1.left.len() {
            return None;
        }
        Some(Self::new(join1, join2))
    }

    /// The next pair of the join, or `None` when all pairs have been
    /// yielded.
    pub fn next(&mut self) -> (out: Option<(T1, T2)>)
        requires
            old(self).wf(),
        ensures
            final(self).wf(),
            final(self).first() == old(self).first(),
            final(self).second() == old(self).second(),
            match out {
                Some(pair) => {
                    &&& old(self).emitted() < old(self).output().len()
                    &&& pair == old(self).output()[old(self).emitted() as int]
                    &&& final(self).emitted() == old(self).emitted() + 1
                },
                None => {
                    &&& old(self).emitted() == old(self).output().len()
                    &&& final(self).emitted() == old(self).emitted()
                },
            },
    {
        let ghost pa = self.first@;
        let ghost pb = self.second@;
        let ghost n = pa.rows();
        let ghost nl = pa.left.len();
        let ghost all = join_rows(pa, pb);
        let ghost done = self.emitted@ as int;
        loop
            invariant
                self.wf(),
                self.first@ == pa,
                self.second@ == pb,
                self.emitted@ == done,
                pa == old(self).first@,
                pb == old(self).second@,
                done == old(self).emitted@,
                n == pa.rows(),
                nl == pa.left.len(),
                all == join_rows(pa, pb),
            decreases n - self.l2_idx,
        {
            let ghost pos = self.l2_idx as int;
            proof {
                lemma_order_is_permutation(pa);
                lemma_order_is_permutation(pb);
            }
            if self.l2_idx >= self.l2.values.len() {
                proof {
                    assert(all.skip(done).len() == 0);
                }
                return None;
            }
            let entry = self.l2.values[self.l2_idx];
            let v2 = entry.0;
            let permuted = entry.1;
            let ghost row = pb.order()[pos];
            proof {
                assert(row < n);
                assert(permuted == pa.rank_of(row));
                assert(v2 == key_at(pb.left, pb.right, row as int));
            }
            self.bitvec.maybe_reset_start(permuted);
            let ghost from = self.bitvec.cursor() as int;
            let tagged = self.l1.values[permuted];
            if tagged.1.is_right() {
                self.l2_idx += 1;
                self.bitvec.set(permuted);
                proof {
                    lemma_pending_after_advance(pa, pb, pos, from);
                    assert forall|q: int| 0 <= q < n implies self.bitvec.bits()[q] == active(
                        pa,
                        pb,
                        pos + 1,
                        q,
                    ) by {
                        if q == permuted {
                            assert(pb.order()[pos] == pa.order()[q]);
                        } else {
                            assert(pa.order()[q] != row);
                        }
                    }
                }
                continue ;
            }
            let ghost marks = self.bitvec.bits();
            match self.bitvec.next() {
                Some(idx) => {
                    let found = self.l1.values[idx];
                    proof {
                        assert(marks[idx as int]);
                        assert(active(pa, pb, pos, idx as int));
                        assert forall|k: int| from <= k < idx implies !active(pa, pb, pos, k) by {
                            assert(!marks[k]);
                        }
                        lemma_drain_found(pa, pb, pos, from, idx as int);
                        let head = pair_at(pa, pb, pos, idx as int);
                        let rest = drain(pa, pb, pos, idx + 1) + rows_from(pa, pb, pos + 1);
                        let tail = all.skip(done);
                        assert(tail =~= seq![head] + rest);
                        assert(tail[0] == head);
                        assert(all[done] == head);
                        assert(tail.skip(1) =~= rest);
                        assert(all.skip(done + 1) =~= tail.skip(1));
                    }
                    self.emitted = Ghost((done + 1) as nat);
                    return Some((found.0, v2));
                },
                None => {
                    proof {
                        assert forall|k: int| from <= k < n implies !active(pa, pb, pos, k) by {
                            assert(!marks[k]);
                        }
                        lemma_drain_exhausted(pa, pb, pos, from);
                    }
                },
            }
            self.l2_idx += 1;
            proof {
                lemma_pending_after_advance(pa, pb, pos, self.bitvec.cursor() as int);
                assert forall|q: int| 0 <= q < n implies self.bitvec.bits()[q] == active(
                    pa,
                    pb,
                    pos + 1,
                    q,
                ) by {
                    if pa.order()[q] >= nl {
                        assert(pa.order()[q] != row);
                    }
                }
            }
        }
    }

    /// All pairs that the join has yet to yield, in the order it yields
    /// them.
    pub fn collect(self) -> (out: Vec<(T1, T2)>)
        requires
            self.wf(),
        ensures
            out@ == self.remaining(),
            self.emitted() == 0 ==> out@ == self.output(),
    {
        let ghost all = self.output();
        let ghost start = self.emitted() as int;
        let mut join = self;
        let mut out: Vec<(T1, T2)> = Vec::new();
        loop
            invariant
                join.wf(),
                join.first() == self.first(),
                join.second() == self.second(),
                all == self.output(),
                start == self.emitted(),
                start <= join.emitted() <= all.len(),
                out@ == all.subrange(start, join.emitted() as int),
            decreases all.len() - join.emitted(),
        {
            match join.next() {
                Some(pair) => {
                    out.push(pair);
                    assert(out@ =~= all.subrange(start, join.emitted() as int));
                },
                None => {
                    assert(out@ =~= all.skip(start));
                    assert(start == 0 ==> all.skip(start) =~= all);
                    return out;
                },
            }
        }
    }

    /// Joins of the same predicates yield the same pairs in the same order,
    /// and so the same multiset of pairs; after the same number of pairs
    /// they have the same pairs to come.
    pub proof fn lemma_same_predicates_same_output(&self, other: &Self)
        requires
            self.first() == other.first(),
            self.second() == other.second(),
        ensures
            self.output() == other.output(),
            self.output().to_multiset() == other.output().to_multiset(),
            self.emitted() == other.emitted() ==> self.remaining() == other.remaining(),
    {
    }
}

} // verus!

//! Facts about sequences taken as multisets.

use vstd::prelude::*;

verus! {

/// Two sequences without duplicates that hold the same elements are equal as
/// multisets.
pub proof fn lemma_same_elements_same_multiset<A>(s: Seq<A>, t: Seq<A>)
    requires
        s.no_duplicates(),
        t.no_duplicates(),
        forall|x: A| s.contains(x) <==> t.contains(x),
    ensures
        s.to_multiset() == t.to_multiset(),
{
    s.to_multiset_ensures();
    t.to_multiset_ensures();
    s.lemma_multiset_has_no_duplicates();
    t.lemma_multiset_has_no_duplicates();
    assert forall|x: A| s.to_multiset().count(x) == t.to_multiset().count(x) by {
        assert(s.contains(x) <==> t.contains(x));
        if s.contains(x) {
            assert(s.to_multiset().contains(x));
            assert(t.to_multiset().contains(x));
        }
    }
    assert(s.to_multiset() =~= t.to_multiset());
}

/// Sequences that are equal as multisets stay so when every element is
/// replaced by its image under `f`.
pub proof fn lemma_map_values_multiset<A, B>(s: Seq<A>, t: Seq<A>, f: spec_fn(A) -> B)
    requires
        s.to_multiset() == t.to_multiset(),
    ensures
        s.map_values(f).to_multiset() == t.map_values(f).to_multiset(),
    decreases s.len(),
{
    s.to_multiset_ensures();
    t.to_multiset_ensures();
    if s.len() == 0 {
        assert(t.len() == 0);
        assert(s.map_values(f) =~= t.map_values(f));
    } else {
        let last = s.len() - 1;
        let x = s[last];
        assert(s.contains(x));
        assert(t.to_multiset().count(x) > 0);
        assert(t.contains(x));
        let i = choose|i: int| 0 <= i < t.len() && t[i] == x;
        let s1 = s.remove(last);
        let t1 = t.remove(i);
        assert(s1.to_multiset() == t1.to_multiset());
        lemma_map_values_multiset(s1, t1, f);
        let ms = s.map_values(f);
        let mt = t.map_values(f);
        ms.to_multiset_ensures();
        mt.to_multiset_ensures();
        assert(ms.remove(last) =~= s1.map_values(f));
        assert(mt.remove(i) =~= t1.map_values(f));
        assert(ms[last] == f(x));
        assert(mt[i] == f(x));
        assert(ms.contains(f(x)));
        assert(mt.contains(f(x)));
        assert(ms.to_multiset().remove(f(x)) == mt.to_multiset().remove(f(x)));
        assert(ms.to_multiset() =~= ms.to_multiset().remove(f(x)).insert(f(x)));
        assert(mt.to_multiset() =~= mt.to_multiset().remove(f(x)).insert(f(x)));
    }
}

} // verus!

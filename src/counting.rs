use vstd::prelude::*;
use vstd::set_lib::{lemma_len_subset, lemma_map_size, lemma_set_disjoint_lens};

verus! {

pub open spec fn pow2(n: nat) -> nat
    decreases n,
{
    if n == 0 {
        1
    } else {
        2 * pow2((n - 1) as nat)
    }
}

/// A finite family of subsets of a finite set `u` has at most `2^|u|` members.
pub proof fn lemma_family_bound<A>(f: Set<Set<A>>, u: Set<A>)
    requires
        u.finite(),
        f.finite(),
        forall|s: Set<A>| #[trigger] f.contains(s) ==> s.subset_of(u),
    ensures
        f.len() <= pow2(u.len()),
    decreases u.len(),
{
    if u.len() == 0 {
        u.lemma_len0_is_empty();
        let e = Set::<A>::empty();
        assert forall|s: Set<A>| #[trigger] f.contains(s) implies set![e].contains(s) by {
            assert(s =~= e);
        }
        lemma_len_subset(f, set![e]);
        assert(set![e].len() == 1) by {
            assert(set![e] =~= Set::<Set<A>>::empty().insert(e));
        }
    } else {
        let x = u.choose();
        assert(u.contains(x));
        let u2 = u.remove(x);
        let f0 = f.filter(|s: Set<A>| !s.contains(x));
        let f1 = f.filter(|s: Set<A>| s.contains(x));
        let drop = |s: Set<A>| s.remove(x);
        let f1m = f1.map(drop);
        f.lemma_len_filter(|s: Set<A>| !s.contains(x));
        f.lemma_len_filter(|s: Set<A>| s.contains(x));
        assert forall|s: Set<A>| #[trigger] f0.contains(s) implies s.subset_of(u2) by {
            assert(f.contains(s));
        }
        lemma_family_bound(f0, u2);
        f1.lemma_map_finite(drop);
        assert forall|s: Set<A>| #[trigger] f1m.contains(s) implies s.subset_of(u2) by {
            let t = choose|t: Set<A>| f1.contains(t) && drop(t) == s;
            assert(f.contains(t));
        }
        lemma_family_bound(f1m, u2);
        assert(vstd::relations::injective_on(drop, f1)) by {
            assert forall|a: Set<A>, b: Set<A>| f1.contains(a) && f1.contains(b) && #[trigger] drop(a) == #[trigger] drop(b) implies a == b by {
                assert forall|y: A| a.contains(y) == b.contains(y) by {
                    if y != x {
                        assert(drop(a).contains(y) == a.contains(y));
                        assert(drop(b).contains(y) == b.contains(y));
                    }
                }
                assert(a =~= b);
            }
        }
        lemma_map_size(f1, f1m, drop);
        lemma_set_disjoint_lens(f0, f1);
        assert(f0 + f1 =~= f);
        assert(f0.disjoint(f1));
    }
}

} // verus!

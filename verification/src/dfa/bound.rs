//! How many distinct sets of automaton states there can be: at most two to the number of
//! states. This bounds the work of the subset construction.

use vstd::prelude::*;
use vstd::set_lib::{lemma_len_subset, lemma_map_size, lemma_set_disjoint_lens};
use vstd::relations::injective_on;
use crate::nfa::state::StateId;
use crate::nfa::closure::sorted_ids;

verus! {

/// Two to the power `n`.
pub open spec fn two_pow(n: nat) -> nat
    decreases n,
{
    if n == 0 { 1 } else { 2 * two_pow((n - 1) as nat) }
}

/// Every identifier of the list is below `n`.
pub open spec fn ids_below(s: Seq<StateId>, n: nat) -> bool {
    forall|i: int| 0 <= i < s.len() ==> (#[trigger] s[i]).0 < n
}

/// A family of increasing identifier lists, all below `n`, has at most `two_pow(n)` members.
pub proof fn lemma_sorted_family_bound(fam: Set<Seq<StateId>>, n: nat)
    requires
        fam.finite(),
        forall|s: Seq<StateId>| #[trigger] fam.contains(s) ==> sorted_ids(s) && ids_below(s, n),
    ensures
        fam.len() <= two_pow(n),
    decreases n,
{
    let empty = Seq::<StateId>::empty();
    if n == 0 {
        assert forall|s: Seq<StateId>| fam.contains(s) implies set![empty].contains(s) by {
            if s.len() > 0 {
                assert(s[0].0 < 0);
            }
            assert(s =~= empty);
        }
        assert(fam.subset_of(set![empty]));
        lemma_len_subset(fam, set![empty]);
        assert(set![empty].len() == 1) by {
            assert(set![empty] =~= Set::<Seq<StateId>>::empty().insert(empty));
        }
    } else {
        let m = (n - 1) as nat;
        let low = fam.filter(|s: Seq<StateId>| s.len() == 0 || s.last().0 < m);
        let high = fam.filter(|s: Seq<StateId>| s.len() > 0 && s.last().0 >= m);
        fam.lemma_len_filter(|s: Seq<StateId>| s.len() == 0 || s.last().0 < m);
        fam.lemma_len_filter(|s: Seq<StateId>| s.len() > 0 && s.last().0 >= m);
        assert forall|s: Seq<StateId>| #[trigger] low.contains(s) implies sorted_ids(s) && ids_below(s, m) by {
            assert forall|i: int| 0 <= i < s.len() implies (#[trigger] s[i]).0 < m by {
                if i < s.len() - 1 {
                    assert(s[i].0 < s[s.len() - 1].0);
                }
            }
        }
        lemma_sorted_family_bound(low, m);
        let f = |s: Seq<StateId>| s.drop_last();
        let rest = high.map(f);
        assert(injective_on(f, high)) by {
            assert forall|a: Seq<StateId>, b: Seq<StateId>|
                high.contains(a) && high.contains(b) && #[trigger] f(a) == #[trigger] f(b) implies a == b by {
                assert(a.last().0 == m);
                assert(b.last().0 == m);
                assert(a.last() == b.last());
                assert(a =~= f(a).push(a.last()));
                assert(b =~= f(b).push(b.last()));
            }
        }
        lemma_map_size(high, rest, f);
        assert forall|t: Seq<StateId>| #[trigger] rest.contains(t) implies sorted_ids(t) && ids_below(t, m) by {
            let s = choose|s: Seq<StateId>| high.contains(s) && f(s) == t;
            assert(s.last().0 == m);
            assert forall|i: int| 0 <= i < t.len() implies (#[trigger] t[i]).0 < m by {
                assert(t[i] == s[i]);
                assert(s[i].0 < s[s.len() - 1].0);
            }
            assert forall|i: int, j: int| 0 <= i < j < t.len() implies (#[trigger] t[i]).0 < (#[trigger] t[j]).0 by {
                assert(t[i] == s[i]);
                assert(t[j] == s[j]);
            }
        }
        lemma_sorted_family_bound(rest, m);
        assert(fam =~= low + high);
        assert(low.disjoint(high));
        lemma_set_disjoint_lens(low, high);
    }
}

} // verus!

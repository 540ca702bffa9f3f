use vstd::prelude::*;
use crate::state::State;

verus! {

/// `s` is a single value of `finals`.
pub open spec fn single_of(s: Set<nat>, finals: Set<nat>) -> bool {
    exists|v: nat| finals.contains(v) && s == set![v]
}

/// Some state of `added` holds exactly the value `v`.
pub open spec fn holds_single<S: State>(added: Seq<S>, v: nat) -> bool {
    exists|j: int| 0 <= j < added.len() && added[j].finals() == set![v]
}

/// `added` holds, in some order, one singleton state for each value of `finals`.
pub open spec fn singletons_of<S: State>(added: Seq<S>, finals: Set<nat>) -> bool {
    &&& added.len() == finals.len()
    &&& forall|j: int| 0 <= j < added.len() ==> single_of(#[trigger] added[j].finals(), finals)
    &&& forall|v: nat| #[trigger] finals.contains(v) ==> holds_single(added, v)
}

/// States that behave as sets of final values.
pub trait SetState: State {
    /// Adds the final values of `states` to `self`.
    fn set_states(&mut self, states: &Self)
        ensures
            final(self).finals() == old(self).finals().union(states.finals()),
    ;

    /// Whether `self` and `states` share a final value.
    fn has_any_of(&self, states: &Self) -> (r: bool)
        ensures
            r == !self.finals().disjoint(states.finals()),
    ;

    /// Removes the final values of `states` from `self`.
    fn clear_states(&mut self, states: &Self)
        ensures
            final(self).finals() == old(self).finals().difference(states.finals()),
    ;

    /// Appends one singleton state per final value of `self`.
    fn collect_final_states(&self, states: &mut Vec<Self>)
        ensures
            final(states)@.subrange(0, old(states)@.len() as int) == old(states)@,
            singletons_of(
                final(states)@.subrange(old(states)@.len() as int, final(states)@.len() as int),
                self.finals(),
            ),
    ;
}

/// A resolved state enumerates to exactly one singleton, which holds the
/// state's one final value.
pub proof fn lemma_resolved_enumerates_one<S: State>(added: Seq<S>, finals: Set<nat>)
    requires
        singletons_of(added, finals),
        finals.finite(),
        finals.len() == 1,
    ensures
        added.len() == 1,
        added[0].finals() == finals,
{
    assert(single_of(added[0].finals(), finals));
    let v = choose|v: nat| finals.contains(v) && added[0].finals() == set![v];
    assert(finals.remove(v).len() == 0);
    vstd::set_lib::lemma_set_empty_equivalency_len(finals.remove(v));
    assert(finals =~= set![v]) by {
        assert forall|w: nat| finals.contains(w) implies w == v by {
            if w != v {
                assert(finals.remove(v).contains(w));
            }
        }
    }
}

/// The singletons of an enumeration are pairwise different.
pub proof fn lemma_singletons_distinct<S: State>(added: Seq<S>, finals: Set<nat>)
    requires
        singletons_of(added, finals),
        finals.finite(),
    ensures
        forall|j1: int, j2: int|
            0 <= j1 < added.len() && 0 <= j2 < added.len() && j1 != j2 ==> (#[trigger] added[j1]).finals()
                != (#[trigger] added[j2]).finals(),
{
    let vals = Seq::new(added.len(), |j: int| added[j].finals().choose());
    assert forall|j: int| 0 <= j < added.len() implies finals.contains(#[trigger] vals[j])
        && added[j].finals() == set![vals[j]] by {
        assert(single_of(added[j].finals(), finals));
        let v = choose|v: nat| finals.contains(v) && added[j].finals() == set![v];
        assert(set![v].contains(v));
        assert(set![v].contains(set![v].choose()));
    }
    assert forall|v: nat| #[trigger] vals.to_set().contains(v) == finals.contains(v) by {
        if finals.contains(v) {
            assert(holds_single(added, v));
            let j = choose|j: int| 0 <= j < added.len() && added[j].finals() == set![v];
            assert(set![v].contains(vals[j]));
            assert(vals.contains(v));
        }
        if vals.to_set().contains(v) {
            assert(vals.contains(v));
        }
    }
    assert(vals.to_set() =~= finals);
    vals.lemma_no_dup_set_cardinality();
    assert forall|j1: int, j2: int|
        0 <= j1 < added.len() && 0 <= j2 < added.len() && j1 != j2 implies (#[trigger] added[j1]).finals()
            != (#[trigger] added[j2]).finals() by {
        assert(vals[j1] != vals[j2]);
        assert(added[j1].finals() == set![vals[j1]]);
        assert(added[j2].finals() == set![vals[j2]]);
        assert(set![vals[j1]].contains(vals[j1]));
    }
}

} // verus!

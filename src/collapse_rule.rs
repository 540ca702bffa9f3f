use vstd::prelude::*;
use crate::random::RandomSource;
use crate::space::Space;
use crate::state::{finals_of, State};

verus! {

/// Collapse rules relate the possible values of a cell to those of its
/// neighbours.
///
/// A rule only ever removes possibilities: `collapse` and `observe` leave a
/// cell with a subset of what it had. This is what makes propagation reach a
/// fixpoint.
pub trait CollapseRule<S: State, Sp: Space<S>> {
    /// The neighbour directions the rule looks at.
    spec fn offsets(&self) -> Seq<Sp::CoordinateDelta>;

    /// The neighbour directions, as coordinate deltas.
    fn neighbor_offsets(&self) -> (r: Vec<Sp::CoordinateDelta>)
        ensures
            r@ == self.offsets(),
    ;

    /// What `collapse` leaves of a cell allowing `cell`, given the final values
    /// of its neighbours in the order of the offsets.
    spec fn narrow(&self, cell: Set<nat>, neighbors: Seq<Option<Set<nat>>>) -> Set<nat>;

    /// Narrowing only ever removes final values.
    proof fn lemma_narrow_subset(&self, cell: Set<nat>, neighbors: Seq<Option<Set<nat>>>)
        ensures
            self.narrow(cell, neighbors).subset_of(cell),
    ;

    /// Narrows `cell` given the states of its neighbours, in the order of the
    /// offsets: `Some(state)` where the neighbour exists, `None` otherwise.
    fn collapse(&self, cell: &mut S, neighbors: &[Option<S>])
        requires
            neighbors@.len() == self.offsets().len(),
        ensures
            final(cell).finals() == self.narrow(old(cell).finals(), finals_of(neighbors@)),
    ;

    /// Forces `cell` to a single final value that it still allows.
    fn observe<R: RandomSource>(&self, cell: &mut S, neighbors: &[Option<S>], rng: &mut R)
        requires
            neighbors@.len() == self.offsets().len(),
            old(cell).finals().len() > 0,
        ensures
            final(cell).finals().subset_of(old(cell).finals()),
            final(cell).finals().len() == 1,
    ;
}

} // verus!

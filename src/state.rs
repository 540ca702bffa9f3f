use vstd::prelude::*;

verus! {

/// The final values of each present state, `None` where there is none.
pub open spec fn finals_of<S: State>(states: Seq<Option<S>>) -> Seq<Option<Set<nat>>> {
    states.map_values(
        |o: Option<S>|
            match o {
                Some(s) => Some(s.finals()),
                None => None,
            },
    )
}

/// The possibility value of one cell: the set of final values it may still take.
pub trait State: Sized {
    /// The final values that this state still allows.
    spec fn finals(&self) -> Set<nat>;

    /// Every state allows finitely many final values.
    proof fn lemma_finals_finite(&self)
        ensures
            self.finals().finite(),
    ;

    /// One less than the number of final values left: zero means resolved;
    /// `None` means contradiction (no final value left).
    fn entropy(&self) -> (r: Option<usize>)
        ensures
            r is None <==> self.finals().len() == 0,
            r matches Some(e) ==> e + 1 == self.finals().len(),
    ;

    /// A copy that allows the same final values.
    fn copy_state(&self) -> (r: Self)
        ensures
            r.finals() == self.finals(),
    ;
}

} // verus!

use vstd::prelude::*;
use crate::state::State;

verus! {

/// States that have a known "every final value is still possible" value.
pub trait AllState: State {
    /// Whether this representation can hold every final value at once.
    spec fn all_supported() -> bool;

    /// The final values of the "all" state.
    spec fn all_finals() -> Set<nat>;

    /// The state that allows every final value.
    fn all() -> (r: Self)
        requires
            Self::all_supported(),
        ensures
            r.finals() == Self::all_finals(),
    ;
}

} // verus!

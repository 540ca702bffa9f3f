use vstd::prelude::*;
use crate::all_state::AllState;
use crate::bits::{
    below, bits_below, bits_of, count_bits, lemma_and, lemma_and_not, lemma_bits_below_finite,
    lemma_bits_below_step, lemma_bits_finite, lemma_full, lemma_low_mask, lemma_or, lemma_single,
    lemma_xor, lemma_zero, lemma_zero_iff_empty,
};
use crate::set_state::{singletons_of, SetState};
use crate::state::State;

verus! {

/// A state that uses the bits of a `u64` to describe up to 64 final values:
/// final value `n` is bit `n`.
///
/// * `FINAL_STATE_COUNT` - the total number of final (fully collapsed) values
#[derive(PartialEq, Eq, Copy, Clone, Hash, Debug)]
pub struct BitsetState<const FINAL_STATE_COUNT: u32>(u64);

/// The values of `states`, as a set.
pub open spec fn values_of(states: Seq<u32>) -> Set<nat> {
    Set::new(|v: nat| exists|j: int| 0 <= j < states.len() && #[trigger] states[j] == v)
}

/// Every value of `a` is below every value of `b`.
pub open spec fn precedes(a: Set<nat>, b: Set<nat>) -> bool {
    forall|x: nat, y: nat| a.contains(x) && b.contains(y) ==> x < y
}

/// The union of the final values of `states`.
pub open spec fn union_of<const N: u32>(states: Seq<BitsetState<N>>) -> Set<nat>
    decreases states.len(),
{
    if states.len() == 0 {
        Set::empty()
    } else {
        union_of(states.drop_last()).union(states.last().finals())
    }
}

impl<const FINAL_STATE_COUNT: u32> BitsetState<FINAL_STATE_COUNT> {
    /// The bit mask.
    pub closed spec fn mask(self) -> u64 {
        self.0
    }

    /// Creates the state holding only final value `n`.
    pub fn state(n: u32) -> (r: Self)
        requires
            n < FINAL_STATE_COUNT <= 64,
        ensures
            r.finals() == set![n as nat],
    {
        proof {
            lemma_single(n as u64);
        }
        BitsetState(1u64 << n)
    }

    /// Creates the state holding the final values listed in `states`.
    pub fn with_states(states: &[u32]) -> (r: Self)
        requires
            FINAL_STATE_COUNT <= 64,
            forall|j: int| 0 <= j < states@.len() ==> states@[j] < FINAL_STATE_COUNT,
        ensures
            r.finals() == values_of(states@),
    {
        let mut x: u64 = 0;
        let mut i: usize = 0;
        proof {
            lemma_zero();
            assert(values_of(states@.subrange(0, 0)) =~= Set::<nat>::empty());
        }
        while i < states.len()
            invariant
                i <= states@.len(),
                FINAL_STATE_COUNT <= 64,
                forall|j: int| 0 <= j < states@.len() ==> states@[j] < FINAL_STATE_COUNT,
                bits_of(x) == values_of(states@.subrange(0, i as int)),
            decreases states@.len() - i,
        {
            let s = states[i];
            proof {
                lemma_or(x, 1u64 << s);
                lemma_single(s as u64);
                assert(values_of(states@.subrange(0, i + 1)) =~= values_of(
                    states@.subrange(0, i as int),
                ).union(set![s as nat])) by {
                    assert forall|v: nat|
                        #[trigger] values_of(states@.subrange(0, i + 1)).contains(v)
                            == values_of(states@.subrange(0, i as int)).union(
                            set![s as nat],
                        ).contains(v) by {
                        if values_of(states@.subrange(0, i + 1)).contains(v) {
                            let j = choose|j: int|
                                0 <= j < i + 1 && #[trigger] states@.subrange(0, i + 1)[j] == v;
                            if j < i {
                                assert(states@.subrange(0, i as int)[j] == v);
                            }
                        }
                        if values_of(states@.subrange(0, i as int)).contains(v) {
                            let j = choose|j: int|
                                0 <= j < i && #[trigger] states@.subrange(0, i as int)[j] == v;
                            assert(states@.subrange(0, i + 1)[j] == v);
                        }
                        if v == s as nat {
                            assert(states@.subrange(0, i + 1)[i as int] == v);
                        }
                    }
                }
            }
            x = x | (1u64 << s);
            i = i + 1;
        }
        assert(states@.subrange(0, states@.len() as int) =~= states@);
        BitsetState(x)
    }

    /// The union of all states in `states`.
    pub fn const_or(states: &[Self]) -> (r: Self)
        ensures
            r.finals() == union_of(states@),
    {
        let mut x: u64 = 0;
        let mut i: usize = 0;
        proof {
            lemma_zero();
            assert(states@.subrange(0, 0) =~= Seq::<Self>::empty());
        }
        while i < states.len()
            invariant
                i <= states@.len(),
                bits_of(x) == union_of(states@.subrange(0, i as int)),
            decreases states@.len() - i,
        {
            proof {
                lemma_or(x, states@[i as int].0);
                assert(states@.subrange(0, i + 1).drop_last() =~= states@.subrange(0, i as int));
            }
            x = x | states[i].0;
            i = i + 1;
        }
        assert(states@.subrange(0, states@.len() as int) =~= states@);
        BitsetState(x)
    }
}

impl<const FINAL_STATE_COUNT: u32> State for BitsetState<FINAL_STATE_COUNT> {
    open spec fn finals(&self) -> Set<nat> {
        bits_of(self.mask())
    }

    proof fn lemma_finals_finite(&self) {
        lemma_bits_finite(self.0);
    }

    fn entropy(&self) -> (r: Option<usize>) {
        let count = count_bits(self.0);
        if count == 0 {
            None
        } else {
            Some((count - 1) as usize)
        }
    }

    fn copy_state(&self) -> (r: Self) {
        *self
    }
}

impl<const FINAL_STATE_COUNT: u32> SetState for BitsetState<FINAL_STATE_COUNT> {
    fn set_states(&mut self, states: &Self) {
        proof {
            lemma_or(self.0, states.0);
        }
        self.0 = self.0 | states.0;
    }

    fn has_any_of(&self, states: &Self) -> (r: bool) {
        proof {
            lemma_and(self.0, states.0);
            lemma_zero_iff_empty(self.0 & states.0);
            if self.0 & states.0 == 0 {
                assert(self.finals().intersect(states.finals()) =~= Set::<nat>::empty());
                assert forall|v: nat| self.finals().contains(v) implies !states.finals().contains(v) by {
                    assert(!self.finals().intersect(states.finals()).contains(v));
                }
            } else {
                let common = self.finals().intersect(states.finals());
                assert(exists|v: nat| common.contains(v)) by {
                    if !(exists|v: nat| common.contains(v)) {
                        assert(common =~= Set::<nat>::empty());
                    }
                }
                let v = choose|v: nat| common.contains(v);
                assert(self.finals().contains(v) && states.finals().contains(v));
            }
        }
        self.0 & states.0 != 0
    }

    fn clear_states(&mut self, states: &Self) {
        proof {
            lemma_and_not(self.0, states.0);
        }
        self.0 = self.0 & !states.0;
    }

    /// The singletons come in increasing order of their final value.
    fn collect_final_states(&self, states: &mut Vec<Self>)
        ensures
            forall|j1: int, j2: int|
                old(states)@.len() <= j1 < j2 < final(states)@.len() ==> precedes(
                    #[trigger] final(states)@[j1].finals(),
                    #[trigger] final(states)@[j2].finals(),
                ),
    {
        let x = self.0;
        let ghost start = old(states)@.len() as int;
        let mut i: u64 = 0;
        proof {
            assert(bits_below(x, 0) =~= Set::<nat>::empty());
            lemma_bits_below_finite(x, 0);
        }
        while i < 64
            invariant
                i <= 64,
                start == old(states)@.len(),
                states@.len() >= start,
                states@.subrange(0, start) == old(states)@,
                bits_below(x, i as nat).finite(),
                singletons_of(states@.subrange(start, states@.len() as int), bits_below(x, i as nat)),
                forall|j: int, v: nat|
                    start <= j < states@.len() && #[trigger] states@[j].finals().contains(v) ==> v < i,
                forall|j1: int, j2: int|
                    start <= j1 < j2 < states@.len() ==> precedes(
                        #[trigger] states@[j1].finals(),
                        #[trigger] states@[j2].finals(),
                    ),
            decreases 64 - i,
        {
            proof {
                lemma_bits_below_step(x, i as nat);
            }
            let bit = 1u64 << i;
            if x & bit != 0 {
                let ghost prev = states@;
                proof {
                    lemma_single(i);
                    assert(x & (1u64 << i) != 0 <==> (x >> i) & 1 == 1) by (bit_vector);
                }
                states.push(BitsetState(bit));
                proof {
                    let added = states@.subrange(start, states@.len() as int);
                    let before = prev.subrange(start, prev.len() as int);
                    let fin = bits_below(x, (i + 1) as nat);
                    assert(added =~= before.push(BitsetState(bit)));
                    assert(states@.subrange(0, start) =~= prev.subrange(0, start));
                    assert forall|j: int| 0 <= j < added.len() implies exists|v: nat|
                        fin.contains(v) && #[trigger] added[j].finals() == set![v] by {
                        if j < before.len() {
                            assert(added[j] == before[j]);
                        } else {
                            assert(fin.contains(i as nat));
                        }
                    }
                    assert forall|v: nat| fin.contains(v) implies exists|j: int|
                        0 <= j < added.len() && #[trigger] added[j].finals() == set![v] by {
                        if v == i as nat {
                            assert(added[before.len() as int].finals() == set![v]);
                        } else {
                            assert(bits_below(x, i as nat).contains(v));
                            let j = choose|j: int|
                                0 <= j < before.len() && #[trigger] before[j].finals() == set![v];
                            assert(added[j] == before[j]);
                        }
                    }
                    assert forall|j: int, v: nat|
                        start <= j < states@.len() && #[trigger] states@[j].finals().contains(v) implies v < i + 1 by {
                        if j < prev.len() {
                            assert(states@[j] == prev[j]);
                        }
                    }
                    assert forall|j1: int, j2: int|
                        start <= j1 < j2 < states@.len() implies precedes(
                            #[trigger] states@[j1].finals(),
                            #[trigger] states@[j2].finals(),
                        ) by {
                        assert(states@[j1] == prev[j1]);
                        if j2 < prev.len() {
                            assert(states@[j2] == prev[j2]);
                        } else {
                            assert(states@[j2].finals() == set![i as nat]);
                        }
                    }
                }
            } else {
                proof {
                    assert(x & (1u64 << i) != 0 <==> (x >> i) & 1 == 1) by (bit_vector);
                }
            }
            i = i + 1;
        }
        proof {
            lemma_bits_finite(x);
        }
    }
}

impl<const FINAL_STATE_COUNT: u32> AllState for BitsetState<FINAL_STATE_COUNT> {
    open spec fn all_supported() -> bool {
        1 <= FINAL_STATE_COUNT <= 64
    }

    open spec fn all_finals() -> Set<nat> {
        below(FINAL_STATE_COUNT as nat)
    }

    fn all() -> (r: Self) {
        if FINAL_STATE_COUNT == 64 {
            proof {
                lemma_full();
            }
            BitsetState(0xFFFF_FFFF_FFFF_FFFF)
        } else {
            proof {
                let n = FINAL_STATE_COUNT as u64;
                lemma_low_mask(n);
                assert(n < 64 ==> 1u64 << n >= 1) by (bit_vector);
            }
            BitsetState((1u64 << FINAL_STATE_COUNT) - 1)
        }
    }
}

} // verus!


verus! {

impl<const FINAL_STATE_COUNT: u32> std::ops::BitOr for BitsetState<FINAL_STATE_COUNT> {
    type Output = Self;

    /// The union of `self` and `rhs`.
    fn bitor(self, rhs: Self) -> (r: Self)
        ensures
            r.finals() == self.finals().union(rhs.finals()),
    {
        proof {
            lemma_or(self.0, rhs.0);
        }
        BitsetState(self.0 | rhs.0)
    }
}

impl<const FINAL_STATE_COUNT: u32> vstd::std_specs::ops::BitOrSpecImpl for BitsetState<FINAL_STATE_COUNT> {
    open spec fn obeys_bitor_spec() -> bool {
        true
    }

    open spec fn bitor_req(self, rhs: Self) -> bool {
        true
    }

    closed spec fn bitor_spec(self, rhs: Self) -> Self {
        BitsetState(self.0 | rhs.0)
    }
}

impl<const FINAL_STATE_COUNT: u32> std::ops::BitAnd for BitsetState<FINAL_STATE_COUNT> {
    type Output = Self;

    /// The intersection of `self` and `rhs`.
    fn bitand(self, rhs: Self) -> (r: Self)
        ensures
            r.finals() == self.finals().intersect(rhs.finals()),
    {
        proof {
            lemma_and(self.0, rhs.0);
        }
        BitsetState(self.0 & rhs.0)
    }
}

impl<const FINAL_STATE_COUNT: u32> vstd::std_specs::ops::BitAndSpecImpl for BitsetState<FINAL_STATE_COUNT> {
    open spec fn obeys_bitand_spec() -> bool {
        true
    }

    open spec fn bitand_req(self, rhs: Self) -> bool {
        true
    }

    closed spec fn bitand_spec(self, rhs: Self) -> Self {
        BitsetState(self.0 & rhs.0)
    }
}

impl<const FINAL_STATE_COUNT: u32> std::ops::BitXor for BitsetState<FINAL_STATE_COUNT> {
    type Output = Self;

    /// The final values held by exactly one of `self` and `rhs`.
    fn bitxor(self, rhs: Self) -> (r: Self)
        ensures
            r.finals() == self.finals().difference(rhs.finals()).union(
                rhs.finals().difference(self.finals()),
            ),
    {
        proof {
            lemma_xor(self.0, rhs.0);
        }
        BitsetState(self.0 ^ rhs.0)
    }
}

impl<const FINAL_STATE_COUNT: u32> vstd::std_specs::ops::BitXorSpecImpl for BitsetState<FINAL_STATE_COUNT> {
    open spec fn obeys_bitxor_spec() -> bool {
        true
    }

    open spec fn bitxor_req(self, rhs: Self) -> bool {
        true
    }

    closed spec fn bitxor_spec(self, rhs: Self) -> Self {
        BitsetState(self.0 ^ rhs.0)
    }
}

} // verus!

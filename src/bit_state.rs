use vstd::prelude::*;
use crate::bits::{
    below, bits_below, bits_of, count_bits, lemma_and_not, lemma_bits_below_finite,
    lemma_bits_below_step, lemma_bits_finite, lemma_full, lemma_low_mask, lemma_single,
    lemma_zero_iff_empty,
};
use crate::state::State;

verus! {

/// A state that uses the bits of a `u64` for up to 64 final values and lists
/// them as indices.
///
/// * `FINAL_STATE_COUNT` - the total number of final (fully collapsed) values
#[derive(PartialEq, Clone, Hash)]
pub struct BitState<const FINAL_STATE_COUNT: u32>(u64);

/// `s` lists, in increasing order, exactly the values of `values`.
pub open spec fn lists_in_order(s: Seq<u32>, values: Set<nat>) -> bool {
    &&& forall|i: int, j: int| 0 <= i < j < s.len() ==> s[i] < s[j]
    &&& forall|v: nat| #[trigger] values.contains(v) <==> exists|i: int| 0 <= i < s.len() && s[i] == v
}

impl<const FINAL_STATE_COUNT: u32> BitState<FINAL_STATE_COUNT> {
    /// The bit mask.
    pub closed spec fn mask(self) -> u64 {
        self.0
    }

    /// The state that allows every final value.
    pub fn all() -> (r: Self)
        requires
            1 <= FINAL_STATE_COUNT <= 64,
        ensures
            r.finals() == below(FINAL_STATE_COUNT as nat),
    {
        if FINAL_STATE_COUNT == 64 {
            proof {
                lemma_full();
            }
            BitState(0xFFFF_FFFF_FFFF_FFFF)
        } else {
            proof {
                let n = FINAL_STATE_COUNT as u64;
                lemma_low_mask(n);
                assert(n < 64 ==> 1u64 << n >= 1) by (bit_vector);
            }
            BitState((1u64 << FINAL_STATE_COUNT) - 1)
        }
    }

    /// The state holding only final value `n`.
    pub fn state(n: u32) -> (r: Self)
        requires
            n < FINAL_STATE_COUNT <= 64,
        ensures
            r.finals() == set![n as nat],
    {
        proof {
            lemma_single(n as u64);
        }
        BitState(1u64 << n)
    }

    /// Whether every final value of `self` is one of `states`.
    pub fn subset_of(&self, states: &BitState<FINAL_STATE_COUNT>) -> (r: bool)
        ensures
            r == self.finals().subset_of(states.finals()),
    {
        let x = self.0;
        let y = states.0;
        proof {
            lemma_and_not(x, y);
            lemma_zero_iff_empty(x & !y);
            let rest = self.finals().difference(states.finals());
            if x & !y != 0 {
                assert(exists|v: nat| rest.contains(v)) by {
                    if !(exists|v: nat| rest.contains(v)) {
                        assert(rest =~= Set::<nat>::empty());
                    }
                }
            } else {
                assert forall|v: nat| self.finals().contains(v) implies states.finals().contains(v) by {
                    assert(!rest.contains(v));
                }
            }
        }
        x & !y == 0
    }

    /// Removes the final values of `states`.
    pub fn clear_states(&mut self, states: &BitState<FINAL_STATE_COUNT>)
        ensures
            final(self).finals() == old(self).finals().difference(states.finals()),
    {
        proof {
            lemma_and_not(self.0, states.0);
        }
        self.0 = self.0 & !states.0;
    }

    /// Appends the indices of the final values, in increasing order.
    pub fn collect_final_states(&self, states: &mut Vec<u32>)
        ensures
            final(states)@.subrange(0, old(states)@.len() as int) == old(states)@,
            lists_in_order(
                final(states)@.subrange(old(states)@.len() as int, final(states)@.len() as int),
                self.finals(),
            ),
    {
        let x = self.0;
        let ghost start = old(states)@.len() as int;
        let mut i: u32 = 0;
        proof {
            assert(bits_below(x, 0) =~= Set::<nat>::empty());
            lemma_bits_below_finite(x, 0);
        }
        while i < 64
            invariant
                i <= 64,
                start == old(states)@.len(),
                states@.len() >= start,
                states@.subrange(0, start) == old(states)@,
                lists_in_order(states@.subrange(start, states@.len() as int), bits_below(x, i as nat)),
                forall|j: int| start <= j < states@.len() ==> states@[j] < i,
            decreases 64 - i,
        {
            proof {
                lemma_bits_below_step(x, i as nat);
            }
            let ghost prev = states@;
            if x & (1u64 << i) != 0 {
                states.push(i);
            }
            proof {
                let s = i as u64;
                assert(x & (1u64 << s) != 0 <==> (x >> s) & 1 == 1) by (bit_vector);
                let added = states@.subrange(start, states@.len() as int);
                let before = prev.subrange(start, prev.len() as int);
                assert(states@.subrange(0, start) =~= prev.subrange(0, start));
                if states@.len() > prev.len() {
                    assert(added =~= before.push(i));
                } else {
                    assert(added =~= before);
                }
                assert forall|v: nat| #[trigger] bits_below(x, (i + 1) as nat).contains(v) <==> exists|j: int|
                    0 <= j < added.len() && added[j] == v by {
                    if bits_below(x, (i + 1) as nat).contains(v) {
                        if v == i as nat {
                            assert(added[added.len() - 1] == v);
                        } else {
                            assert(bits_below(x, i as nat).contains(v));
                            let j = choose|j: int| 0 <= j < before.len() && before[j] == v;
                            assert(added[j] == v);
                        }
                    }
                    if exists|j: int| 0 <= j < added.len() && added[j] == v {
                        let j = choose|j: int| 0 <= j < added.len() && added[j] == v;
                        if j < before.len() {
                            assert(before[j] == v);
                        }
                    }
                }
            }
            i = i + 1;
        }
        proof {
            lemma_bits_finite(x);
        }
    }
}

impl<const FINAL_STATE_COUNT: u32> State for BitState<FINAL_STATE_COUNT> {
    open spec fn finals(&self) -> Set<nat> {
        bits_of(self.mask())
    }

    proof fn lemma_finals_finite(&self) {
        lemma_bits_finite(self.0);
    }

    fn entropy(&self) -> (r: Option<usize>) {
        let count = count_bits(self.0);
        if count == 0 {
            None
        } else {
            Some((count - 1) as usize)
        }
    }

    fn copy_state(&self) -> (r: Self) {
        BitState(self.0)
    }
}

} // verus!

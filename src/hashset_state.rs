use std::collections::HashSet;
use vstd::prelude::*;
use vstd::seq_lib::seq_to_set_is_finite;
use vstd::set_lib::lemma_map_size;
use vstd::std_specs::hash::spec_hash_keys_iter;
use vstd::std_specs::iter::IteratorSpec;
use crate::set_state::{singletons_of, SetState};
use crate::state::State;

verus! {

broadcast use vstd::std_specs::hash::group_hash_axioms;

/// The values of `s`, as natural numbers.
pub open spec fn nats_of(s: Set<u64>) -> Set<nat> {
    Set::new(|n: nat| n <= u64::MAX && s.contains(n as u64))
}

/// The values listed in `s`, as natural numbers.
pub open spec fn listed(s: Seq<u64>) -> Set<nat> {
    Set::new(|n: nat| exists|j: int| 0 <= j < s.len() && #[trigger] s[j] == n)
}

proof fn lemma_nats_of(s: Set<u64>)
    requires
        s.finite(),
    ensures
        nats_of(s).finite(),
        nats_of(s).len() == s.len(),
{
    let f = |v: u64| v as nat;
    assert forall|n: nat| #[trigger] s.map(f).contains(n) == nats_of(s).contains(n) by {
        if nats_of(s).contains(n) {
            assert(f(n as u64) == n);
        }
    }
    assert(s.map(f) =~= nats_of(s));
    lemma_map_size(s, nats_of(s), f);
}

proof fn lemma_view_finite(set: &HashSet<u64>)
    ensures
        set@.finite(),
{
    let keys = spec_hash_keys_iter(set).remaining();
    seq_to_set_is_finite(keys.unref());
}

/// The elements of `set`, each once, in the set's iteration order.
fn elements(set: &HashSet<u64>) -> (r: Vec<u64>)
    ensures
        r@.to_set() == set@,
        r@.no_duplicates(),
        r@.len() == set@.len(),
{
    let mut out: Vec<u64> = Vec::new();
    for x in it: set.iter()
        invariant
            out@ == it.seq().unref().subrange(0, it.index() as int),
            it.seq().unref().to_set() == set@,
            it.seq().unref().no_duplicates(),
            it.index() == it.seq().len() ==> out@ =~= it.seq().unref(),
    {
        out.push(*x);
    }
    proof {
        out@.unique_seq_to_set();
    }
    out
}

/// A state that holds its possible final values in a hash set, with no bound
/// on how many final values there are.
pub struct HashsetState {
    pub hashset: HashSet<u64>,
}

impl HashsetState {
    /// The state holding only final value `state`.
    pub fn new_final(state: &u64) -> (r: Self)
        ensures
            r.finals() == set![*state as nat],
    {
        let mut hashset: HashSet<u64> = HashSet::new();
        hashset.insert(*state);
        let r = HashsetState { hashset };
        assert(r.finals() =~= set![*state as nat]);
        r
    }

    /// The state holding each final value listed in `states`.
    pub fn new(states: &[u64]) -> (r: Self)
        ensures
            r.finals() == listed(states@),
    {
        let mut hashset: HashSet<u64> = HashSet::new();
        let mut i: usize = 0;
        while i < states.len()
            invariant
                i <= states@.len(),
                nats_of(hashset@) == listed(states@.subrange(0, i as int)),
            decreases states@.len() - i,
        {
            let ghost before = hashset@;
            hashset.insert(states[i]);
            proof {
                let pre = states@.subrange(0, i as int);
                let post = states@.subrange(0, i + 1);
                assert forall|n: nat| #[trigger] nats_of(hashset@).contains(n) == listed(post).contains(n) by {
                    if listed(post).contains(n) {
                        let j = choose|j: int| 0 <= j < post.len() && #[trigger] post[j] == n;
                        if j < i {
                            assert(pre[j] == n);
                        }
                    }
                    if listed(pre).contains(n) {
                        let j = choose|j: int| 0 <= j < pre.len() && #[trigger] pre[j] == n;
                        assert(post[j] == n);
                    }
                    if n == states@[i as int] as nat {
                        assert(post[i as int] == n);
                    }
                }
                assert(nats_of(hashset@) =~= listed(post));
            }
            i = i + 1;
        }
        assert(states@.subrange(0, states@.len() as int) =~= states@);
        HashsetState { hashset }
    }
}

impl State for HashsetState {
    open spec fn finals(&self) -> Set<nat> {
        nats_of(self.hashset@)
    }

    proof fn lemma_finals_finite(&self) {
        lemma_view_finite(&self.hashset);
        lemma_nats_of(self.hashset@);
    }

    fn entropy(&self) -> (r: Option<usize>) {
        proof {
            lemma_view_finite(&self.hashset);
            lemma_nats_of(self.hashset@);
        }
        let count = self.hashset.len();
        if count == 0 {
            None
        } else {
            Some(count - 1)
        }
    }

    fn copy_state(&self) -> (r: Self) {
        let values = elements(&self.hashset);
        let r = HashsetState::new(values.as_slice());
        proof {
            assert forall|n: nat| #[trigger] r.finals().contains(n) == self.finals().contains(n) by {
                if self.finals().contains(n) {
                    assert(values@.to_set().contains(n as u64));
                    let j = choose|j: int| 0 <= j < values@.len() && values@[j] == n as u64;
                    assert(values@[j] == n);
                }
                if listed(values@).contains(n) {
                    let j = choose|j: int| 0 <= j < values@.len() && #[trigger] values@[j] == n;
                    assert(values@.to_set().contains(values@[j]));
                }
            }
            assert(r.finals() =~= self.finals());
        }
        r
    }
}

impl SetState for HashsetState {
    fn set_states(&mut self, states: &Self) {
        let values = elements(&states.hashset);
        let ghost start = self.finals();
        let mut i: usize = 0;
        while i < values.len()
            invariant
                i <= values@.len(),
                values@.to_set() == states.hashset@,
                self.finals() == start.union(listed(values@.subrange(0, i as int))),
            decreases values@.len() - i,
        {
            let ghost before_set = self.hashset@;
            self.hashset.insert(values[i]);
            proof {
                let pre = values@.subrange(0, i as int);
                let post = values@.subrange(0, i + 1);
                assert(self.hashset@ == before_set.insert(values@[i as int]));
                assert forall|n: nat| #[trigger] self.finals().contains(n) == start.union(listed(post)).contains(n) by {
                    assert(nats_of(before_set).contains(n) == (start.contains(n) || listed(pre).contains(n)));
                    if n <= u64::MAX {
                        assert(self.hashset@.contains(n as u64) == (before_set.contains(n as u64)
                            || n as u64 == values@[i as int]));
                    }
                    if listed(post).contains(n) {
                        let j = choose|j: int| 0 <= j < post.len() && #[trigger] post[j] == n;
                        if j < i {
                            assert(pre[j] == n);
                        }
                    }
                    if listed(pre).contains(n) {
                        let j = choose|j: int| 0 <= j < pre.len() && #[trigger] pre[j] == n;
                        assert(post[j] == n);
                    }
                    if n == values@[i as int] as nat {
                        assert(post[i as int] == n);
                    }
                }
                assert(self.finals() =~= start.union(listed(post)));
            }
            i = i + 1;
        }
        proof {
            assert(values@.subrange(0, values@.len() as int) =~= values@);
            assert forall|n: nat| #[trigger] listed(values@).contains(n) == states.finals().contains(n) by {
                if states.finals().contains(n) {
                    assert(values@.to_set().contains(n as u64));
                    let j = choose|j: int| 0 <= j < values@.len() && values@[j] == n as u64;
                    assert(values@[j] == n);
                }
                if listed(values@).contains(n) {
                    let j = choose|j: int| 0 <= j < values@.len() && #[trigger] values@[j] == n;
                    assert(values@.to_set().contains(values@[j]));
                }
            }
            assert(listed(values@) =~= states.finals());
        }
    }

    fn has_any_of(&self, states: &Self) -> (r: bool) {
        let values = elements(&self.hashset);
        let mut i: usize = 0;
        while i < values.len()
            invariant
                i <= values@.len(),
                values@.to_set() == self.hashset@,
                forall|j: int| 0 <= j < i ==> !states.hashset@.contains(#[trigger] values@[j]),
            decreases values@.len() - i,
        {
            if states.hashset.contains(&values[i]) {
                proof {
                    let v = values@[i as int];
                    assert(values@.to_set().contains(v));
                    assert(self.finals().contains(v as nat));
                    assert(states.finals().contains(v as nat));
                }
                return true;
            }
            i = i + 1;
        }
        proof {
            assert forall|n: nat| self.finals().contains(n) implies !states.finals().contains(n) by {
                assert(values@.to_set().contains(n as u64));
                let j = choose|j: int| 0 <= j < values@.len() && values@[j] == n as u64;
                assert(!states.hashset@.contains(values@[j]));
            }
        }
        false
    }

    fn clear_states(&mut self, states: &Self) {
        let values = elements(&states.hashset);
        let ghost start = self.finals();
        let mut i: usize = 0;
        while i < values.len()
            invariant
                i <= values@.len(),
                values@.to_set() == states.hashset@,
                self.finals() == start.difference(listed(values@.subrange(0, i as int))),
            decreases values@.len() - i,
        {
            let ghost before_set = self.hashset@;
            self.hashset.remove(&values[i]);
            proof {
                let pre = values@.subrange(0, i as int);
                let post = values@.subrange(0, i + 1);
                assert(self.hashset@ == before_set.remove(values@[i as int]));
                assert forall|n: nat| n <= u64::MAX implies #[trigger] self.hashset@.contains(n as u64) == (before_set.contains(n as u64)
                    && n as u64 != values@[i as int]) by {}
                assert forall|n: nat| #[trigger] nats_of(before_set).contains(n) == (start.contains(n) && !listed(pre).contains(n)) by {}
                assert forall|n: nat| #[trigger] listed(post).contains(n) == (listed(pre).contains(n) || n == values@[i as int] as nat) by {
                    if listed(post).contains(n) {
                        let j = choose|j: int| 0 <= j < post.len() && #[trigger] post[j] == n;
                        if j < i {
                            assert(pre[j] == n);
                        }
                    }
                    if listed(pre).contains(n) {
                        let j = choose|j: int| 0 <= j < pre.len() && #[trigger] pre[j] == n;
                        assert(post[j] == n);
                    }
                    if n == values@[i as int] as nat {
                        assert(post[i as int] == n);
                    }
                }
                assert forall|n: nat| #[trigger] self.finals().contains(n) == start.difference(listed(post)).contains(n) by {
                    assert(nats_of(before_set).contains(n) == (start.contains(n) && !listed(pre).contains(n)));
                    assert(listed(post).contains(n) == (listed(pre).contains(n) || n == values@[i as int] as nat));
                }
                assert(self.finals() =~= start.difference(listed(post)));
            }
            i = i + 1;
        }
        proof {
            assert(values@.subrange(0, values@.len() as int) =~= values@);
            assert forall|n: nat| #[trigger] listed(values@).contains(n) == states.finals().contains(n) by {
                if states.finals().contains(n) {
                    assert(values@.to_set().contains(n as u64));
                    let j = choose|j: int| 0 <= j < values@.len() && values@[j] == n as u64;
                    assert(values@[j] == n);
                }
                if listed(values@).contains(n) {
                    let j = choose|j: int| 0 <= j < values@.len() && #[trigger] values@[j] == n;
                    assert(values@.to_set().contains(values@[j]));
                }
            }
            assert(listed(values@) =~= states.finals());
        }
    }

    fn collect_final_states(&self, states: &mut Vec<Self>) {
        let values = elements(&self.hashset);
        let ghost start = old(states)@.len() as int;
        let mut i: usize = 0;
        while i < values.len()
            invariant
                i <= values@.len(),
                values@.to_set() == self.hashset@,
                values@.no_duplicates(),
                start == old(states)@.len(),
                states@.len() == start + i,
                states@.subrange(0, start) == old(states)@,
                forall|j: int| 0 <= j < i ==> (#[trigger] states@[start + j]).finals() == set![values@[j] as nat],
            decreases values@.len() - i,
        {
            let single = HashsetState::new_final(&values[i]);
            states.push(single);
            proof {
                assert(states@.subrange(0, start) =~= old(states)@);
            }
            i = i + 1;
        }
        proof {
            let added = states@.subrange(start, states@.len() as int);
            lemma_view_finite(&self.hashset);
            lemma_nats_of(self.hashset@);
            values@.unique_seq_to_set();
            assert forall|j: int| 0 <= j < added.len() implies exists|v: nat|
                self.finals().contains(v) && #[trigger] added[j].finals() == set![v] by {
                assert(added[j] == states@[start + j]);
                assert(values@.to_set().contains(values@[j]));
                assert(self.finals().contains(values@[j] as nat));
            }
            assert forall|v: nat| self.finals().contains(v) implies exists|j: int|
                0 <= j < added.len() && #[trigger] added[j].finals() == set![v] by {
                assert(values@.to_set().contains(v as u64));
                let j = choose|j: int| 0 <= j < values@.len() && values@[j] == v as u64;
                assert(added[j] == states@[start + j]);
                assert(values@[j] as nat == v);
                assert(added[j].finals() == set![v]);
            }
            assert(added.len() == values@.len());
            assert(values@.len() == self.hashset@.len());
            assert(added.len() == self.finals().len());
            assert(singletons_of(added, self.finals()));
        }
    }
}

} // verus!

use vstd::prelude::*;
use crate::all_state::AllState;
use crate::collapse_rule::CollapseRule;
use crate::random::RandomSource;
use crate::set_state::{lemma_singletons_distinct, single_of, singletons_of, SetState};
use crate::space::{InvertDelta, Space};
use crate::state::{finals_of, State};

verus! {

/// An adjacency record: final value `.0` allows final value `.2` as its
/// neighbour at offset `.1`.
pub type Link<D> = (nat, D, nat);

/// `t` is the record "`a` allows `b` at `d`", or its mirror "`b` allows `a` at
/// the inverse of `d`".
pub open spec fn links<D: InvertDelta>(t: Link<D>, a: nat, d: D, b: nat) -> bool {
    t == (a, d, b) || t == (b, d.inverse(), a)
}

/// `t` is one of the records that the declaration "each value of `values`
/// allows, at each offset `neighbors[m].0`, each value of `neighbors[m].1`"
/// makes, mirrors included.
pub open spec fn declares<D: InvertDelta>(
    t: Link<D>,
    values: Set<nat>,
    neighbors: Seq<(D, Set<nat>)>,
) -> bool {
    exists|a: nat, m: int, b: nat|
        values.contains(a) && 0 <= m < neighbors.len() && neighbors[m].1.contains(b) && #[trigger] links(
            t,
            a,
            neighbors[m].0,
            b,
        )
}

/// The offsets and final-value sets of a list of `(offset, state)` pairs.
pub open spec fn neighbor_sets<D, S: State>(neighbors: Seq<(D, S)>) -> Seq<(D, Set<nat>)> {
    neighbors.map_values(|p: (D, S)| (p.0, p.1.finals()))
}

/// Some record of `rel` names `v`, on either side.
pub open spec fn mentions<D>(rel: Set<Link<D>>, v: nat) -> bool {
    exists|t: Link<D>| rel.contains(t) && (t.0 == v || t.2 == v)
}

/// `offsets` lists exactly the offsets that records of `rel` use.
pub open spec fn offsets_used<D>(offsets: Seq<D>, rel: Set<Link<D>>) -> bool {
    forall|d: D| #[trigger] offsets.contains(d) <==> exists|t: Link<D>| rel.contains(t) && t.1 == d
}

/// `s` with `d` appended, unless it holds `d` already.
pub open spec fn add_offset<D>(s: Seq<D>, d: D) -> Seq<D> {
    if s.contains(d) {
        s
    } else {
        s.push(d)
    }
}

/// The offset list after declaring `neighbors` for some values: for each
/// pair with neighbour values, its offset and then that offset's inverse,
/// each appended when first seen.
pub open spec fn offsets_after<D: InvertDelta>(offsets: Seq<D>, neighbors: Seq<(D, Set<nat>)>) -> Seq<
    D,
>
    decreases neighbors.len(),
{
    if neighbors.len() == 0 {
        offsets
    } else {
        let prev = offsets_after(offsets, neighbors.drop_last());
        let d = neighbors.last().0;
        if neighbors.last().1 == Set::<nat>::empty() {
            prev
        } else {
            add_offset(add_offset(prev, d), d.inverse())
        }
    }
}

proof fn lemma_add_offset_contains<D>(s: Seq<D>, d: D, x: D)
    ensures
        add_offset(s, d).contains(x) <==> s.contains(x) || x == d,
{
    if !s.contains(d) {
        if s.push(d).contains(x) && x != d {
            let j = choose|j: int| 0 <= j < s.push(d).len() && s.push(d)[j] == x;
            assert(s[j] == x);
        }
        if s.contains(x) {
            let j = choose|j: int| 0 <= j < s.len() && s[j] == x;
            assert(s.push(d)[j] == x);
        }
        if x == d {
            assert(s.push(d)[s.len() as int] == x);
        }
    }
}

/// The offset list after the declarations holds what it held before, and the
/// offset of each pair with neighbour values and its inverse.
proof fn lemma_offsets_after_contains<D: InvertDelta>(
    offsets: Seq<D>,
    neighbors: Seq<(D, Set<nat>)>,
    x: D,
)
    ensures
        offsets.contains(x) ==> offsets_after(offsets, neighbors).contains(x),
        forall|m: int|
            0 <= m < neighbors.len() && neighbors[m].1 != Set::<nat>::empty() && (x
                == neighbors[m].0 || x == neighbors[m].0.inverse()) ==> offsets_after(
                offsets,
                neighbors,
            ).contains(x),
    decreases neighbors.len(),
{
    if neighbors.len() > 0 {
        let init = neighbors.drop_last();
        lemma_offsets_after_contains(offsets, init, x);
        let prev = offsets_after(offsets, init);
        let d = neighbors.last().0;
        lemma_add_offset_contains(prev, d, x);
        lemma_add_offset_contains(add_offset(prev, d), d.inverse(), x);
        assert forall|m: int|
            0 <= m < neighbors.len() && neighbors[m].1 != Set::<nat>::empty() && (x
                == neighbors[m].0 || x == neighbors[m].0.inverse()) implies offsets_after(
            offsets,
            neighbors,
        ).contains(x) by {
            if m < init.len() {
                assert(init[m] == neighbors[m]);
            }
        }
    }
}

/// `s` starts with `prefix`.
pub open spec fn extends<D>(s: Seq<D>, prefix: Seq<D>) -> bool {
    prefix.len() <= s.len() && s.subrange(0, prefix.len() as int) == prefix
}

proof fn lemma_extends_trans<D>(a: Seq<D>, b: Seq<D>, c: Seq<D>)
    requires
        extends(a, b),
        extends(b, c),
    ensures
        extends(a, c),
{
    assert(a.subrange(0, c.len() as int) =~= b.subrange(0, c.len() as int));
}

/// The final values allowed by a slot: none for `None`.
pub open spec fn slot_finals<S: State>(slot: Option<S>) -> Set<nat> {
    match slot {
        Some(s) => s.finals(),
        None => Set::empty(),
    }
}

/// The final values allowed by slot `i` of `slots`: none for a missing slot.
pub open spec fn slot_at<S: State>(slots: Seq<Option<S>>, i: int) -> Set<nat> {
    if 0 <= i < slots.len() {
        slot_finals(slots[i])
    } else {
        Set::empty()
    }
}

/// The records that a table of rows states: row `k` allows, at `offsets[i]`,
/// the values of its slot `i`.
pub open spec fn table_links<S: State, D>(
    offsets: Seq<D>,
    rows: Seq<(S, Seq<Option<S>>)>,
) -> Set<Link<D>> {
    Set::new(
        |t: Link<D>|
            exists|k: int, i: int|
                0 <= k < rows.len() && 0 <= i < offsets.len()
                    && #[trigger] rows[k].0.finals().contains(t.0) && offsets[i] == t.1
                    && #[trigger] slot_at(rows[k].1, i).contains(t.2),
    )
}

/// `s` holds exactly one value.
pub open spec fn is_singleton(s: Set<nat>) -> bool {
    exists|v: nat| s == set![v]
}

/// Every row holds exactly one final value.
pub open spec fn singleton_rows<S: State>(rows: Seq<(S, Seq<Option<S>>)>) -> bool {
    forall|k: int| 0 <= k < rows.len() ==> is_singleton(#[trigger] rows[k].0.finals())
}

/// No two rows hold the same final values.
pub open spec fn distinct_rows<S: State>(rows: Seq<(S, Seq<Option<S>>)>) -> bool {
    forall|k1: int, k2: int|
        0 <= k1 < rows.len() && 0 <= k2 < rows.len() && k1 != k2 ==> (#[trigger] rows[k1]).0.finals()
            != (#[trigger] rows[k2]).0.finals()
}

/// Every value named by a record of `rel` has a row.
pub open spec fn records_have_rows<S: State, D>(rel: Set<Link<D>>, rows: Seq<(S, Seq<Option<S>>)>) -> bool {
    forall|t: Link<D>|
        #[trigger] rel.contains(t) ==> row_values(rows).contains(t.0) && row_values(rows).contains(t.2)
}

/// The values a declaration names: those of `values` and of every neighbour set.
pub open spec fn named_values<D>(values: Set<nat>, neighbors: Seq<(D, Set<nat>)>) -> Set<nat> {
    values.union(Set::new(|v: nat| exists|m: int| 0 <= m < neighbors.len() && #[trigger] neighbors[m].1.contains(v)))
}

/// `after` keeps, in order, the row values of `before`.
pub open spec fn keeps_rows<S: State>(after: Seq<(S, Seq<Option<S>>)>, before: Seq<(S, Seq<Option<S>>)>) -> bool {
    &&& before.len() <= after.len()
    &&& forall|k: int| 0 <= k < before.len() ==> (#[trigger] after[k]).0 == before[k].0
}

/// The values that have a row.
pub open spec fn row_values<S: State>(rows: Seq<(S, Seq<Option<S>>)>) -> Set<nat> {
    Set::new(|v: nat| exists|k: int| 0 <= k < rows.len() && #[trigger] rows[k].0.finals().contains(v))
}

/// Observers commit a cell to one final value.
pub trait SetCollapseObserver<S: State> {
    /// Forces `cell` to one of the final values it still allows.
    fn observe<R: RandomSource>(&self, cell: &mut S, neighbors: &[Option<S>], rng: &mut R)
        requires
            old(cell).finals().len() > 0,
        ensures
            final(cell).finals().subset_of(old(cell).finals()),
            final(cell).finals().len() == 1,
    ;
}

/// Picks one of the cell's remaining final values uniformly at random.
#[derive(Clone, Copy)]
pub struct UniformSetCollapseObserver;

impl UniformSetCollapseObserver {
    /// Commits `cell` to the singleton at position `index` of `final_states`,
    /// the enumeration of its final values: each position gives a different
    /// value, so a uniform `index` gives a uniform value.
    pub fn keep_at<S: SetState>(cell: &mut S, final_states: Vec<S>, index: usize)
        requires
            singletons_of(final_states@, old(cell).finals()),
            old(cell).finals().finite(),
            index < final_states@.len(),
        ensures
            *final(cell) == final_states@[index as int],
            final(cell).finals().subset_of(old(cell).finals()),
            final(cell).finals().len() == 1,
            forall|j: int|
                0 <= j < final_states@.len() && j != index ==> (#[trigger] final_states@[j]).finals()
                    != final(cell).finals(),
    {
        proof {
            lemma_singletons_distinct(final_states@, cell.finals());
            assert(single_of(final_states@[index as int].finals(), cell.finals()));
            let v = choose|v: nat| cell.finals().contains(v) && final_states@[index as int].finals() == set![v];
            assert(set![v].len() == 1);
        }
        let mut states = final_states;
        let chosen = states.remove(index);
        *cell = chosen;
    }
}

impl<S: SetState> SetCollapseObserver<S> for UniformSetCollapseObserver {
    /// Enumerates the cell's final values and keeps the one at a position
    /// drawn uniformly from `rng`.
    fn observe<R: RandomSource>(&self, cell: &mut S, neighbors: &[Option<S>], rng: &mut R)
        ensures
            exists|states: Seq<S>, k: int|
                singletons_of(states, old(cell).finals()) && 0 <= k < states.len() && *final(cell)
                    == #[trigger] states[k],
    {
        let mut final_states: Vec<S> = Vec::new();
        cell.collect_final_states(&mut final_states);
        proof {
            cell.lemma_finals_finite();
            assert(final_states@.subrange(0, final_states@.len() as int) =~= final_states@);
        }
        let ghost states = final_states@;
        let pick = rng.below(final_states.len());
        UniformSetCollapseObserver::keep_at(cell, final_states, pick);
        proof {
            assert(*cell == states[pick as int]);
        }
    }
}

/// The neighbours allowed for one final value, one slot per offset index.
struct StateRule<S> {
    state: S,
    allowed_neighbors: Vec<Option<S>>,
}

impl<S: SetState> StateRule<S> {
    spec fn row(self) -> (S, Seq<Option<S>>) {
        (self.state, self.allowed_neighbors@)
    }

    /// Adds the values of `allowed` to slot `neighbor_index`, growing the
    /// slots as needed.
    fn add_allowed(&mut self, neighbor_index: usize, allowed: &S)
        ensures
            final(self).state == old(self).state,
            final(self).allowed_neighbors@.len() == if neighbor_index
                < old(self).allowed_neighbors@.len() {
                old(self).allowed_neighbors@.len() as int
            } else {
                neighbor_index + 1
            },
            forall|i: int| #[trigger]
                slot_at(final(self).allowed_neighbors@, i) == if i == neighbor_index {
                    slot_at(old(self).allowed_neighbors@, i).union(allowed.finals())
                } else {
                    slot_at(old(self).allowed_neighbors@, i)
                },
    {
        let ghost start = self.allowed_neighbors@;
        while self.allowed_neighbors.len() <= neighbor_index
            invariant
                self.state == old(self).state,
                start == old(self).allowed_neighbors@,
                self.allowed_neighbors@.len() >= start.len(),
                self.allowed_neighbors@.len() <= if neighbor_index < start.len() {
                    start.len() as int
                } else {
                    neighbor_index + 1
                },
                forall|i: int| 0 <= i < start.len() ==> self.allowed_neighbors@[i] == start[i],
                forall|i: int|
                    start.len() <= i < self.allowed_neighbors@.len() ==> self.allowed_neighbors@[i]
                        is None,
            decreases neighbor_index + 1 - self.allowed_neighbors@.len(),
        {
            self.allowed_neighbors.push(None);
        }
        let updated = match &self.allowed_neighbors[neighbor_index] {
            Some(current) => {
                let mut merged = current.copy_state();
                merged.set_states(allowed);
                merged
            },
            None => {
                let fresh = allowed.copy_state();
                assert(Set::<nat>::empty().union(allowed.finals()) =~= allowed.finals());
                fresh
            },
        };
        self.allowed_neighbors.set(neighbor_index, Some(updated));
        proof {
            assert forall|i: int| #[trigger]
                slot_at(self.allowed_neighbors@, i) == if i == neighbor_index {
                    slot_at(start, i).union(allowed.finals())
                } else {
                    slot_at(start, i)
                } by {
                if i == neighbor_index && i >= start.len() {
                    assert(Set::<nat>::empty().union(allowed.finals()) =~= allowed.finals());
                }
            }
        }
    }
}

/// Adding value `b` to slot `i` of row `k`, whose only value is `a`, adds
/// exactly the record "`a` allows `b` at `offsets[i]`".
proof fn lemma_add_link<S: State, D>(
    offsets: Seq<D>,
    rows: Seq<(S, Seq<Option<S>>)>,
    rows2: Seq<(S, Seq<Option<S>>)>,
    k: int,
    i: int,
    a: nat,
    b: nat,
)
    requires
        0 <= k < rows.len(),
        0 <= i < offsets.len(),
        rows2.len() == rows.len(),
        rows[k].0.finals() == set![a],
        rows2[k].0 == rows[k].0,
        forall|j: int| #[trigger]
            slot_at(rows2[k].1, j) == if j == i {
                slot_at(rows[k].1, j).union(set![b])
            } else {
                slot_at(rows[k].1, j)
            },
        forall|q: int| 0 <= q < rows.len() && q != k ==> rows2[q] == rows[q],
    ensures
        forall|t: Link<D>|
            #[trigger] table_links(offsets, rows2).contains(t) <==> table_links(offsets, rows).contains(t)
                || t == (a, offsets[i], b),
{
    assert forall|t: Link<D>|
        #[trigger] table_links(offsets, rows2).contains(t) <==> table_links(offsets, rows).contains(t)
            || t == (a, offsets[i], b) by {
        if table_links(offsets, rows2).contains(t) {
            let (q, j) = choose|q: int, j: int|
                0 <= q < rows2.len() && 0 <= j < offsets.len()
                    && #[trigger] rows2[q].0.finals().contains(t.0) && offsets[j] == t.1
                    && #[trigger] slot_at(rows2[q].1, j).contains(t.2);
            if q != k || j != i || t.2 != b {
                assert(rows[q].0.finals().contains(t.0));
                assert(slot_at(rows[q].1, j).contains(t.2));
            } else {
                assert(t.0 == a);
            }
        }
        if table_links(offsets, rows).contains(t) {
            let (q, j) = choose|q: int, j: int|
                0 <= q < rows.len() && 0 <= j < offsets.len()
                    && #[trigger] rows[q].0.finals().contains(t.0) && offsets[j] == t.1
                    && #[trigger] slot_at(rows[q].1, j).contains(t.2);
            assert(rows2[q].0.finals().contains(t.0));
            assert(slot_at(rows2[q].1, j).contains(t.2));
        }
        if t == (a, offsets[i], b) {
            assert(rows2[k].0.finals().contains(t.0));
            assert(slot_at(rows2[k].1, i).contains(t.2));
        }
    }
}

/// Builder for [`SetCollapseRule`].
///
/// Collects the coordinate deltas in use and makes symmetric rules out of
/// one-sided declarations.
pub struct SetCollapseRuleBuilder<S: SetState, Sp: Space<S>, O: SetCollapseObserver<S>> {
    neighbor_offsets: Vec<Sp::CoordinateDelta>,
    state_rules: Vec<StateRule<S>>,
    observer: O,
}

impl<S: SetState + AllState, Sp: Space<S>, O: SetCollapseObserver<S>> SetCollapseRuleBuilder<
    S,
    Sp,
    O,
> where Sp::CoordinateDelta: Copy + InvertDelta {
    /// The offsets seen so far, by offset index.
    pub closed spec fn offsets(&self) -> Seq<Sp::CoordinateDelta> {
        self.neighbor_offsets@
    }

    /// The declared rows: a final value and its slots, one per offset index.
    pub closed spec fn rows(&self) -> Seq<(S, Seq<Option<S>>)> {
        self.state_rules@.map_values(|r: StateRule<S>| r.row())
    }

    /// The adjacency records declared so far.
    pub open spec fn relation(&self) -> Set<Link<Sp::CoordinateDelta>> {
        table_links(self.offsets(), self.rows())
    }

    /// The observer the built rule will commit cells with.
    pub closed spec fn observer(&self) -> O {
        self.observer
    }

    /// Rows hold one final value each and no more slots than there are
    /// offsets; offsets are distinct.
    pub open spec fn table_ok(&self) -> bool {
        &&& singleton_rows(self.rows())
        &&& distinct_rows(self.rows())
        &&& self.offsets().no_duplicates()
        &&& forall|k: int| 0 <= k < self.rows().len() ==> (#[trigger] self.rows()[k]).1.len() <= self.offsets().len()
    }

    /// The builder's invariant: a consistent table whose offsets are exactly
    /// the offsets of its records.
    pub open spec fn well_formed(&self) -> bool {
        &&& self.table_ok()
        &&& offsets_used(self.offsets(), self.relation())
        &&& mirrored(self.relation())
        &&& records_have_rows(self.relation(), self.rows())
    }

    /// A builder with nothing declared.
    pub fn new(observer: O) -> (r: Self)
        ensures
            r.well_formed(),
            r.relation() == Set::<Link<Sp::CoordinateDelta>>::empty(),
            r.offsets().len() == 0,
            r.rows().len() == 0,
            r.observer() == observer,
    {
        let r = SetCollapseRuleBuilder {
            neighbor_offsets: Vec::new(),
            state_rules: Vec::new(),
            observer,
        };
        assert(r.relation() =~= Set::<Link<Sp::CoordinateDelta>>::empty());
        r
    }

    /// Declares that each final value of `state` allows, at each offset
    /// `neighbors[m].0`, each final value of `neighbors[m].1`; the mirror
    /// records are added too. For example, allowing A to the left of B also
    /// allows B to the right of A.
    ///
    /// A final value with no allowed neighbour at some offset requires that
    /// offset to lead outside the space.
    pub fn allow(self, state: &S, neighbors: &[(Sp::CoordinateDelta, S)]) -> (r: Self)
        requires
            self.well_formed(),
        ensures
            r.well_formed(),
            extends(r.offsets(), self.offsets()),
            r.offsets() == if state.finals() == Set::<nat>::empty() {
                self.offsets()
            } else {
                offsets_after(self.offsets(), neighbor_sets(neighbors@))
            },
            r.observer() == self.observer(),
            keeps_rows(r.rows(), self.rows()),
            row_values(r.rows()).subset_of(
                row_values(self.rows()).union(named_values(state.finals(), neighbor_sets(neighbors@))),
            ),
            forall|t: Link<Sp::CoordinateDelta>|
                #[trigger] r.relation().contains(t) <==> self.relation().contains(t) || declares(
                    t,
                    state.finals(),
                    neighbor_sets(neighbors@),
                ),
    {
        let ghost nb = neighbor_sets(neighbors@);
        let ghost rel0 = self.relation();
        let ghost off0 = self.offsets();
        let ghost obs0 = self.observer();
        let ghost rows0 = self.rows();
        proof {
            assert forall|k: int| 0 <= k < rows0.len() implies (#[trigger] rows0[k]).0 == rows0[k].0 by {}
        }
        let ghost named = named_values(state.finals(), neighbor_sets(neighbors@));
        let mut builder = self;
        let mut states: Vec<S> = Vec::new();
        state.collect_final_states(&mut states);
        proof {
            assert(states@.subrange(0, states@.len() as int) =~= states@);
            assert(off0.subrange(0, off0.len() as int) =~= off0);
        }
        let mut j: usize = 0;
        while j < states.len()
            invariant
                builder.well_formed(),
                extends(builder.offsets(), off0),
                builder.observer() == obs0,
                keeps_rows(builder.rows(), rows0),
                row_values(builder.rows()).subset_of(row_values(rows0).union(named)),
                named == named_values(state.finals(), neighbor_sets(neighbors@)),
                j == 0 ==> builder.offsets() == off0,
                j > 0 ==> builder.offsets() == offsets_after(off0, nb),
                nb == neighbor_sets(neighbors@),
                singletons_of(states@, state.finals()),
                j <= states@.len(),
                forall|t: Link<Sp::CoordinateDelta>|
                    #[trigger] builder.relation().contains(t) <==> rel0.contains(t) || exists|
                        j2: int,
                        a: nat,
                        m2: int,
                        b: nat,
                    |
                        0 <= j2 < j && #[trigger] states@[j2].finals() == set![a] && 0 <= m2 < nb.len()
                            && nb[m2].1.contains(b) && #[trigger] links(t, a, nb[m2].0, b),
            decreases states@.len() - j,
        {
            let ghost va = choose|v: nat| state.finals().contains(v) && #[trigger] states@[j as int].finals() == set![v];
            let ghost rel_j = builder.relation();
            let mut m: usize = 0;
            proof {
                assert(nb.subrange(0, 0) =~= Seq::<(Sp::CoordinateDelta, Set<nat>)>::empty());
            }
            while m < neighbors.len()
                invariant
                    builder.well_formed(),
                    extends(builder.offsets(), off0),
                    builder.observer() == obs0,
                keeps_rows(builder.rows(), rows0),
                row_values(builder.rows()).subset_of(row_values(rows0).union(named)),
                named == named_values(state.finals(), neighbor_sets(neighbors@)),
                    j == 0 ==> builder.offsets() == offsets_after(off0, nb.subrange(0, m as int)),
                    j > 0 ==> builder.offsets() == offsets_after(off0, nb),
                    nb == neighbor_sets(neighbors@),
                    j < states@.len(),
                    states@[j as int].finals() == set![va],
                    state.finals().contains(va),
                    m <= neighbors@.len(),
                    forall|t: Link<Sp::CoordinateDelta>|
                        #[trigger] builder.relation().contains(t) <==> rel_j.contains(t) || exists|m2: int, b: nat|
                            0 <= m2 < m && nb[m2].1.contains(b) && #[trigger] links(t, va, nb[m2].0, b),
                decreases neighbors@.len() - m,
            {
                let pair = &neighbors[m];
                let delta = pair.0;
                let mut neighbor_states: Vec<S> = Vec::new();
                pair.1.collect_final_states(&mut neighbor_states);
                proof {
                    assert(neighbor_states@.subrange(0, neighbor_states@.len() as int) =~= neighbor_states@);
                    assert(nb[m as int] == (delta, pair.1.finals()));
                }
                let ghost rel_m = builder.relation();
                let mut q: usize = 0;
                while q < neighbor_states.len()
                    invariant
                        builder.well_formed(),
                        extends(builder.offsets(), off0),
                        builder.observer() == obs0,
                keeps_rows(builder.rows(), rows0),
                row_values(builder.rows()).subset_of(row_values(rows0).union(named)),
                named == named_values(state.finals(), neighbor_sets(neighbors@)),
                        j == 0 && q == 0 ==> builder.offsets() == offsets_after(off0, nb.subrange(0, m as int)),
                        j == 0 && q > 0 ==> builder.offsets() == add_offset(
                            add_offset(offsets_after(off0, nb.subrange(0, m as int)), delta),
                            delta.inverse(),
                        ),
                        j > 0 ==> builder.offsets() == offsets_after(off0, nb),
                        m < nb.len(),
                        nb == neighbor_sets(neighbors@),
                        nb[m as int] == (delta, pair.1.finals()),
                        j < states@.len(),
                        states@[j as int].finals() == set![va],
                        state.finals().contains(va),
                    state.finals().contains(va),
                        singletons_of(neighbor_states@, pair.1.finals()),
                        q <= neighbor_states@.len(),
                        forall|t: Link<Sp::CoordinateDelta>|
                            #[trigger] builder.relation().contains(t) <==> rel_m.contains(t) || exists|q2: int, b: nat|
                                0 <= q2 < q && #[trigger] neighbor_states@[q2].finals() == set![b] && #[trigger] links(t, va, delta, b),
                    decreases neighbor_states@.len() - q,
                {
                    let ghost vb = choose|v: nat| pair.1.finals().contains(v) && #[trigger] neighbor_states@[q as int].finals() == set![v];
                    let ghost before = builder.relation();
                    let ghost offsets_before = builder.offsets();
                    proof {
                        if q > 0 || j > 0 {
                            assert(offsets_before.contains(delta) && offsets_before.contains(delta.inverse())) by {
                                if j > 0 {
                                    assert(nb[m as int].1 != Set::<nat>::empty()) by {
                                        assert(nb[m as int].1.contains(vb));
                                    }
                                    lemma_offsets_after_contains(off0, nb, delta);
                                    lemma_offsets_after_contains(off0, nb, delta.inverse());
                                } else {
                                    let p = offsets_after(off0, nb.subrange(0, m as int));
                                    lemma_add_offset_contains(p, delta, delta);
                                    lemma_add_offset_contains(add_offset(p, delta), delta.inverse(), delta);
                                    lemma_add_offset_contains(add_offset(p, delta), delta.inverse(), delta.inverse());
                                }
                            }
                        }
                    }
                    let ghost rows_before = builder.rows();
                    builder.allow_symmetric(&states[j], &neighbor_states[q], &delta, Ghost(va), Ghost(vb));
                    proof {
                        lemma_keeps_rows_trans(builder.rows(), rows_before, rows0);
                        assert(state.finals().contains(va));
                        assert(nb[m as int].1.contains(vb));
                        assert(named.contains(va));
                        assert(named.contains(vb));
                        lemma_extends_trans(builder.offsets(), offsets_before, off0);
                        assert forall|t: Link<Sp::CoordinateDelta>|
                            #[trigger] builder.relation().contains(t) <==> rel_m.contains(t) || exists|q2: int, b: nat|
                                0 <= q2 < q + 1 && #[trigger] neighbor_states@[q2].finals() == set![b] && #[trigger] links(t, va, delta, b) by {
                            if links(t, va, delta, vb) {
                                assert(neighbor_states@[q as int].finals() == set![vb]);
                            }
                            if exists|q2: int, b: nat|
                                0 <= q2 < q + 1 && #[trigger] neighbor_states@[q2].finals() == set![b] && #[trigger] links(t, va, delta, b) {
                                let (q2, b) = choose|q2: int, b: nat|
                                    0 <= q2 < q + 1 && #[trigger] neighbor_states@[q2].finals() == set![b] && #[trigger] links(t, va, delta, b);
                                if q2 == q {
                                    assert(neighbor_states@[q as int].finals() == set![vb]);
                                    assert(set![b].contains(b));
                                    assert(set![vb].contains(b));
                                    assert(b == vb);
                                }
                            }
                        }
                    }
                    q = q + 1;
                }
                proof {
                    let sub1 = nb.subrange(0, m + 1);
                    assert(sub1.drop_last() =~= nb.subrange(0, m as int));
                    assert(sub1.last() == nb[m as int]);
                    pair.1.lemma_finals_finite();
                    if neighbor_states@.len() == 0 {
                        assert(pair.1.finals().len() == 0);
                        assert(pair.1.finals() =~= Set::<nat>::empty());
                    } else {
                        assert(single_of(neighbor_states@[0].finals(), pair.1.finals()));
                        let w = choose|w: nat| pair.1.finals().contains(w) && neighbor_states@[0].finals() == set![w];
                        assert(nb[m as int].1.contains(w));
                    }
                    assert forall|t: Link<Sp::CoordinateDelta>|
                        #[trigger] builder.relation().contains(t) <==> rel_j.contains(t) || exists|m2: int, b: nat|
                            0 <= m2 < m + 1 && nb[m2].1.contains(b) && #[trigger] links(t, va, nb[m2].0, b) by {
                        if exists|q2: int, b: nat|
                            0 <= q2 < neighbor_states@.len() && #[trigger] neighbor_states@[q2].finals() == set![b] && #[trigger] links(t, va, delta, b) {
                            let (q2, b) = choose|q2: int, b: nat|
                                0 <= q2 < neighbor_states@.len() && #[trigger] neighbor_states@[q2].finals() == set![b] && #[trigger] links(t, va, delta, b);
                            let w = choose|w: nat| pair.1.finals().contains(w) && #[trigger] neighbor_states@[q2].finals() == set![w];
                            assert(set![b].contains(b));
                            assert(nb[m as int].1.contains(b));
                            assert(links(t, va, nb[m as int].0, b));
                        }
                        if exists|m2: int, b: nat|
                            0 <= m2 < m + 1 && nb[m2].1.contains(b) && #[trigger] links(t, va, nb[m2].0, b) {
                            let (m2, b) = choose|m2: int, b: nat|
                                0 <= m2 < m + 1 && nb[m2].1.contains(b) && #[trigger] links(t, va, nb[m2].0, b);
                            if m2 == m {
                                assert(pair.1.finals().contains(b));
                                let q2 = choose|q2: int| 0 <= q2 < neighbor_states@.len() && #[trigger] neighbor_states@[q2].finals() == set![b];
                                assert(links(t, va, delta, b));
                            }
                        }
                    }
                }
                m = m + 1;
            }
            proof {
                assert(nb.subrange(0, nb.len() as int) =~= nb);
                assert forall|t: Link<Sp::CoordinateDelta>|
                    #[trigger] builder.relation().contains(t) <==> rel0.contains(t) || exists|
                        j2: int,
                        a: nat,
                        m2: int,
                        b: nat,
                    |
                        0 <= j2 < j + 1 && #[trigger] states@[j2].finals() == set![a] && 0 <= m2 < nb.len()
                            && nb[m2].1.contains(b) && #[trigger] links(t, a, nb[m2].0, b) by {
                    if exists|m2: int, b: nat|
                        0 <= m2 < neighbors@.len() && nb[m2].1.contains(b) && #[trigger] links(t, va, nb[m2].0, b) {
                        let (m2, b) = choose|m2: int, b: nat|
                            0 <= m2 < neighbors@.len() && nb[m2].1.contains(b) && #[trigger] links(t, va, nb[m2].0, b);
                        assert(states@[j as int].finals() == set![va]);
                    }
                    if exists|j2: int, a: nat, m2: int, b: nat|
                        0 <= j2 < j + 1 && #[trigger] states@[j2].finals() == set![a] && 0 <= m2 < nb.len()
                            && nb[m2].1.contains(b) && #[trigger] links(t, a, nb[m2].0, b) {
                        let (j2, a, m2, b) = choose|j2: int, a: nat, m2: int, b: nat|
                            0 <= j2 < j + 1 && #[trigger] states@[j2].finals() == set![a] && 0 <= m2 < nb.len()
                                && nb[m2].1.contains(b) && #[trigger] links(t, a, nb[m2].0, b);
                        if j2 == j {
                            assert(set![a].contains(a));
                            assert(a == va);
                        }
                    }
                }
            }
            j = j + 1;
        }
        proof {
            state.lemma_finals_finite();
            if states@.len() == 0 {
                assert(state.finals() =~= Set::<nat>::empty());
            } else {
                assert(single_of(states@[0].finals(), state.finals()));
                let w = choose|w: nat| state.finals().contains(w) && states@[0].finals() == set![w];
                assert(state.finals().contains(w));
            }
            assert forall|t: Link<Sp::CoordinateDelta>|
                #[trigger] builder.relation().contains(t) <==> rel0.contains(t) || declares(t, state.finals(), nb) by {
                if exists|j2: int, a: nat, m2: int, b: nat|
                    0 <= j2 < states@.len() && #[trigger] states@[j2].finals() == set![a] && 0 <= m2 < nb.len()
                        && nb[m2].1.contains(b) && #[trigger] links(t, a, nb[m2].0, b) {
                    let (j2, a, m2, b) = choose|j2: int, a: nat, m2: int, b: nat|
                        0 <= j2 < states@.len() && #[trigger] states@[j2].finals() == set![a] && 0 <= m2 < nb.len()
                            && nb[m2].1.contains(b) && #[trigger] links(t, a, nb[m2].0, b);
                    let w = choose|w: nat| state.finals().contains(w) && #[trigger] states@[j2].finals() == set![w];
                    assert(set![a].contains(a));
                    assert(state.finals().contains(a));
                }
                if declares(t, state.finals(), nb) {
                    let (a, m2, b) = choose|a: nat, m2: int, b: nat|
                        state.finals().contains(a) && 0 <= m2 < nb.len() && nb[m2].1.contains(b) && #[trigger] links(t, a, nb[m2].0, b);
                    let j2 = choose|j2: int| 0 <= j2 < states@.len() && #[trigger] states@[j2].finals() == set![a];
                    assert(states@[j2].finals() == set![a]);
                }
            }
        }
        builder
    }

    /// The rule declared so far. Every final value of the "all" state that no
    /// declaration named gets a row that allows nothing in any direction: such
    /// a value survives only where every neighbour is outside the space.
    pub fn build(self) -> (r: SetCollapseRule<S, Sp, O>)
        requires
            self.well_formed(),
            S::all_supported(),
        ensures
            r.well_formed(),
            r.offset_list() == self.offsets(),
            r.observer() == self.observer(),
            r.relation() == self.relation(),
            offsets_used(r.offset_list(), r.relation()),
            mirrored(r.relation()),
            r.rows().len() >= self.rows().len(),
            forall|k: int|
                0 <= k < self.rows().len() ==> same_row(
                    #[trigger] r.rows()[k],
                    self.rows()[k],
                    self.offsets().len(),
                ),
            row_values(r.rows()) == row_values(self.rows()).union(S::all_finals()),
            forall|k: int, v: nat, i: int|
                0 <= k < r.rows().len() && #[trigger] r.rows()[k].0.finals().contains(v)
                    && !row_values(self.rows()).contains(v) ==> #[trigger] slot_at(r.rows()[k].1, i)
                    == Set::<nat>::empty(),
    {
        let ghost protos_view = self.rows();
        let ghost offsets_view = self.offsets();
        let ghost builder = self;
        let SetCollapseRuleBuilder { neighbor_offsets, state_rules, observer } = self;
        let n = neighbor_offsets.len();
        let mut remaining = S::all();
        let mut rows: Vec<(S, Vec<Option<S>>)> = Vec::new();
        let mut k: usize = 0;
        while k < state_rules.len()
            invariant
                n == offsets_view.len(),
                protos_view == state_rules@.map_values(|r: StateRule<S>| r.row()),
                singleton_rows(protos_view),
                forall|q: int| 0 <= q < protos_view.len() ==> (#[trigger] protos_view[q]).1.len() <= n,
                k <= state_rules@.len(),
                rows@.len() == k,
                forall|q: int|
                    0 <= q < k ==> same_row(
                        (#[trigger] rows@[q].0, rows@[q].1@),
                        protos_view[q],
                        n as nat,
                    ),
                remaining.finals() == S::all_finals().difference(
                    row_values(protos_view.subrange(0, k as int)),
                ),
            decreases state_rules@.len() - k,
        {
            let proto = &state_rules[k];
            assert(protos_view[k as int] == proto.row());
            let mut slots: Vec<Option<S>> = Vec::new();
            let mut i: usize = 0;
            while i < n
                invariant
                    i <= n,
                    proto.allowed_neighbors@.len() <= n,
                    slots@.len() == i,
                    forall|j: int| 0 <= j < i ==> #[trigger] slot_at(slots@, j) == slot_at(
                        proto.allowed_neighbors@,
                        j,
                    ),
                decreases n - i,
            {
                let ghost prev = slots@;
                if i < proto.allowed_neighbors.len() {
                    match &proto.allowed_neighbors[i] {
                        Some(s) => slots.push(Some(s.copy_state())),
                        None => slots.push(None),
                    }
                } else {
                    slots.push(None);
                }
                proof {
                    assert forall|j: int| 0 <= j < i + 1 implies #[trigger] slot_at(slots@, j) == slot_at(
                        proto.allowed_neighbors@,
                        j,
                    ) by {
                        if j < i {
                            assert(slots@[j] == prev[j]);
                            assert(slot_at(prev, j) == slot_at(proto.allowed_neighbors@, j));
                        }
                    }
                }
                i = i + 1;
            }
            let ghost before_remaining = remaining.finals();
            remaining.clear_states(&proto.state);
            rows.push((proto.state.copy_state(), slots));
            proof {
                assert forall|j: int| #[trigger] slot_at(slots@, j) == slot_at(proto.allowed_neighbors@, j) by {
                    if !(0 <= j < n) {
                    }
                }
                let pre = protos_view.subrange(0, k as int);
                let post = protos_view.subrange(0, k + 1);
                assert(row_values(post) =~= row_values(pre).union(proto.state.finals())) by {
                    assert forall|v: nat| row_values(post).contains(v) implies row_values(pre).union(proto.state.finals()).contains(v) by {
                        let q = choose|q: int| 0 <= q < post.len() && #[trigger] post[q].0.finals().contains(v);
                        if q < k {
                            assert(pre[q] == post[q]);
                        }
                    }
                    assert forall|v: nat| row_values(pre).union(proto.state.finals()).contains(v) implies row_values(post).contains(v) by {
                        if row_values(pre).contains(v) {
                            let q = choose|q: int| 0 <= q < pre.len() && #[trigger] pre[q].0.finals().contains(v);
                            assert(post[q] == pre[q]);
                        } else {
                            assert(post[k as int].0.finals().contains(v));
                        }
                    }
                }
                assert(S::all_finals().difference(row_values(post)) =~= before_remaining.difference(proto.state.finals()));
            }
            k = k + 1;
        }
        let mut rest: Vec<S> = Vec::new();
        remaining.collect_final_states(&mut rest);
        proof {
            assert(rest@.subrange(0, rest@.len() as int) =~= rest@);
            assert(protos_view.subrange(0, protos_view.len() as int) =~= protos_view);
        }
        let declared_count = rows.len();
        let mut j: usize = 0;
        while j < rest.len()
            invariant
                n == offsets_view.len(),
                singleton_rows(protos_view),
                declared_count == protos_view.len(),
                j <= rest@.len(),
                rows@.len() == declared_count + j,
                singletons_of(rest@, remaining.finals()),
                remaining.finals() == S::all_finals().difference(row_values(protos_view)),
                forall|q: int|
                    0 <= q < declared_count ==> same_row(
                        (#[trigger] rows@[q].0, rows@[q].1@),
                        protos_view[q],
                        n as nat,
                    ),
                forall|q: int|
                    declared_count <= q < rows@.len() ==> (#[trigger] rows@[q]).0.finals() == rest@[q - declared_count].finals()
                        && rows@[q].1@.len() == n && forall|i: int| #[trigger] slot_at(rows@[q].1@, i) == Set::<nat>::empty(),
            decreases rest@.len() - j,
        {
            let mut slots: Vec<Option<S>> = Vec::new();
            let mut i: usize = 0;
            while i < n
                invariant
                    i <= n,
                    slots@.len() == i,
                    forall|x: int| 0 <= x < i ==> (#[trigger] slots@[x]) is None,
                decreases n - i,
            {
                slots.push(None);
                i = i + 1;
            }
            rows.push((rest[j].copy_state(), slots));
            j = j + 1;
        }
        let ghost rv = rows@.map_values(|r: (S, Vec<Option<S>>)| (r.0, r.1@));
        proof {
            let d = declared_count as int;
            assert forall|q: int| 0 <= q < rv.len() implies is_singleton(#[trigger] rv[q].0.finals()) by {
                assert(0 <= q < rows@.len());
                assert(rv[q] == (rows@[q].0, rows@[q].1@));
                if q < d {
                    assert(same_row((rows@[q].0, rows@[q].1@), protos_view[q], n as nat));
                    let v = choose|v: nat| #[trigger] protos_view[q].0.finals() == set![v];
                    assert(rv[q].0.finals() == set![v]);
                } else {
                    let v = choose|v: nat| remaining.finals().contains(v) && #[trigger] rest@[q - d].finals() == set![v];
                    assert(rv[q].0.finals() == set![v]);
                }
            }
            assert forall|q: int| 0 <= q < rv.len() implies (#[trigger] rv[q]).1.len() == offsets_view.len() by {
                assert(rv[q] == (rows@[q].0, rows@[q].1@));
                if q < d {
                    assert(same_row((rows@[q].0, rows@[q].1@), protos_view[q], n as nat));
                }
            }
            assert forall|t: Link<Sp::CoordinateDelta>| #[trigger] table_links(offsets_view, rv).contains(t) == table_links(offsets_view, protos_view).contains(t) by {
                if table_links(offsets_view, rv).contains(t) {
                    let (q, i) = choose|q: int, i: int|
                        0 <= q < rv.len() && 0 <= i < offsets_view.len()
                            && #[trigger] rv[q].0.finals().contains(t.0) && offsets_view[i] == t.1
                            && #[trigger] slot_at(rv[q].1, i).contains(t.2);
                    assert(rv[q] == (rows@[q].0, rows@[q].1@));
                    if q < d {
                        assert(same_row((rows@[q].0, rows@[q].1@), protos_view[q], n as nat));
                        assert(slot_at(protos_view[q].1, i).contains(t.2));
                        assert(protos_view[q].0.finals().contains(t.0));
                    } else {
                        assert(slot_at(rows@[q].1@, i) == Set::<nat>::empty());
                    }
                }
                if table_links(offsets_view, protos_view).contains(t) {
                    let (q, i) = choose|q: int, i: int|
                        0 <= q < protos_view.len() && 0 <= i < offsets_view.len()
                            && #[trigger] protos_view[q].0.finals().contains(t.0) && offsets_view[i] == t.1
                            && #[trigger] slot_at(protos_view[q].1, i).contains(t.2);
                    assert(rv[q] == (rows@[q].0, rows@[q].1@));
                    assert(same_row((rows@[q].0, rows@[q].1@), protos_view[q], n as nat));
                    assert(slot_at(rv[q].1, i).contains(t.2));
                    assert(rv[q].0.finals().contains(t.0));
                }
            }
            assert(table_links(offsets_view, rv) =~= table_links(offsets_view, protos_view));
            assert forall|v: nat| #[trigger] row_values(rv).contains(v) == row_values(protos_view).union(S::all_finals()).contains(v) by {
                if row_values(rv).contains(v) {
                    let q = choose|q: int| 0 <= q < rv.len() && #[trigger] rv[q].0.finals().contains(v);
                    assert(rv[q] == (rows@[q].0, rows@[q].1@));
                    if q < d {
                        assert(same_row((rows@[q].0, rows@[q].1@), protos_view[q], n as nat));
                        assert(protos_view[q].0.finals().contains(v));
                    } else {
                        let w = choose|w: nat| remaining.finals().contains(w) && #[trigger] rest@[q - d].finals() == set![w];
                        assert(set![w].contains(v));
                        assert(remaining.finals().contains(v));
                    }
                }
                if row_values(protos_view).contains(v) {
                    let q = choose|q: int| 0 <= q < protos_view.len() && #[trigger] protos_view[q].0.finals().contains(v);
                    assert(rv[q] == (rows@[q].0, rows@[q].1@));
                    assert(same_row((rows@[q].0, rows@[q].1@), protos_view[q], n as nat));
                    assert(rv[q].0.finals().contains(v));
                } else if S::all_finals().contains(v) {
                    assert(remaining.finals().contains(v));
                    let j = choose|j: int| 0 <= j < rest@.len() && #[trigger] rest@[j].finals() == set![v];
                    assert(rv[d + j] == (rows@[d + j].0, rows@[d + j].1@));
                    assert(rv[d + j].0.finals().contains(v));
                }
            }
            assert(row_values(rv) =~= row_values(protos_view).union(S::all_finals()));
            assert forall|q: int, v: nat, i: int|
                0 <= q < rv.len() && #[trigger] rv[q].0.finals().contains(v)
                    && !row_values(protos_view).contains(v) implies #[trigger] slot_at(rv[q].1, i)
                    == Set::<nat>::empty() by {
                assert(rv[q] == (rows@[q].0, rows@[q].1@));
                if q < d {
                    assert(same_row((rows@[q].0, rows@[q].1@), protos_view[q], n as nat));
                    assert(protos_view[q].0.finals().contains(v));
                    assert(row_values(protos_view).contains(v));
                }
            }
        }
        proof {
            let d = declared_count as int;
            remaining.lemma_finals_finite();
            lemma_singletons_distinct(rest@, remaining.finals());
            assert(distinct_rows(protos_view));
            assert forall|q1: int, q2: int|
                0 <= q1 < rv.len() && 0 <= q2 < rv.len() && q1 != q2 implies (#[trigger] rv[q1]).0.finals()
                    != (#[trigger] rv[q2]).0.finals() by {
                assert(rv[q1] == (rows@[q1].0, rows@[q1].1@));
                assert(rv[q2] == (rows@[q2].0, rows@[q2].1@));
                if q1 < d && q2 < d {
                    assert(same_row((rows@[q1].0, rows@[q1].1@), protos_view[q1], n as nat));
                    assert(same_row((rows@[q2].0, rows@[q2].1@), protos_view[q2], n as nat));
                    assert(protos_view[q1].0.finals() != protos_view[q2].0.finals());
                } else if q1 >= d && q2 >= d {
                    assert(rest@[q1 - d].finals() != rest@[q2 - d].finals());
                } else {
                    let (a, b) = if q1 < d { (q1, q2) } else { (q2, q1) };
                    assert(same_row((rows@[a].0, rows@[a].1@), protos_view[a], n as nat));
                    assert(is_singleton(protos_view[a].0.finals()));
                    let v = choose|v: nat| protos_view[a].0.finals() == set![v];
                    assert(protos_view[a].0.finals().contains(v));
                    assert(row_values(protos_view).contains(v));
                    let w = choose|w: nat| remaining.finals().contains(w) && #[trigger] rest@[b - d].finals() == set![w];
                    assert(rest@[b - d].finals() == set![w]);
                    assert(!row_values(protos_view).contains(w));
                    if rv[a].0.finals() == rv[b].0.finals() {
                        assert(set![v].contains(v));
                    }
                }
            }
            assert forall|k: int| 0 <= k < protos_view.len() implies same_row(
                #[trigger] rv[k],
                protos_view[k],
                offsets_view.len(),
            ) by {
                assert(rv[k] == (rows@[k].0, rows@[k].1@));
                assert(same_row((rows@[k].0, rows@[k].1@), protos_view[k], n as nat));
            }
        }
        assert(neighbor_offsets@ == offsets_view);
        let r = SetCollapseRule { neighbor_offsets, state_rules: rows, observer };
        assert(r.rows() == rv);
        assert(r.observer() == builder.observer());
        r
    }

    /// The index of `offset`, appending it when it is new.
    fn get_offset_index(&mut self, offset: Sp::CoordinateDelta) -> (r: usize)
        requires
            old(self).table_ok(),
        ensures
            final(self).table_ok(),
            final(self).offsets() == add_offset(old(self).offsets(), offset),
            final(self).observer() == old(self).observer(),
            final(self).rows() == old(self).rows(),
            final(self).relation() == old(self).relation(),
            r < final(self).offsets().len(),
            final(self).offsets()[r as int] == offset,
    {
        let mut i: usize = 0;
        while i < self.neighbor_offsets.len()
            invariant
                self == old(self),
                self.table_ok(),
                i <= self.neighbor_offsets@.len(),
                forall|j: int| 0 <= j < i ==> self.neighbor_offsets@[j] != offset,
            decreases self.neighbor_offsets@.len() - i,
        {
            if self.neighbor_offsets[i].same_delta(&offset) {
                assert(self.offsets().contains(offset));
                return i;
            }
            i = i + 1;
        }
        let ghost before = *self;
        assert(!before.offsets().contains(offset));
        self.neighbor_offsets.push(offset);
        proof {
            assert(self.rows() == before.rows());
            assert forall|t: Link<Sp::CoordinateDelta>| #[trigger]
                self.relation().contains(t) == before.relation().contains(t) by {
                if self.relation().contains(t) {
                    let (q, j) = choose|q: int, j: int|
                        0 <= q < self.rows().len() && 0 <= j < self.offsets().len()
                            && #[trigger] self.rows()[q].0.finals().contains(t.0) && self.offsets()[j] == t.1
                            && #[trigger] slot_at(self.rows()[q].1, j).contains(t.2);
                    assert(j < before.offsets().len());
                    assert(before.offsets()[j] == t.1);
                }
                if before.relation().contains(t) {
                    let (q, j) = choose|q: int, j: int|
                        0 <= q < before.rows().len() && 0 <= j < before.offsets().len()
                            && #[trigger] before.rows()[q].0.finals().contains(t.0) && before.offsets()[j] == t.1
                            && #[trigger] slot_at(before.rows()[q].1, j).contains(t.2);
                    assert(self.offsets()[j] == t.1);
                }
            }
            assert(self.relation() =~= before.relation());
            assert forall|a: int, b: int| 0 <= a < b < self.offsets().len() implies self.offsets()[a] != self.offsets()[b] by {
                if b == before.offsets().len() {
                    assert(self.offsets()[a] == before.offsets()[a]);
                }
            }
        }
        self.neighbor_offsets.len() - 1
    }

    /// The index of the row of final value `state`, appending an empty row when
    /// there is none yet.
    fn get_rule(&mut self, state: &S) -> (r: usize)
        requires
            old(self).table_ok(),
            exists|v: nat| state.finals() == set![v],
        ensures
            final(self).table_ok(),
            final(self).offsets() == old(self).offsets(),
            final(self).observer() == old(self).observer(),
            final(self).relation() == old(self).relation(),
            r < final(self).rows().len(),
            final(self).rows()[r as int].0.finals() == state.finals(),
            (exists|k: int| 0 <= k < old(self).rows().len() && #[trigger] old(self).rows()[k].0.finals() == state.finals())
                ==> final(self).rows() == old(self).rows(),
            keeps_rows(final(self).rows(), old(self).rows()),
            row_values(final(self).rows()) == row_values(old(self).rows()).union(state.finals()),
            !(exists|k: int| 0 <= k < old(self).rows().len() && #[trigger] old(self).rows()[k].0.finals() == state.finals())
                ==> {
                &&& r == old(self).rows().len()
                &&& final(self).rows().len() == old(self).rows().len() + 1
                &&& final(self).rows().subrange(0, r as int) == old(self).rows()
                &&& final(self).rows()[r as int].1.len() == 0
            },
    {
        let ghost v = choose|v: nat| state.finals() == set![v];
        let mut i: usize = 0;
        while i < self.state_rules.len()
            invariant
                self == old(self),
                self.table_ok(),
                state.finals() == set![v],
                i <= self.state_rules@.len(),
                forall|j: int| 0 <= j < i ==> (#[trigger] self.rows()[j]).0.finals() != set![v],
            decreases self.state_rules@.len() - i,
        {
            if self.state_rules[i].state.has_any_of(state) {
                proof {
                    assert(self.rows()[i as int].0 == self.state_rules@[i as int].state);
                    let x = choose|x: nat| #[trigger] self.rows()[i as int].0.finals() == set![x];
                    assert(self.rows()[i as int].0.finals() == set![x]);
                    let w = choose|w: nat| set![x].contains(w) && set![v].contains(w);
                    assert(set![x] =~= set![v]);
                    assert forall|y: nat| #[trigger] row_values(self.rows()).union(state.finals()).contains(y)
                        == row_values(self.rows()).contains(y) by {
                        if state.finals().contains(y) {
                            assert(self.rows()[i as int].0.finals().contains(y));
                        }
                    }
                    assert(row_values(self.rows()).union(state.finals()) =~= row_values(self.rows()));
                }
                return i;
            }
            proof {
                assert(self.rows()[i as int].0 == self.state_rules@[i as int].state);
                if self.rows()[i as int].0.finals() == set![v] {
                    assert(set![v].contains(v));
                }
            }
            i = i + 1;
        }
        let ghost before = *self;
        proof {
            assert forall|k: int| 0 <= k < before.rows().len() implies #[trigger] before.rows()[k].0.finals() != state.finals() by {}
        }
        let fresh = StateRule { state: state.copy_state(), allowed_neighbors: Vec::new() };
        self.state_rules.push(fresh);
        proof {
            let new_row = (fresh.state, Seq::<Option<S>>::empty());
            assert(self.rows() =~= before.rows().push(new_row));
            assert(self.rows().subrange(0, before.rows().len() as int) =~= before.rows());
            assert forall|y: nat| #[trigger] row_values(self.rows()).contains(y)
                == row_values(before.rows()).union(state.finals()).contains(y) by {
                if row_values(self.rows()).contains(y) {
                    let q = choose|q: int| 0 <= q < self.rows().len() && #[trigger] self.rows()[q].0.finals().contains(y);
                    if q < before.rows().len() {
                        assert(before.rows()[q] == self.rows()[q]);
                    }
                }
                if row_values(before.rows()).contains(y) {
                    let q = choose|q: int| 0 <= q < before.rows().len() && #[trigger] before.rows()[q].0.finals().contains(y);
                    assert(self.rows()[q] == before.rows()[q]);
                }
                if state.finals().contains(y) {
                    assert(self.rows()[before.rows().len() as int].0.finals().contains(y));
                }
            }
            assert(row_values(self.rows()) =~= row_values(before.rows()).union(state.finals()));
            assert forall|t: Link<Sp::CoordinateDelta>| #[trigger]
                self.relation().contains(t) == before.relation().contains(t) by {
                if self.relation().contains(t) {
                    let (q, j) = choose|q: int, j: int|
                        0 <= q < self.rows().len() && 0 <= j < self.offsets().len()
                            && #[trigger] self.rows()[q].0.finals().contains(t.0) && self.offsets()[j] == t.1
                            && #[trigger] slot_at(self.rows()[q].1, j).contains(t.2);
                    assert(q < before.rows().len());
                    assert(before.rows()[q] == self.rows()[q]);
                }
                if before.relation().contains(t) {
                    let (q, j) = choose|q: int, j: int|
                        0 <= q < before.rows().len() && 0 <= j < before.offsets().len()
                            && #[trigger] before.rows()[q].0.finals().contains(t.0) && before.offsets()[j] == t.1
                            && #[trigger] slot_at(before.rows()[q].1, j).contains(t.2);
                    assert(before.rows()[q] == self.rows()[q]);
                }
            }
            assert(self.relation() =~= before.relation());
            assert forall|k: int| 0 <= k < self.rows().len() implies is_singleton(#[trigger] self.rows()[k].0.finals()) by {
                if k < before.rows().len() {
                    assert(self.rows()[k] == before.rows()[k]);
                } else {
                    assert(self.rows()[k].0.finals() == set![v]);
                }
            }
            assert forall|k1: int, k2: int|
                0 <= k1 < self.rows().len() && 0 <= k2 < self.rows().len() && k1 != k2 implies (#[trigger] self.rows()[k1]).0.finals()
                    != (#[trigger] self.rows()[k2]).0.finals() by {
                if k1 < before.rows().len() {
                    assert(self.rows()[k1] == before.rows()[k1]);
                }
                if k2 < before.rows().len() {
                    assert(self.rows()[k2] == before.rows()[k2]);
                }
            }
        }
        self.state_rules.len() - 1
    }

    /// Records "`a` allows `b` at `offset`", giving `a` a row if it has none.
    fn add_one_way(
        &mut self,
        a: &S,
        b: &S,
        offset: Sp::CoordinateDelta,
        Ghost(va): Ghost<nat>,
        Ghost(vb): Ghost<nat>,
    )
        requires
            old(self).table_ok(),
            a.finals() == set![va],
            b.finals() == set![vb],
        ensures
            final(self).table_ok(),
            final(self).observer() == old(self).observer(),
            final(self).offsets() == add_offset(old(self).offsets(), offset),
            keeps_rows(final(self).rows(), old(self).rows()),
            row_values(final(self).rows()) == row_values(old(self).rows()).insert(va),
            forall|t: Link<Sp::CoordinateDelta>|
                #[trigger] final(self).relation().contains(t) <==> old(self).relation().contains(t)
                    || t == (va, offset, vb),
    {
        let offset_index = self.get_offset_index(offset);
        let k = self.get_rule(a);
        let ghost before = *self;
        self.state_rules[k].add_allowed(offset_index, b);
        proof {
            assert forall|q: int| 0 <= q < before.rows().len() && q != k implies self.rows()[q] == before.rows()[q] by {}
            lemma_add_link(before.offsets(), before.rows(), self.rows(), k as int, offset_index as int, va, vb);
            assert(self.offsets() == before.offsets());
            assert forall|q: int| 0 <= q < self.rows().len() implies (#[trigger] self.rows()[q]).0 == before.rows()[q].0 by {}
            assert forall|q: int| 0 <= q < self.rows().len() implies is_singleton(#[trigger] self.rows()[q].0.finals()) by {
                assert(self.rows()[q].0 == before.rows()[q].0);
            }
            assert forall|q1: int, q2: int|
                0 <= q1 < self.rows().len() && 0 <= q2 < self.rows().len() && q1 != q2 implies (#[trigger] self.rows()[q1]).0.finals()
                    != (#[trigger] self.rows()[q2]).0.finals() by {
                assert(self.rows()[q1].0 == before.rows()[q1].0);
                assert(self.rows()[q2].0 == before.rows()[q2].0);
                assert(before.rows()[q1].0.finals() != before.rows()[q2].0.finals());
            }
            assert forall|q: int| 0 <= q < self.rows().len() implies (#[trigger] self.rows()[q]).1.len() <= self.offsets().len() by {
                assert(before.rows()[q].1.len() <= before.offsets().len());
            }
            lemma_same_states(self.rows(), before.rows());
            assert(before.rows()[k as int].0.finals() == set![va]);
            assert(row_values(old(self).rows()).union(a.finals()) =~= row_values(old(self).rows()).insert(va));
        }
    }

    /// Records "`a` allows `b` at `offset`" and its mirror "`b` allows `a` at
    /// the inverse of `offset`".
    fn allow_symmetric(
        &mut self,
        a: &S,
        b: &S,
        offset: &Sp::CoordinateDelta,
        Ghost(va): Ghost<nat>,
        Ghost(vb): Ghost<nat>,
    )
        requires
            old(self).well_formed(),
            a.finals() == set![va],
            b.finals() == set![vb],
        ensures
            final(self).well_formed(),
            extends(final(self).offsets(), old(self).offsets()),
            final(self).observer() == old(self).observer(),
            final(self).offsets() == add_offset(add_offset(old(self).offsets(), *offset), offset.inverse()),
            keeps_rows(final(self).rows(), old(self).rows()),
            row_values(final(self).rows()) == row_values(old(self).rows()).union(set![va, vb]),
            forall|t: Link<Sp::CoordinateDelta>|
                #[trigger] final(self).relation().contains(t) <==> old(self).relation().contains(t)
                    || links(t, va, *offset, vb),
    {
        let ghost start = *self;
        self.add_one_way(a, b, *offset, Ghost(va), Ghost(vb));
        let ghost mid = *self;
        let inverse = offset.invert_delta();
        self.add_one_way(b, a, inverse, Ghost(vb), Ghost(va));
        proof {
            let first = add_offset(start.offsets(), *offset);
            lemma_keeps_rows_trans(self.rows(), mid.rows(), start.rows());
            assert(row_values(start.rows()).insert(va).insert(vb) =~= row_values(start.rows()).union(set![va, vb]));
            assert forall|t: Link<Sp::CoordinateDelta>|
                #[trigger] self.relation().contains(t) <==> start.relation().contains(t) || links(t, va, *offset, vb) by {
                assert(mid.relation().contains(t) <==> start.relation().contains(t) || t == (va, *offset, vb));
            }
            lemma_pair_mirrored(start.relation(), self.relation(), va, *offset, vb);
            assert forall|t: Link<Sp::CoordinateDelta>| #[trigger] self.relation().contains(t) implies
                row_values(self.rows()).contains(t.0) && row_values(self.rows()).contains(t.2) by {
                if start.relation().contains(t) {
                    assert(row_values(start.rows()).contains(t.0) && row_values(start.rows()).contains(t.2));
                }
            }
            lemma_add_offset_contains(start.offsets(), *offset, *offset);
            assert(extends(first, start.offsets())) by {
                assert(first.subrange(0, start.offsets().len() as int) =~= start.offsets());
            }
            assert(extends(self.offsets(), first)) by {
                assert(self.offsets().subrange(0, first.len() as int) =~= first);
            }
            lemma_extends_trans(self.offsets(), first, start.offsets());
            assert forall|x: Sp::CoordinateDelta| #[trigger] self.offsets().contains(x) <==> exists|t: Link<Sp::CoordinateDelta>| self.relation().contains(t) && t.1 == x by {
                lemma_add_offset_contains(start.offsets(), *offset, x);
                lemma_add_offset_contains(first, inverse, x);
                if start.offsets().contains(x) {
                    let t = choose|t: Link<Sp::CoordinateDelta>| start.relation().contains(t) && t.1 == x;
                    assert(self.relation().contains(t));
                }
                if x == *offset {
                    assert(links((va, *offset, vb), va, *offset, vb));
                    assert(self.relation().contains((va, *offset, vb)));
                }
                if x == inverse {
                    assert(links((vb, inverse, va), va, *offset, vb));
                    assert(self.relation().contains((vb, inverse, va)));
                }
                if exists|t: Link<Sp::CoordinateDelta>| self.relation().contains(t) && t.1 == x {
                    let t = choose|t: Link<Sp::CoordinateDelta>| self.relation().contains(t) && t.1 == x;
                    if start.relation().contains(t) {
                        assert(start.offsets().contains(x));
                    }
                }
            }
        }
    }
}


/// Some neighbour that exists shares no final value with what `allowed`
/// permits in its direction.
pub open spec fn blocked<S: State>(allowed: Seq<Option<S>>, neighbors: Seq<Option<Set<nat>>>) -> bool {
    exists|i: int|
        0 <= i < neighbors.len() && (#[trigger] neighbors[i]) is Some
            && neighbors[i]->0.disjoint(slot_at(allowed, i))
}

/// The final values that the rows of a table remove from a cell with the
/// given neighbours: those of every row that is blocked.
pub open spec fn removed<S: State>(rows: Seq<(S, Seq<Option<S>>)>, neighbors: Seq<Option<Set<nat>>>) -> Set<
    nat,
>
    decreases rows.len(),
{
    if rows.len() == 0 {
        Set::empty()
    } else {
        removed(rows.drop_last(), neighbors).union(
            if blocked(rows.last().1, neighbors) {
                rows.last().0.finals()
            } else {
                Set::empty()
            },
        )
    }
}

/// `x` holds the same final values as `y`, with exactly `n` slots.
pub open spec fn same_row<S: State>(x: (S, Seq<Option<S>>), y: (S, Seq<Option<S>>), n: nat) -> bool {
    &&& x.0.finals() == y.0.finals()
    &&& x.1.len() == n
    &&& forall|i: int| #[trigger] slot_at(x.1, i) == slot_at(y.1, i)
}

/// A collapse rule over set-like states, built from adjacency declarations by
/// [`SetCollapseRuleBuilder`]: one row per final value, with the values it
/// allows as neighbour in each direction.
pub struct SetCollapseRule<S: SetState, Sp: Space<S>, O: SetCollapseObserver<S>> {
    neighbor_offsets: Vec<Sp::CoordinateDelta>,
    state_rules: Vec<(S, Vec<Option<S>>)>,
    observer: O,
}

impl<S: SetState, Sp: Space<S>, O: SetCollapseObserver<S>> SetCollapseRule<S, Sp, O> {
    /// The neighbour offsets, by offset index.
    pub closed spec fn offset_list(&self) -> Seq<Sp::CoordinateDelta> {
        self.neighbor_offsets@
    }

    /// The rows: a final value and the values it allows in each direction.
    pub closed spec fn rows(&self) -> Seq<(S, Seq<Option<S>>)> {
        self.state_rules@.map_values(|r: (S, Vec<Option<S>>)| (r.0, r.1@))
    }

    /// The adjacency records of the rule.
    pub open spec fn relation(&self) -> Set<Link<Sp::CoordinateDelta>> {
        table_links(self.offset_list(), self.rows())
    }

    /// The observer that commits cells.
    pub closed spec fn observer(&self) -> O {
        self.observer
    }

    /// Each final value has at most one row, each row holds one final value
    /// and one slot per offset, and offsets are distinct.
    pub open spec fn well_formed(&self) -> bool {
        &&& singleton_rows(self.rows())
        &&& distinct_rows(self.rows())
        &&& self.offset_list().no_duplicates()
        &&& forall|k: int|
            0 <= k < self.rows().len() ==> (#[trigger] self.rows()[k]).1.len()
                == self.offset_list().len()
    }

    #[verifier::type_invariant]
    spec fn rows_consistent(&self) -> bool {
        self.well_formed()
    }
}

impl<S: SetState, Sp: Space<S>, O: SetCollapseObserver<S>> CollapseRule<S, Sp> for SetCollapseRule<
    S,
    Sp,
    O,
> where Sp::CoordinateDelta: Copy {
    open spec fn offsets(&self) -> Seq<Sp::CoordinateDelta> {
        self.offset_list()
    }

    open spec fn narrow(&self, cell: Set<nat>, neighbors: Seq<Option<Set<nat>>>) -> Set<nat> {
        cell.difference(removed(self.rows(), neighbors))
    }

    proof fn lemma_narrow_subset(&self, cell: Set<nat>, neighbors: Seq<Option<Set<nat>>>) {
    }

    fn neighbor_offsets(&self) -> (r: Vec<Sp::CoordinateDelta>) {
        let mut out: Vec<Sp::CoordinateDelta> = Vec::new();
        let mut i: usize = 0;
        while i < self.neighbor_offsets.len()
            invariant
                i <= self.neighbor_offsets@.len(),
                out@ == self.neighbor_offsets@.subrange(0, i as int),
            decreases self.neighbor_offsets@.len() - i,
        {
            out.push(self.neighbor_offsets[i]);
            i = i + 1;
            assert(out@ =~= self.neighbor_offsets@.subrange(0, i as int));
        }
        out
    }

    /// Removes from `cell` the final values of every row that is blocked: some
    /// existing neighbour shares no value with what the row allows in its
    /// direction.
    fn collapse(&self, cell: &mut S, neighbors: &[Option<S>]) {
        proof {
            use_type_invariant(self);
        }
        let ghost rows = self.rows();
        let ghost nv = finals_of(neighbors@);
        let mut k: usize = 0;
        proof {
            assert(rows.subrange(0, 0) =~= Seq::<(S, Seq<Option<S>>)>::empty());
            assert(old(cell).finals().difference(Set::<nat>::empty()) =~= old(cell).finals());
        }
        while k < self.state_rules.len()
            invariant
                self.well_formed(),
                rows == self.rows(),
                neighbors@.len() == self.offset_list().len(),
                k <= rows.len(),
                nv == finals_of(neighbors@),
                cell.finals() == old(cell).finals().difference(
                    removed(rows.subrange(0, k as int), nv),
                ),
            decreases rows.len() - k,
        {
            let row = &self.state_rules[k];
            let ghost base = cell.finals();
            assert(rows[k as int] == (row.0, row.1@));
            if cell.has_any_of(&row.0) {
                let mut i: usize = 0;
                proof {
                    assert(nv.subrange(0, 0) =~= Seq::<Option<Set<nat>>>::empty());
                }
                while i < neighbors.len()
                    invariant
                        self.well_formed(),
                        rows == self.rows(),
                        k < rows.len(),
                        rows[k as int] == (row.0, row.1@),
                        row.1@.len() == neighbors@.len(),
                        nv == finals_of(neighbors@),
                        i <= neighbors@.len(),
                        cell.finals() == if blocked(row.1@, nv.subrange(0, i as int)) {
                            base.difference(row.0.finals())
                        } else {
                            base
                        },
                    decreases neighbors@.len() - i,
                {
                    let ghost prev = cell.finals();
                    if let Some(neighbor_state) = &neighbors[i] {
                        let allow = match &row.1[i] {
                            Some(allowed_state) => neighbor_state.has_any_of(allowed_state),
                            None => false,
                        };
                        if !allow {
                            cell.clear_states(&row.0);
                        }
                    }
                    proof {
                        let before = nv.subrange(0, i as int);
                        let after = nv.subrange(0, i + 1);
                        let blocked_here = nv[i as int] is Some
                            && nv[i as int]->0.disjoint(slot_at(row.1@, i as int));
                        assert(blocked(row.1@, after) == (blocked(row.1@, before) || blocked_here)) by {
                            if blocked(row.1@, before) {
                                let i2 = choose|i2: int|
                                    0 <= i2 < before.len() && (#[trigger] before[i2]) is Some
                                        && before[i2]->0.disjoint(slot_at(row.1@, i2));
                                assert(after[i2] == before[i2]);
                            }
                            if blocked_here {
                                assert(after[i as int] == nv[i as int]);
                            }
                            if blocked(row.1@, after) {
                                let i2 = choose|i2: int|
                                    0 <= i2 < after.len() && (#[trigger] after[i2]) is Some
                                        && after[i2]->0.disjoint(slot_at(row.1@, i2));
                                if i2 < i {
                                    assert(before[i2] == after[i2]);
                                }
                            }
                        }
                        assert(base.difference(row.0.finals()).difference(row.0.finals()) =~= base.difference(row.0.finals()));
                    }
                    i = i + 1;
                }
                proof {
                    assert(nv.subrange(0, nv.len() as int) =~= nv);
                }
            } else {
                proof {
                    assert(base.difference(row.0.finals()) =~= base);
                }
            }
            proof {
                let pre = rows.subrange(0, k as int);
                let post = rows.subrange(0, k + 1);
                assert(post.drop_last() =~= pre);
                assert(post.last() == rows[k as int]);
                let extra = if blocked(row.1@, nv) {
                    row.0.finals()
                } else {
                    Set::empty()
                };
                assert(old(cell).finals().difference(removed(pre, nv).union(extra))
                    =~= old(cell).finals().difference(removed(pre, nv)).difference(extra));
            }
            k = k + 1;
        }
        proof {
            assert(rows.subrange(0, rows.len() as int) =~= rows);
        }
    }

    fn observe<R: RandomSource>(&self, cell: &mut S, neighbors: &[Option<S>], rng: &mut R) {
        self.observer.observe(cell, neighbors, rng);
    }
}

/// Every record of `rel` has its mirror in `rel` too.
pub open spec fn mirrored<D: InvertDelta>(rel: Set<Link<D>>) -> bool {
    forall|t: Link<D>| #[trigger] rel.contains(t) ==> rel.contains((t.2, t.1.inverse(), t.0))
}

/// Declaring that a value `a` of `values` allows a value `b` of
/// `neighbors[m].1` at offset `neighbors[m].0` records both "`a` allows `b`
/// at that offset" and "`b` allows `a` at its inverse". `after` is the
/// relation that [`SetCollapseRuleBuilder::allow`] leaves, and
/// [`SetCollapseRuleBuilder::build`] keeps it.
pub proof fn lemma_allow_is_symmetric<D: InvertDelta>(
    before: Set<Link<D>>,
    after: Set<Link<D>>,
    values: Set<nat>,
    neighbors: Seq<(D, Set<nat>)>,
    a: nat,
    m: int,
    b: nat,
)
    requires
        forall|t: Link<D>|
            #[trigger] after.contains(t) <==> before.contains(t) || declares(t, values, neighbors),
        values.contains(a),
        0 <= m < neighbors.len(),
        neighbors[m].1.contains(b),
    ensures
        after.contains((a, neighbors[m].0, b)),
        after.contains((b, neighbors[m].0.inverse(), a)),
{
    assert(links((a, neighbors[m].0, b), a, neighbors[m].0, b));
    assert(links((b, neighbors[m].0.inverse(), a), a, neighbors[m].0, b));
}

/// A declaration keeps a mirrored relation mirrored: starting from an empty
/// builder, every record of a rule comes with its mirror.
pub proof fn lemma_allow_keeps_mirrors<D: InvertDelta>(
    before: Set<Link<D>>,
    after: Set<Link<D>>,
    values: Set<nat>,
    neighbors: Seq<(D, Set<nat>)>,
)
    requires
        forall|t: Link<D>|
            #[trigger] after.contains(t) <==> before.contains(t) || declares(t, values, neighbors),
        mirrored(before),
    ensures
        mirrored(after),
{
    assert forall|t: Link<D>| #[trigger] after.contains(t) implies after.contains((t.2, t.1.inverse(), t.0)) by {
        if before.contains(t) {
            assert(before.contains((t.2, t.1.inverse(), t.0)));
        } else {
            let (a, m, b) = choose|a: nat, m: int, b: nat|
                values.contains(a) && 0 <= m < neighbors.len() && neighbors[m].1.contains(b)
                    && #[trigger] links(t, a, neighbors[m].0, b);
            let d = neighbors[m].0;
            d.lemma_inverse_involutive();
            if t == (a, d, b) {
                assert(links((t.2, t.1.inverse(), t.0), a, d, b));
            } else {
                assert(links((t.2, t.1.inverse(), t.0), a, d, b));
            }
        }
    }
}

/// A declaration that names `v` neither among `values` nor among the
/// neighbour values adds no record that names `v`.
pub proof fn lemma_unnamed_value_stays_out<D: InvertDelta>(
    before: Set<Link<D>>,
    after: Set<Link<D>>,
    values: Set<nat>,
    neighbors: Seq<(D, Set<nat>)>,
    v: nat,
)
    requires
        forall|t: Link<D>|
            #[trigger] after.contains(t) <==> before.contains(t) || declares(t, values, neighbors),
        !mentions(before, v),
        !values.contains(v),
        forall|m: int| 0 <= m < neighbors.len() ==> !(#[trigger] neighbors[m]).1.contains(v),
    ensures
        !mentions(after, v),
{
    if mentions(after, v) {
        let t = choose|t: Link<D>| after.contains(t) && (t.0 == v || t.2 == v);
        if !before.contains(t) {
            let (a, m, b) = choose|a: nat, m: int, b: nat|
                values.contains(a) && 0 <= m < neighbors.len() && neighbors[m].1.contains(b)
                    && #[trigger] links(t, a, neighbors[m].0, b);
            assert(!neighbors[m].1.contains(v));
        }
    }
}

/// In a built rule, a final value that no record names is allowed as a
/// neighbour by no row, in no direction.
pub proof fn lemma_unnamed_value_never_allowed<S: SetState, Sp: Space<S>, O: SetCollapseObserver<S>>(
    rule: SetCollapseRule<S, Sp, O>,
    v: nat,
)
    requires
        rule.well_formed(),
        !mentions(rule.relation(), v),
    ensures
        forall|k: int, i: int|
            0 <= k < rule.rows().len() && 0 <= i < rule.offset_list().len() ==> !(#[trigger] slot_at(
                rule.rows()[k].1,
                i,
            )).contains(v),
{
    assert forall|k: int, i: int|
        0 <= k < rule.rows().len() && 0 <= i < rule.offset_list().len() implies !(#[trigger] slot_at(
            rule.rows()[k].1,
            i,
        )).contains(v) by {
        if slot_at(rule.rows()[k].1, i).contains(v) {
            assert(is_singleton(rule.rows()[k].0.finals()));
            let a = choose|a: nat| rule.rows()[k].0.finals() == set![a];
            assert(rule.rows()[k].0.finals().contains(a));
            let t: Link<Sp::CoordinateDelta> = (a, rule.offset_list()[i], v);
            assert(0 <= k < rule.rows().len() && 0 <= i < rule.offset_list().len()
                && rule.rows()[k].0.finals().contains(t.0) && rule.offset_list()[i] == t.1
                && slot_at(rule.rows()[k].1, i).contains(t.2));
            assert(table_links(rule.offset_list(), rule.rows()).contains(t));
            assert(rule.relation().contains(t) && (t.0 == v || t.2 == v));
        }
    }
}

/// Neighbours that are missing never block a row: with no neighbour at all,
/// a rule removes nothing from a cell.
pub proof fn lemma_no_neighbor_removes_nothing<S: State>(
    rows: Seq<(S, Seq<Option<S>>)>,
    neighbors: Seq<Option<Set<nat>>>,
)
    requires
        forall|i: int| 0 <= i < neighbors.len() ==> (#[trigger] neighbors[i]) is None,
    ensures
        removed(rows, neighbors) == Set::<nat>::empty(),
    decreases rows.len(),
{
    if rows.len() > 0 {
        lemma_no_neighbor_removes_nothing(rows.drop_last(), neighbors);
        assert(!blocked(rows.last().1, neighbors));
        assert(removed(rows, neighbors) =~= Set::<nat>::empty());
    }
}

/// A value is removed by a table exactly when some row holding it is blocked.
pub proof fn lemma_removed_rows<S: State>(
    rows: Seq<(S, Seq<Option<S>>)>,
    neighbors: Seq<Option<Set<nat>>>,
    v: nat,
)
    ensures
        removed(rows, neighbors).contains(v) <==> exists|k: int|
            0 <= k < rows.len() && (#[trigger] rows[k]).0.finals().contains(v) && blocked(
                rows[k].1,
                neighbors,
            ),
    decreases rows.len(),
{
    if rows.len() > 0 {
        lemma_removed_rows(rows.drop_last(), neighbors, v);
        let last = rows.len() - 1;
        if exists|k: int|
            0 <= k < rows.len() && (#[trigger] rows[k]).0.finals().contains(v) && blocked(
                rows[k].1,
                neighbors,
            ) {
            let k = choose|k: int|
                0 <= k < rows.len() && (#[trigger] rows[k]).0.finals().contains(v) && blocked(
                    rows[k].1,
                    neighbors,
                );
            if k < last {
                assert(rows.drop_last()[k] == rows[k]);
            }
        }
        if removed(rows.drop_last(), neighbors).contains(v) {
            let k = choose|k: int|
                0 <= k < rows.drop_last().len() && (#[trigger] rows.drop_last()[k]).0.finals().contains(v)
                    && blocked(rows.drop_last()[k].1, neighbors);
            assert(rows[k] == rows.drop_last()[k]);
        }
    }
}

/// What a built rule does to a cell follows from its adjacency records: it
/// removes value `v` exactly when `v` has a row and, at some offset where a
/// neighbour exists, `v` allows none of that neighbour's values.
pub proof fn lemma_narrow_by_relation<S: SetState, Sp: Space<S>, O: SetCollapseObserver<S>>(
    rule: SetCollapseRule<S, Sp, O>,
    neighbors: Seq<Option<Set<nat>>>,
    v: nat,
)
    requires
        rule.well_formed(),
        neighbors.len() == rule.offset_list().len(),
    ensures
        removed(rule.rows(), neighbors).contains(v) <==> row_values(rule.rows()).contains(v)
            && exists|i: int|
            0 <= i < neighbors.len() && (#[trigger] neighbors[i]) is Some && forall|b: nat|
                neighbors[i]->0.contains(b) ==> !rule.relation().contains(
                    (v, rule.offset_list()[i], b),
                ),
{
    let rows = rule.rows();
    let offs = rule.offset_list();
    lemma_removed_rows(rows, neighbors, v);
    if row_values(rows).contains(v) {
        let k = choose|k: int| 0 <= k < rows.len() && #[trigger] rows[k].0.finals().contains(v);
        assert(is_singleton(rows[k].0.finals()));
        let x = choose|x: nat| rows[k].0.finals() == set![x];
        assert(x == v);
        // the row of `v` is unique, and so is each offset's index
        assert forall|i: int, b: nat| 0 <= i < offs.len() implies #[trigger] rule.relation().contains(
            (v, offs[i], b),
        ) == slot_at(rows[k].1, i).contains(b) by {
            let t: Link<Sp::CoordinateDelta> = (v, offs[i], b);
            if rule.relation().contains(t) {
                let (k2, i2) = choose|k2: int, i2: int|
                    0 <= k2 < rows.len() && 0 <= i2 < offs.len()
                        && #[trigger] rows[k2].0.finals().contains(t.0) && offs[i2] == t.1
                        && #[trigger] slot_at(rows[k2].1, i2).contains(t.2);
                assert(is_singleton(rows[k2].0.finals()));
                let x2 = choose|x2: nat| rows[k2].0.finals() == set![x2];
                assert(x2 == v);
                if k2 != k {
                    assert(rows[k2].0.finals() != rows[k].0.finals());
                }
                if i2 != i {
                    assert(offs[i2] != offs[i]);
                }
            }
            if slot_at(rows[k].1, i).contains(b) {
                assert(0 <= k < rows.len() && 0 <= i < offs.len()
                    && rows[k].0.finals().contains(t.0) && offs[i] == t.1
                    && slot_at(rows[k].1, i).contains(t.2));
            }
        }
        if exists|k2: int|
            0 <= k2 < rows.len() && (#[trigger] rows[k2]).0.finals().contains(v) && blocked(rows[k2].1, neighbors) {
            let k2 = choose|k2: int|
                0 <= k2 < rows.len() && (#[trigger] rows[k2]).0.finals().contains(v) && blocked(rows[k2].1, neighbors);
            assert(is_singleton(rows[k2].0.finals()));
            if k2 != k {
                let x2 = choose|x2: nat| rows[k2].0.finals() == set![x2];
                assert(x2 == v);
                assert(rows[k2].0.finals() != rows[k].0.finals());
            }
            let i = choose|i: int|
                0 <= i < neighbors.len() && (#[trigger] neighbors[i]) is Some
                    && neighbors[i]->0.disjoint(slot_at(rows[k].1, i));
            assert forall|b: nat| neighbors[i]->0.contains(b) implies !rule.relation().contains(
                (v, offs[i], b),
            ) by {
                assert(rule.relation().contains((v, offs[i], b)) == slot_at(rows[k].1, i).contains(b));
            }
        }
        if exists|i: int|
            0 <= i < neighbors.len() && (#[trigger] neighbors[i]) is Some && forall|b: nat|
                neighbors[i]->0.contains(b) ==> !rule.relation().contains((v, offs[i], b)) {
            let i = choose|i: int|
                0 <= i < neighbors.len() && (#[trigger] neighbors[i]) is Some && forall|b: nat|
                    neighbors[i]->0.contains(b) ==> !rule.relation().contains((v, offs[i], b));
            assert forall|b: nat| neighbors[i]->0.contains(b) implies !slot_at(rows[k].1, i).contains(b) by {
                assert(rule.relation().contains((v, offs[i], b)) == slot_at(rows[k].1, i).contains(b));
            }
            assert(blocked(rows[k].1, neighbors));
        }
    } else {
        if exists|k2: int|
            0 <= k2 < rows.len() && (#[trigger] rows[k2]).0.finals().contains(v) && blocked(rows[k2].1, neighbors) {
            let k2 = choose|k2: int|
                0 <= k2 < rows.len() && (#[trigger] rows[k2]).0.finals().contains(v) && blocked(rows[k2].1, neighbors);
            assert(row_values(rows).contains(v));
        }
    }
}

/// The records made by a sequence of declarations, each a set of values and
/// its `(offset, neighbour values)` pairs, as [`SetCollapseRuleBuilder::allow`]
/// makes them starting from [`SetCollapseRuleBuilder::new`].
pub open spec fn declared_by<D: InvertDelta>(decls: Seq<(Set<nat>, Seq<(D, Set<nat>)>)>) -> Set<
    Link<D>,
>
    decreases decls.len(),
{
    if decls.len() == 0 {
        Set::empty()
    } else {
        declared_by(decls.drop_last()).union(
            Set::new(|t: Link<D>| declares(t, decls.last().0, decls.last().1)),
        )
    }
}

/// Whatever the declarations, every record comes with its mirror: "`a`
/// allows `b` at `d`" is recorded exactly when "`b` allows `a` at the inverse
/// of `d`" is.
pub proof fn lemma_declarations_mirrored<D: InvertDelta>(decls: Seq<(Set<nat>, Seq<(D, Set<nat>)>)>)
    ensures
        mirrored(declared_by(decls)),
    decreases decls.len(),
{
    if decls.len() > 0 {
        lemma_declarations_mirrored(decls.drop_last());
        let before = declared_by(decls.drop_last());
        lemma_allow_keeps_mirrors(before, declared_by(decls), decls.last().0, decls.last().1);
    }
}

/// Whatever the declarations, a final value that none of them names appears
/// in no record.
pub proof fn lemma_unnamed_value_never_declared<D: InvertDelta>(
    decls: Seq<(Set<nat>, Seq<(D, Set<nat>)>)>,
    v: nat,
)
    requires
        forall|k: int| 0 <= k < decls.len() ==> !(#[trigger] decls[k]).0.contains(v),
        forall|k: int, m: int|
            0 <= k < decls.len() && 0 <= m < decls[k].1.len() ==> !(#[trigger] decls[k].1[m]).1.contains(
                v,
            ),
    ensures
        !mentions(declared_by(decls), v),
    decreases decls.len(),
{
    if decls.len() > 0 {
        let last = decls.len() - 1;
        assert forall|k: int| 0 <= k < decls.drop_last().len() implies !(#[trigger] decls.drop_last()[k]).0.contains(v) by {
            assert(decls.drop_last()[k] == decls[k]);
        }
        assert forall|k: int, m: int|
            0 <= k < decls.drop_last().len() && 0 <= m < decls.drop_last()[k].1.len() implies !(#[trigger] decls.drop_last()[k].1[m]).1.contains(v) by {
            assert(decls.drop_last()[k] == decls[k]);
        }
        lemma_unnamed_value_never_declared(decls.drop_last(), v);
        assert(!decls[last].0.contains(v));
        assert forall|m: int| 0 <= m < decls.last().1.len() implies !(#[trigger] decls.last().1[m]).1.contains(v) by {
            assert(!decls[last].1[m].1.contains(v));
        }
        lemma_unnamed_value_stays_out(
            declared_by(decls.drop_last()),
            declared_by(decls),
            decls.last().0,
            decls.last().1,
            v,
        );
    }
}

proof fn lemma_same_states<S: State>(a: Seq<(S, Seq<Option<S>>)>, b: Seq<(S, Seq<Option<S>>)>)
    requires
        a.len() == b.len(),
        forall|q: int| 0 <= q < a.len() ==> (#[trigger] a[q]).0 == b[q].0,
    ensures
        row_values(a) == row_values(b),
        keeps_rows(a, b),
{
    assert forall|v: nat| #[trigger] row_values(a).contains(v) == row_values(b).contains(v) by {
        if row_values(a).contains(v) {
            let q = choose|q: int| 0 <= q < a.len() && #[trigger] a[q].0.finals().contains(v);
            assert(b[q].0.finals().contains(v));
        }
        if row_values(b).contains(v) {
            let q = choose|q: int| 0 <= q < b.len() && #[trigger] b[q].0.finals().contains(v);
            assert(a[q].0 == b[q].0);
            assert(a[q].0.finals().contains(v));
        }
    }
    assert(row_values(a) =~= row_values(b));
}

proof fn lemma_keeps_rows_trans<S: State>(
    a: Seq<(S, Seq<Option<S>>)>,
    b: Seq<(S, Seq<Option<S>>)>,
    c: Seq<(S, Seq<Option<S>>)>,
)
    requires
        keeps_rows(a, b),
        keeps_rows(b, c),
    ensures
        keeps_rows(a, c),
{
    assert forall|k: int| 0 <= k < c.len() implies (#[trigger] a[k]).0 == c[k].0 by {
        assert(a[k].0 == b[k].0);
    }
}

/// Adding a record and its mirror keeps a relation mirrored.
proof fn lemma_pair_mirrored<D: InvertDelta>(before: Set<Link<D>>, after: Set<Link<D>>, a: nat, d: D, b: nat)
    requires
        forall|t: Link<D>| #[trigger] after.contains(t) <==> before.contains(t) || links(t, a, d, b),
        mirrored(before),
    ensures
        mirrored(after),
{
    d.lemma_inverse_involutive();
    assert forall|t: Link<D>| #[trigger] after.contains(t) implies after.contains((t.2, t.1.inverse(), t.0)) by {
        if before.contains(t) {
            assert(before.contains((t.2, t.1.inverse(), t.0)));
        } else {
            assert(links((t.2, t.1.inverse(), t.0), a, d, b));
        }
    }
}

/// In a builder, a value that has no row appears in no record: together with
/// [`SetCollapseRuleBuilder::allow`], which gives rows only to the values it
/// is told, a value that no declaration names is never allowed anywhere.
pub proof fn lemma_rowless_value_unmentioned<S: SetState + AllState, Sp: Space<S>, O: SetCollapseObserver<S>>(
    builder: SetCollapseRuleBuilder<S, Sp, O>,
    v: nat,
)
    where
        Sp::CoordinateDelta: Copy + InvertDelta,
    requires
        builder.well_formed(),
        !row_values(builder.rows()).contains(v),
    ensures
        !mentions(builder.relation(), v),
{
    if mentions(builder.relation(), v) {
        let t = choose|t: Link<Sp::CoordinateDelta>| builder.relation().contains(t) && (t.0 == v || t.2 == v);
        assert(row_values(builder.rows()).contains(t.0) && row_values(builder.rows()).contains(t.2));
    }
}

} // verus!

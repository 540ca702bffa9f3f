//! Wave function collapse.
//!
//! Cells of a space start out with a set of possible final values. The engine
//! repeatedly commits the cell with the fewest remaining possibilities to one
//! of them, then narrows its neighbours under an adjacency rule until nothing
//! changes, and stops once every cell holds exactly one value or some cell has
//! none left.

mod bits;
mod state;
mod set_state;
mod all_state;
mod space;
mod collapse_rule;
mod random;
pub mod bit_state;
pub mod bitset_state;
pub mod hashset_state;
pub mod square_grid;
pub mod set_rule;

pub use state::{finals_of, State};
pub use set_state::{
    holds_single, lemma_resolved_enumerates_one, lemma_singletons_distinct, single_of, singletons_of,
    SetState,
};
pub use all_state::AllState;
pub use collapse_rule::CollapseRule;
pub use random::{RandomSource, SeededRandom, ThreadRandom};
pub use space::{cell_number, neg_wrapping, InvertDelta, Space};

use std::collections::VecDeque;
use vstd::prelude::*;
use vstd::set_lib::lemma_len_subset;

verus! {

/// Reported when a cell is left with no possible value.
pub struct Contradiction<C> {
    /// The coordinate of that cell.
    pub coordinate: C,
}

/// How many final values the cells of `cells` allow, summed.
pub open spec fn total_options<St: State>(cells: Seq<St>) -> nat
    decreases cells.len(),
{
    if cells.len() == 0 {
        0
    } else {
        total_options(cells.drop_last()) + cells.last().finals().len()
    }
}

/// `after` is `before` with some cells narrowed: the same cells and adjacency,
/// and each cell allows a subset of what it allowed.
pub open spec fn narrowed<St: State, Sp: Space<St>>(after: Sp, before: Sp) -> bool {
    &&& after.well_formed()
    &&& after.cells().len() == before.cells().len()
    &&& after.coordinates() == before.coordinates()
    &&& forall|c: int, d: Sp::CoordinateDelta| #[trigger]
        after.neighbor(c, d) == before.neighbor(c, d)
    &&& forall|i: int|
        0 <= i < after.cells().len() ==> (#[trigger] after.cells()[i]).finals().subset_of(
            before.cells()[i].finals(),
        )
}

/// No cell is a contradiction.
pub open spec fn all_possible<St: State>(cells: Seq<St>) -> bool {
    forall|i: int| 0 <= i < cells.len() ==> (#[trigger] cells[i]).finals().len() > 0
}

/// The entropy of `s` as an integer, `-1` for a contradiction.
pub open spec fn entropy_num<St: State>(s: St) -> int {
    s.finals().len() - 1
}

/// The final values of each cell.
pub open spec fn cell_sets<St: State, Sp: Space<St>>(space: Sp) -> Seq<Set<nat>> {
    space.cells().map_values(|s: St| s.finals())
}

/// What the neighbours of cell `c` allow, in the order of `offsets`, when the
/// cells allow `sets`: `None` where an offset leads outside the space.
pub open spec fn neighbor_views<St: State, Sp: Space<St>>(
    space: Sp,
    sets: Seq<Set<nat>>,
    c: int,
    offsets: Seq<Sp::CoordinateDelta>,
) -> Seq<Option<Set<nat>>> {
    Seq::new(
        offsets.len(),
        |i: int|
            match space.neighbor(c, offsets[i]) {
                Some(m) => Some(sets[m]),
                None => None,
            },
    )
}

/// Cell `c` is a fixpoint of the rule: narrowing it against its neighbours
/// changes nothing.
pub open spec fn settled<Rule: CollapseRule<St, Sp>, St: State, Sp: Space<St>>(
    rule: Rule,
    space: Sp,
    sets: Seq<Set<nat>>,
    c: int,
) -> bool {
    rule.narrow(sets[c], neighbor_views(space, sets, c, rule.offsets())) == sets[c]
}

/// Cell `x` has cell `y` as a neighbour at one of `offsets`.
pub open spec fn watches<St: State, Sp: Space<St>>(
    space: Sp,
    offsets: Seq<Sp::CoordinateDelta>,
    x: int,
    y: int,
) -> bool {
    exists|i: int| 0 <= i < offsets.len() && #[trigger] space.neighbor(x, offsets[i]) == Some(y)
}

/// Cell `x` may change in a propagation that started from `start` with
/// `queue` pending: it was queued, or it watches a cell that has changed.
pub open spec fn justified<St: State, Sp: Space<St>>(
    start: Sp,
    now: Sp,
    queue: Seq<usize>,
    offsets: Seq<Sp::CoordinateDelta>,
    x: int,
) -> bool {
    ||| queue.contains(x as usize)
    ||| exists|y: int|
        0 <= y < now.cells().len() && watches(start, offsets, x, y) && #[trigger] now.cells()[y].finals()
            != start.cells()[y].finals()
}

/// `watchers[y]` lists every cell that has cell `y` as a neighbour at one of
/// `offsets`, and only cells of the space.
pub open spec fn watchers_ok<St: State, Sp: Space<St>>(
    space: Sp,
    watchers: Seq<Vec<usize>>,
    offsets: Seq<Sp::CoordinateDelta>,
) -> bool {
    &&& watchers.len() == space.cells().len()
    &&& forall|y: int, k: int|
        0 <= y < watchers.len() && 0 <= k < watchers[y]@.len() ==> (#[trigger] watchers[y]@[k])
            < space.cells().len() && watches(space, offsets, watchers[y]@[k] as int, y)
    &&& forall|x: int, i: int|
        0 <= x < space.cells().len() && 0 <= i < offsets.len() && (#[trigger] space.neighbor(
            x,
            offsets[i],
        )) is Some ==> watchers[space.neighbor(x, offsets[i])->0]@.contains(x as usize)
}

/// The watcher lists stay valid while only cell values change.
proof fn lemma_watchers_transfer<St: State, Sp: Space<St>>(
    a: Sp,
    b: Sp,
    watchers: Seq<Vec<usize>>,
    offsets: Seq<Sp::CoordinateDelta>,
)
    requires
        watchers_ok(a, watchers, offsets),
        b.cells().len() == a.cells().len(),
        forall|c: int, d: Sp::CoordinateDelta| #[trigger] b.neighbor(c, d) == a.neighbor(c, d),
    ensures
        watchers_ok(b, watchers, offsets),
        forall|x: int, y: int| watches(a, offsets, x, y) <==> #[trigger] watches(b, offsets, x, y),
{
    assert forall|x: int, y: int| watches(a, offsets, x, y) <==> #[trigger] watches(b, offsets, x, y) by {
        if watches(a, offsets, x, y) {
            let i = choose|i: int| 0 <= i < offsets.len() && #[trigger] a.neighbor(x, offsets[i]) == Some(y);
            assert(b.neighbor(x, offsets[i]) == Some(y));
        }
        if watches(b, offsets, x, y) {
            let i = choose|i: int| 0 <= i < offsets.len() && #[trigger] b.neighbor(x, offsets[i]) == Some(y);
            assert(a.neighbor(x, offsets[i]) == Some(y));
        }
    }
    assert forall|x: int, i: int|
        0 <= x < b.cells().len() && 0 <= i < offsets.len() && (#[trigger] b.neighbor(x, offsets[i])) is Some
            implies watchers[b.neighbor(x, offsets[i])->0]@.contains(x as usize) by {
        assert(a.neighbor(x, offsets[i]) == b.neighbor(x, offsets[i]));
    }
}

/// A cell that may change stays one that may change as the cells narrow.
proof fn lemma_justified_persists<St: State, Sp: Space<St>>(
    start: Sp,
    a: Sp,
    b: Sp,
    queue: Seq<usize>,
    offsets: Seq<Sp::CoordinateDelta>,
    x: int,
)
    requires
        justified(start, a, queue, offsets, x),
        narrowed(a, start),
        narrowed(b, a),
    ensures
        justified(start, b, queue, offsets, x),
{
    if !queue.contains(x as usize) {
        let y = choose|y: int|
            0 <= y < a.cells().len() && watches(start, offsets, x, y) && #[trigger] a.cells()[y].finals()
                != start.cells()[y].finals();
        assert(b.cells()[y].finals().subset_of(a.cells()[y].finals()));
        assert(a.cells()[y].finals().subset_of(start.cells()[y].finals()));
        if b.cells()[y].finals() == start.cells()[y].finals() {
            assert(a.cells()[y].finals() =~= start.cells()[y].finals());
        }
    }
}

/// The propagation worklist holds cell numbers below `n`, each at most once,
/// and `flags` marks exactly the cells it holds.
pub open spec fn queue_ok(queue: Seq<usize>, flags: Seq<bool>, n: nat) -> bool {
    &&& flags.len() == n
    &&& queue.no_duplicates()
    &&& forall|k: int| 0 <= k < queue.len() ==> (#[trigger] queue[k]) < n
    &&& forall|i: int| 0 <= i < n ==> (#[trigger] flags[i] <==> queue.contains(i as usize))
}

/// Every cell holds one final value and is a fixpoint of the rule.
pub open spec fn solved<Rule: CollapseRule<St, Sp>, St: State, Sp: Space<St>>(rule: Rule, space: Sp) -> bool {
    forall|i: int|
        0 <= i < space.cells().len() ==> (#[trigger] space.cells()[i]).finals().len() == 1 && settled(
            rule,
            space,
            cell_sets(space),
            i,
        )
}

/// Cell `i` of `after` was emptied by the rule: narrowing a non-empty subset
/// of `start` against the neighbours it has in `after` leaves nothing.
pub open spec fn emptied_by_rule<Rule: CollapseRule<St, Sp>, St: State, Sp: Space<St>>(
    rule: Rule,
    after: Sp,
    start: Set<nat>,
    i: int,
) -> bool {
    exists|p: Set<nat>|
        p.len() > 0 && p.subset_of(start) && #[trigger] rule.narrow(
            p,
            neighbor_views(after, cell_sets(after).update(i, p), i, rule.offsets()),
        ) == Set::<nat>::empty()
}

/// The contradiction that a collapse from `before` to `after` reports at cell
/// `i`: either the cell was empty from the start (the first such cell, with
/// nothing changed), or the rule emptied it from a non-empty set while every
/// other cell still holds a value.
pub open spec fn contradiction_at<Rule: CollapseRule<St, Sp>, St: State, Sp: Space<St>>(
    rule: Rule,
    before: Sp,
    after: Sp,
    i: int,
) -> bool {
    &&& 0 <= i < after.cells().len()
    &&& after.cells()[i].finals().len() == 0
    &&& {
        ||| {
            &&& before.cells()[i].finals().len() == 0
            &&& after == before
            &&& forall|j: int| 0 <= j < i ==> (#[trigger] before.cells()[j]).finals().len() > 0
        }
        ||| {
            &&& forall|j: int|
                0 <= j < after.cells().len() && j != i ==> (#[trigger] after.cells()[j]).finals().len()
                    > 0
            &&& emptied_by_rule(rule, after, before.cells()[i].finals(), i)
        }
    }
}

/// Every unresolved cell that is not queued is a fixpoint of the rule.
pub open spec fn pending_covers<Rule: CollapseRule<St, Sp>, St: State, Sp: Space<St>>(
    rule: Rule,
    space: Sp,
    queue: Seq<usize>,
) -> bool {
    forall|x: int|
        0 <= x < space.cells().len() && (#[trigger] space.cells()[x]).finals().len() > 1
            && !queue.contains(x as usize) ==> settled(rule, space, cell_sets(space), x)
}

proof fn lemma_total_update<St: State>(cells: Seq<St>, i: int, v: St)
    requires
        0 <= i < cells.len(),
    ensures
        total_options(cells.update(i, v)) + cells[i].finals().len() == total_options(cells)
            + v.finals().len(),
    decreases cells.len(),
{
    if i == cells.len() - 1 {
        assert(cells.update(i, v).drop_last() =~= cells.drop_last());
    } else {
        assert(cells.update(i, v).drop_last() =~= cells.drop_last().update(i, v));
        lemma_total_update(cells.drop_last(), i, v);
    }
}

proof fn lemma_narrowed_trans<St: State, Sp: Space<St>>(a: Sp, b: Sp, c: Sp)
    requires
        narrowed(a, b),
        narrowed(b, c),
    ensures
        narrowed(a, c),
{
    assert forall|i: int| 0 <= i < a.cells().len() implies (#[trigger] a.cells()[i]).finals().subset_of(
        c.cells()[i].finals(),
    ) by {
        assert(b.cells()[i].finals().subset_of(c.cells()[i].finals()));
    }
}

/// Narrowing never makes a cell allow more values than before.
proof fn lemma_narrowed_len<St: State, Sp: Space<St>>(a: Sp, b: Sp, i: int)
    requires
        narrowed(a, b),
        0 <= i < a.cells().len(),
    ensures
        a.cells()[i].finals().len() <= b.cells()[i].finals().len(),
{
    b.cells()[i].lemma_finals_finite();
    lemma_len_subset(a.cells()[i].finals(), b.cells()[i].finals());
}

/// Entropy never rises: in a space narrowed from another, as [`collapse`]
/// leaves it, every cell's entropy is at most what it was.
pub proof fn lemma_entropy_never_rises<St: State, Sp: Space<St>>(after: Sp, before: Sp, i: int)
    requires
        narrowed(after, before),
        0 <= i < after.cells().len(),
    ensures
        entropy_num(after.cells()[i]) <= entropy_num(before.cells()[i]),
{
    lemma_narrowed_len(after, before, i);
}

/// Replacing cell `c` leaves the neighbour views of a cell that does not have
/// `c` as a neighbour unchanged.
proof fn lemma_views_unchanged<St: State, Sp: Space<St>>(
    a: Sp,
    b: Sp,
    sa: Seq<Set<nat>>,
    sb: Seq<Set<nat>>,
    x: int,
    c: int,
    offsets: Seq<Sp::CoordinateDelta>,
)
    requires
        forall|z: int, d: Sp::CoordinateDelta| #[trigger] b.neighbor(z, d) == a.neighbor(z, d),
        sa.len() == sb.len(),
        0 <= c < sa.len(),
        forall|m: int| 0 <= m < sa.len() && m != c ==> sb[m] == sa[m],
        forall|i: int|
            0 <= i < offsets.len() && (#[trigger] a.neighbor(x, offsets[i])) is Some ==> 0
                <= a.neighbor(x, offsets[i])->0 < sa.len() && a.neighbor(x, offsets[i])->0 != c,
    ensures
        neighbor_views(b, sb, x, offsets) == neighbor_views(a, sa, x, offsets),
{
    assert forall|i: int| 0 <= i < offsets.len() implies #[trigger] neighbor_views(b, sb, x, offsets)[i]
        == neighbor_views(a, sa, x, offsets)[i] by {
        assert(b.neighbor(x, offsets[i]) == a.neighbor(x, offsets[i]));
    }
    assert(neighbor_views(b, sb, x, offsets) =~= neighbor_views(a, sa, x, offsets));
}

/// The neighbours of cell `c` at each of `offsets`, and copies of their states.
fn neighbor_states<St: State, Sp: Space<St>>(
    space: &Sp,
    c: usize,
    offsets: &Vec<Sp::CoordinateDelta>,
) -> (r: (Vec<Option<usize>>, Vec<Option<St>>))
    requires
        space.well_formed(),
        c < space.cells().len(),
    ensures
        r.0@.len() == offsets@.len(),
        r.1@.len() == offsets@.len(),
        forall|i: int|
            0 <= i < offsets@.len() ==> cell_number(#[trigger] r.0@[i]) == space.neighbor(
                c as int,
                offsets@[i],
            ),
        finals_of(r.1@) == neighbor_views(*space, cell_sets(*space), c as int, offsets@),
{
    proof {
        space.lemma_well_formed();
    }
    let neighbors = space.neighbors(c, offsets.as_slice());
    let mut out: Vec<Option<St>> = Vec::new();
    let mut k: usize = 0;
    while k < neighbors.len()
        invariant
            space.well_formed(),
            c < space.cells().len(),
            neighbors@.len() == offsets@.len(),
            forall|i: int|
                0 <= i < offsets@.len() ==> cell_number(#[trigger] neighbors@[i]) == space.neighbor(
                    c as int,
                    offsets@[i],
                ),
            forall|x: int, d: Sp::CoordinateDelta|
                0 <= x < space.cells().len() && (#[trigger] space.neighbor(x, d)) is Some ==> 0
                    <= space.neighbor(x, d)->0 < space.cells().len(),
            k <= neighbors@.len(),
            out@.len() == k,
            forall|j: int|
                0 <= j < k ==> #[trigger] finals_of(out@)[j] == neighbor_views(
                    *space,
                    cell_sets(*space),
                    c as int,
                    offsets@,
                )[j],
        decreases neighbors@.len() - k,
    {
        assert(cell_number(neighbors@[k as int]) == space.neighbor(c as int, offsets@[k as int]));
        let ghost prev = out@;
        match neighbors[k] {
            Some(m) => {
                assert(space.neighbor(c as int, offsets@[k as int]) == Some(m as int));
                out.push(Some(space.cell(m).copy_state()));
                assert(cell_sets(*space)[m as int] == space.cells()[m as int].finals());
            },
            None => out.push(None),
        }
        proof {
            assert forall|j: int| 0 <= j < k + 1 implies #[trigger] finals_of(out@)[j]
                == neighbor_views(*space, cell_sets(*space), c as int, offsets@)[j] by {
                if j < k {
                    assert(out@[j] == prev[j]);
                    assert(finals_of(prev)[j] == neighbor_views(*space, cell_sets(*space), c as int, offsets@)[j]);
                }
            }
        }
        k = k + 1;
    }
    assert(finals_of(out@) =~= neighbor_views(*space, cell_sets(*space), c as int, offsets@));
    (neighbors, out)
}

/// For every cell, the cells that have it as a neighbour at one of `offsets`.
fn watchers_of<St: State, Sp: Space<St>>(space: &Sp, offsets: &Vec<Sp::CoordinateDelta>) -> (r: Vec<
    Vec<usize>,
>)
    requires
        space.well_formed(),
    ensures
        watchers_ok(*space, r@, offsets@),
{
    proof {
        space.lemma_well_formed();
    }
    let n = space.coordinate_list().len();
    let mut watchers: Vec<Vec<usize>> = Vec::new();
    let mut y: usize = 0;
    while y < n
        invariant
            y <= n,
            watchers@.len() == y,
            forall|j: int| 0 <= j < y ==> (#[trigger] watchers@[j])@.len() == 0,
        decreases n - y,
    {
        watchers.push(Vec::new());
        y = y + 1;
    }
    let mut x: usize = 0;
    while x < n
        invariant
            space.well_formed(),
            n == space.cells().len(),
            forall|z: int, d: Sp::CoordinateDelta|
                0 <= z < space.cells().len() && (#[trigger] space.neighbor(z, d)) is Some ==> 0
                    <= space.neighbor(z, d)->0 < space.cells().len(),
            x <= n,
            watchers@.len() == n,
            forall|y: int, k: int|
                0 <= y < n && 0 <= k < watchers@[y]@.len() ==> (#[trigger] watchers@[y]@[k]) < n
                    && watches(*space, offsets@, watchers@[y]@[k] as int, y),
            forall|z: int, i: int|
                0 <= z < x && 0 <= i < offsets@.len() && (#[trigger] space.neighbor(z, offsets@[i])) is Some
                    ==> watchers@[space.neighbor(z, offsets@[i])->0]@.contains(z as usize),
        decreases n - x,
    {
        let neighbors = space.neighbors(x, offsets.as_slice());
        let mut i: usize = 0;
        while i < neighbors.len()
            invariant
                space.well_formed(),
                n == space.cells().len(),
                forall|z: int, d: Sp::CoordinateDelta|
                    0 <= z < space.cells().len() && (#[trigger] space.neighbor(z, d)) is Some ==> 0
                        <= space.neighbor(z, d)->0 < space.cells().len(),
                x < n,
                neighbors@.len() == offsets@.len(),
                forall|j: int|
                    0 <= j < offsets@.len() ==> cell_number(#[trigger] neighbors@[j])
                        == space.neighbor(x as int, offsets@[j]),
                i <= neighbors@.len(),
                watchers@.len() == n,
                forall|y: int, k: int|
                    0 <= y < n && 0 <= k < watchers@[y]@.len() ==> (#[trigger] watchers@[y]@[k]) < n
                        && watches(*space, offsets@, watchers@[y]@[k] as int, y),
                forall|z: int, j: int|
                    0 <= j < offsets@.len() && (#[trigger] space.neighbor(z, offsets@[j])) is Some
                        && (0 <= z < x || (z == x && j < i)) ==> watchers@[space.neighbor(z, offsets@[j])->0]@.contains(z as usize),
            decreases neighbors@.len() - i,
        {
            assert(cell_number(neighbors@[i as int]) == space.neighbor(x as int, offsets@[i as int]));
            if let Some(y) = neighbors[i] {
                let ghost before = watchers@;
                watchers[y].push(x);
                proof {
                    assert forall|w: int, k: int|
                        0 <= w < n && 0 <= k < watchers@[w]@.len() implies (#[trigger] watchers@[w]@[k]) < n
                            && watches(*space, offsets@, watchers@[w]@[k] as int, w) by {
                        if w == y as int && k == before[w]@.len() {
                            assert(space.neighbor(x as int, offsets@[i as int]) == Some(y as int));
                        } else {
                            assert(watchers@[w]@[k] == before[w]@[k]);
                        }
                    }
                    assert forall|z: int, j: int|
                        0 <= j < offsets@.len() && (#[trigger] space.neighbor(z, offsets@[j])) is Some
                            && (0 <= z < x || (z == x && j < i + 1)) implies watchers@[space.neighbor(z, offsets@[j])->0]@.contains(z as usize) by {
                        let w = space.neighbor(z, offsets@[j])->0;
                        if z == x && j == i {
                            assert(w == y as int);
                            assert(watchers@[w]@[before[w]@.len() as int] == x);
                        } else {
                            let k = choose|k: int| 0 <= k < before[w]@.len() && before[w]@[k] == z as usize;
                            assert(watchers@[w]@[k] == z as usize);
                        }
                    }
                }
            }
            i = i + 1;
        }
        x = x + 1;
    }
    watchers
}

/// Queues cell `x` unless it is queued already.
fn enqueue_one(queue: &mut VecDeque<usize>, queued: &mut Vec<bool>, x: usize, n: usize)
    requires
        queue_ok(old(queue)@, old(queued)@, n as nat),
        x < n,
    ensures
        queue_ok(final(queue)@, final(queued)@, n as nat),
        final(queue)@ == if old(queue)@.contains(x) {
            old(queue)@
        } else {
            old(queue)@.push(x)
        },
{
    if !queued[x] {
        let ghost prev = queue@;
        queue.push_back(x);
        queued.set(x, true);
        proof {
            assert forall|i: int| 0 <= i < n implies (#[trigger] queued@[i] <==> queue@.contains(
                i as usize,
            )) by {
                if queue@.contains(i as usize) {
                    let j = choose|j: int| 0 <= j < queue@.len() && queue@[j] == i as usize;
                    if j < prev.len() {
                        assert(prev[j] == i as usize);
                    }
                }
                if prev.contains(i as usize) {
                    let j = choose|j: int| 0 <= j < prev.len() && prev[j] == i as usize;
                    assert(queue@[j] == i as usize);
                }
                if i == x as int {
                    assert(queue@[prev.len() as int] == x);
                }
            }
        }
    }
}

/// Queues, in order, each cell of `cells` that is not queued yet.
fn enqueue_all(queue: &mut VecDeque<usize>, queued: &mut Vec<bool>, cells: &Vec<usize>, n: usize)
    requires
        queue_ok(old(queue)@, old(queued)@, n as nat),
        forall|k: int| 0 <= k < cells@.len() ==> (#[trigger] cells@[k]) < n,
    ensures
        queue_ok(final(queue)@, final(queued)@, n as nat),
        final(queue)@.len() >= old(queue)@.len(),
        final(queue)@.subrange(0, old(queue)@.len() as int) == old(queue)@,
        forall|v: usize| #[trigger]
            final(queue)@.contains(v) <==> old(queue)@.contains(v) || cells@.contains(v),
{
    let ghost start = queue@;
    let mut k: usize = 0;
    while k < cells.len()
        invariant
            queue_ok(queue@, queued@, n as nat),
            forall|k: int| 0 <= k < cells@.len() ==> (#[trigger] cells@[k]) < n,
            k <= cells@.len(),
            queue@.len() >= start.len(),
            queue@.subrange(0, start.len() as int) == start,
            forall|v: usize| #[trigger]
                queue@.contains(v) <==> start.contains(v) || cells@.subrange(0, k as int).contains(v),
        decreases cells@.len() - k,
    {
        let ghost prev = queue@;
        enqueue_one(queue, queued, cells[k], n);
        proof {
            assert forall|v: usize| #[trigger] queue@.contains(v) <==> prev.contains(v) || v == cells@[k as int] by {
                if queue@.contains(v) && !prev.contains(v) {
                    let j = choose|j: int| 0 <= j < queue@.len() && queue@[j] == v;
                    if j < prev.len() {
                        assert(prev[j] == v);
                    }
                }
                if prev.contains(v) {
                    let j = choose|j: int| 0 <= j < prev.len() && prev[j] == v;
                    assert(queue@[j] == v);
                }
                if v == cells@[k as int] && !prev.contains(v) {
                    assert(queue@[prev.len() as int] == v);
                }
            }
            assert(queue@.subrange(0, start.len() as int) =~= prev.subrange(0, start.len() as int));
            assert forall|v: usize| #[trigger]
                queue@.contains(v) <==> start.contains(v) || cells@.subrange(0, k + 1).contains(v) by {
                if cells@.subrange(0, k + 1).contains(v) {
                    let j = choose|j: int| 0 <= j < k + 1 && #[trigger] cells@.subrange(0, k + 1)[j] == v;
                    if j < k {
                        assert(cells@.subrange(0, k as int)[j] == v);
                    }
                }
                if cells@.subrange(0, k as int).contains(v) {
                    let j = choose|j: int| 0 <= j < k && #[trigger] cells@.subrange(0, k as int)[j] == v;
                    assert(cells@.subrange(0, k + 1)[j] == v);
                }
                if v == cells@[k as int] {
                    assert(cells@.subrange(0, k + 1)[k as int] == v);
                }
                if queue@.contains(v) && !prev.contains(v) {
                    let j = choose|j: int| 0 <= j < queue@.len() && queue@[j] == v;
                    if j < prev.len() {
                        assert(prev[j] == v);
                    }
                }
                if prev.contains(v) {
                    let j = choose|j: int| 0 <= j < prev.len() && prev[j] == v;
                    assert(queue@[j] == v);
                }
            }
        }
        k = k + 1;
    }
    assert(cells@.subrange(0, cells@.len() as int) =~= cells@);
}

/// Propagates narrowing from the queued cells until the queue is empty. Each
/// queued cell that is not yet resolved is narrowed by the rule against its
/// neighbours; when that removes values, the cell itself and every cell that
/// has it as a neighbour are queued again. Stops at the first cell left with
/// no possible value.
fn run_propagation<Rule: CollapseRule<St, Sp>, St: State, Sp: Space<St>>(
    space: &mut Sp,
    rule: &Rule,
    queue: &mut VecDeque<usize>,
    queued: &mut Vec<bool>,
    offsets: &Vec<Sp::CoordinateDelta>,
    watchers: &Vec<Vec<usize>>,
) -> (r: Result<(), usize>)
    requires
        old(space).well_formed(),
        offsets@ == rule.offsets(),
        all_possible(old(space).cells()),
        queue_ok(old(queue)@, old(queued)@, old(space).cells().len()),
        watchers_ok(*old(space), watchers@, offsets@),
        pending_covers(*rule, *old(space), old(queue)@),
    ensures
        narrowed(*final(space), *old(space)),
        total_options(final(space).cells()) <= total_options(old(space).cells()),
        forall|x: int|
            0 <= x < old(space).cells().len() && (#[trigger] old(space).cells()[x]).finals().len()
                <= 1 ==> final(space).cells()[x] == old(space).cells()[x],
        old(queue)@.len() == 0 ==> r is Ok && *final(space) == *old(space),
        forall|x: int|
            0 <= x < old(space).cells().len() && (#[trigger] final(space).cells()[x]).finals()
                != old(space).cells()[x].finals() ==> justified(
                *old(space),
                *final(space),
                old(queue)@,
                offsets@,
                x,
            ),
        match r {
            Ok(()) => {
                &&& all_possible(final(space).cells())
                &&& final(queue)@.len() == 0
                &&& queue_ok(final(queue)@, final(queued)@, old(space).cells().len())
                &&& pending_covers(*rule, *final(space), final(queue)@)
            },
            Err(c) => {
                &&& c < old(space).cells().len()
                &&& final(space).cells()[c as int].finals().len() == 0
                &&& forall|j: int|
                    0 <= j < final(space).cells().len() && j != c
                        ==> (#[trigger] final(space).cells()[j]).finals().len() > 0
                &&& emptied_by_rule(*rule, *final(space), old(space).cells()[c as int].finals(), c as int)
            },
        },
{
    let ghost n = space.cells().len();
    let flag_count = queued.len();
    proof {
        space.lemma_well_formed();
    }
    while queue.len() > 0
        invariant
            n == flag_count,
            old(queue)@.len() == 0 ==> *space == *old(space) && queue@.len() == 0,
            forall|x: int|
                0 <= x < n && (#[trigger] space.cells()[x]).finals() != old(space).cells()[x].finals()
                    ==> justified(*old(space), *space, old(queue)@, offsets@, x),
            forall|v: usize| #[trigger]
                queue@.contains(v) ==> justified(*old(space), *space, old(queue)@, offsets@, v as int),
            narrowed(*space, *old(space)),
            total_options(space.cells()) <= total_options(old(space).cells()),
            forall|x: int|
                0 <= x < n && (#[trigger] old(space).cells()[x]).finals().len() <= 1
                    ==> space.cells()[x] == old(space).cells()[x],
            offsets@ == rule.offsets(),
            all_possible(space.cells()),
            queue_ok(queue@, queued@, n),
            n == old(space).cells().len(),
            watchers_ok(*space, watchers@, offsets@),
            pending_covers(*rule, *space, queue@),
        decreases total_options(space.cells()), queue@.len(),
    {
        proof {
            space.lemma_well_formed();
        }
        let ghost before_pop = queue@;
        if let Some(c) = queue.pop_front() {
            queued.set(c, false);
            proof {
                assert forall|i: int| 0 <= i < n implies (#[trigger] queued@[i] <==> queue@.contains(
                    i as usize,
                )) by {
                    if queue@.contains(i as usize) {
                        let j = choose|j: int| 0 <= j < queue@.len() && queue@[j] == i as usize;
                        assert(before_pop[j + 1] == i as usize);
                        assert(before_pop.contains(i as usize));
                        if i == c as int {
                            assert(before_pop[0] == before_pop[j + 1]);
                        }
                    }
                    if before_pop.contains(i as usize) && i != c as int {
                        let j = choose|j: int|
                            0 <= j < before_pop.len() && before_pop[j] == i as usize;
                        assert(before_pop[0] == c);
                        assert(j != 0);
                        assert(queue@[j - 1] == i as usize);
                    }
                }
                assert forall|x: usize| #[trigger] queue@.contains(x) <==> (before_pop.contains(x) && x != c) by {
                    if queue@.contains(x) {
                        let j = choose|j: int| 0 <= j < queue@.len() && queue@[j] == x;
                        assert(before_pop[j + 1] == x);
                        assert(before_pop[0] == c);
                        if x == c {
                            assert(before_pop[0] == before_pop[j + 1]);
                        }
                    }
                    if before_pop.contains(x) && x != c {
                        let j = choose|j: int| 0 <= j < before_pop.len() && before_pop[j] == x;
                        assert(before_pop[0] == c);
                        assert(queue@[j - 1] == x);
                    }
                }
            }
            let entropy_before: usize = match space.cell(c).entropy() {
                Some(e) => e,
                None => 0,
            };
            if entropy_before != 0 {
                let (neighbors, states) = neighbor_states(space, c, offsets);
                let mut value = space.cell(c).copy_state();
                rule.collapse(&mut value, states.as_slice());
                let ghost prev = *space;
                let ghost pset = prev.cells()[c as int].finals();
                proof {
                    rule.lemma_narrow_subset(pset, finals_of(states@));
                    prev.cells()[c as int].lemma_finals_finite();
                    lemma_len_subset(value.finals(), pset);
                    lemma_total_update(prev.cells(), c as int, value);
                }
                space.set_cell(c, value);
                proof {
                    lemma_narrowed_trans(*space, prev, *old(space));
                    lemma_watchers_transfer(prev, *space, watchers@, offsets@);
                    assert(cell_sets(*space) =~= cell_sets(prev).update(c as int, value.finals()));
                    assert(before_pop.contains(c)) by {
                        assert(before_pop[0] == c);
                    }
                    assert forall|x: int|
                        0 <= x < n && (#[trigger] space.cells()[x]).finals() != old(space).cells()[x].finals()
                            implies justified(*old(space), *space, old(queue)@, offsets@, x) by {
                        if x == c as int {
                            assert(justified(*old(space), prev, old(queue)@, offsets@, c as int));
                        } else {
                            assert(space.cells()[x] == prev.cells()[x]);
                        }
                        lemma_justified_persists(*old(space), prev, *space, old(queue)@, offsets@, x);
                    }
                    assert forall|v: usize| #[trigger] queue@.contains(v) implies justified(
                        *old(space),
                        *space,
                        old(queue)@,
                        offsets@,
                        v as int,
                    ) by {
                        assert(before_pop.contains(v));
                        lemma_justified_persists(*old(space), prev, *space, old(queue)@, offsets@, v as int);
                    }
                }
                match space.cell(c).entropy() {
                    None => {
                        proof {
                            assert(cell_sets(*space).update(c as int, pset) =~= cell_sets(prev));
                            assert(neighbor_views(*space, cell_sets(prev), c as int, offsets@)
                                =~= neighbor_views(prev, cell_sets(prev), c as int, offsets@));
                            assert(rule.narrow(
                                pset,
                                neighbor_views(
                                    *space,
                                    cell_sets(*space).update(c as int, pset),
                                    c as int,
                                    rule.offsets(),
                                ),
                            ) == Set::<nat>::empty());
                            assert(pset.subset_of(old(space).cells()[c as int].finals()));
                            assert(space.cells()[c as int].finals().len() == 0);
                            assert(pset.len() > 0);
                            assert forall|j: int|
                                0 <= j < space.cells().len() && j != c ==> (#[trigger] space.cells()[j]).finals().len() > 0 by {
                                if 0 <= j < space.cells().len() && j != c {
                                    assert(space.cells()[j] == prev.cells()[j]);
                                }
                            }
                        }
                        return Err(c);
                    },
                    Some(entropy_after) => {
                        if entropy_after < entropy_before {
                            let ghost mid_queue = queue@;
                            enqueue_all(queue, queued, &watchers[c], flag_count);
                            let ghost after_all = queue@;
                            enqueue_one(queue, queued, c, flag_count);
                            proof {
                                assert(value.finals() != old(space).cells()[c as int].finals()) by {
                                    if value.finals() == old(space).cells()[c as int].finals() {
                                        assert(pset.subset_of(old(space).cells()[c as int].finals()));
                                        assert(value.finals() =~= pset);
                                    }
                                }
                                lemma_watchers_transfer(*space, *old(space), watchers@, offsets@);
                                assert forall|v: usize| #[trigger] queue@.contains(v) implies justified(
                                    *old(space),
                                    *space,
                                    old(queue)@,
                                    offsets@,
                                    v as int,
                                ) by {
                                    assert(queue@.contains(v) <==> after_all.contains(v) || v == c);
                                    assert(after_all.contains(v) <==> mid_queue.contains(v) || watchers@[c as int]@.contains(v));
                                    if watchers@[c as int]@.contains(v) && !mid_queue.contains(v) {
                                        let k = choose|k: int| 0 <= k < watchers@[c as int]@.len() && watchers@[c as int]@[k] == v;
                                        assert(watches(*space, offsets@, watchers@[c as int]@[k] as int, c as int));
                                        assert(watches(*old(space), offsets@, v as int, c as int));
                                        assert(space.cells()[c as int].finals() != old(space).cells()[c as int].finals());
                                    }
                                    if v == c {
                                        assert(space.cells()[c as int].finals() != old(space).cells()[c as int].finals());
                                    }
                                }
                                assert forall|v: usize| #[trigger] queue@.contains(v) <==> after_all.contains(v) || v == c by {
                                    if queue@.contains(v) && !after_all.contains(v) {
                                        let j = choose|j: int| 0 <= j < queue@.len() && queue@[j] == v;
                                        if j < after_all.len() {
                                            assert(after_all[j] == v);
                                        }
                                    }
                                    if after_all.contains(v) {
                                        let j = choose|j: int| 0 <= j < after_all.len() && after_all[j] == v;
                                        assert(queue@[j] == v);
                                    }
                                    if v == c && !after_all.contains(v) {
                                        assert(queue@[after_all.len() as int] == v);
                                    }
                                }
                                assert forall|x: int|
                                    0 <= x < n && (#[trigger] space.cells()[x]).finals().len() > 1
                                        && !queue@.contains(x as usize) implies settled(
                                    *rule,
                                    *space,
                                    cell_sets(*space),
                                    x,
                                ) by {
                                    assert(!after_all.contains(x as usize));
                                    assert(x != c as int);
                                    assert(after_all.contains(x as usize) <==> mid_queue.contains(x as usize) || watchers@[c as int]@.contains(x as usize));
                                    assert(!watchers@[c as int]@.contains(x as usize));
                                    assert(!mid_queue.contains(x as usize));
                                    assert(!before_pop.contains(x as usize));
                                    assert(space.cells()[x] == prev.cells()[x]);
                                    assert forall|i: int|
                                        0 <= i < offsets@.len() && (#[trigger] prev.neighbor(x, offsets@[i])) is Some
                                            implies 0 <= prev.neighbor(x, offsets@[i])->0 < n
                                            && prev.neighbor(x, offsets@[i])->0 != c as int by {
                                        if prev.neighbor(x, offsets@[i])->0 == c as int {
                                            assert(prev.neighbor(x, offsets@[i]) == Some(c as int));
                                        }
                                    }
                                    lemma_views_unchanged(prev, *space, cell_sets(prev), cell_sets(*space), x, c as int, offsets@);
                                    assert(settled(*rule, prev, cell_sets(prev), x));
                                }
                            }
                        } else {
                            proof {
                                value.lemma_finals_finite();
                                vstd::set_lib::lemma_subset_equality(value.finals(), pset);
                                assert(cell_sets(*space) =~= cell_sets(prev));
                                assert(neighbor_views(*space, cell_sets(*space), c as int, offsets@)
                                    =~= neighbor_views(prev, cell_sets(prev), c as int, offsets@));
                                assert forall|x: int|
                                    0 <= x < n && (#[trigger] space.cells()[x]).finals().len() > 1
                                        && !queue@.contains(x as usize) implies settled(
                                    *rule,
                                    *space,
                                    cell_sets(*space),
                                    x,
                                ) by {
                                    assert(neighbor_views(*space, cell_sets(*space), x, offsets@)
                                        =~= neighbor_views(prev, cell_sets(prev), x, offsets@));
                                    if x != c as int {
                                        assert(space.cells()[x] == prev.cells()[x]);
                                        assert(!before_pop.contains(x as usize));
                                    }
                                }
                            }
                        }
                    },
                }
            }
        }
    }
    Ok(())
}

/// Drops the resolved cells from `unresolved`, keeping the order of the rest,
/// and returns the cells of lowest entropy among those left, in that order,
/// with that entropy. The list is empty exactly when no unresolved cell is left.
fn lowest_entropy_cells<St: State, Sp: Space<St>>(unresolved: &mut Vec<usize>, space: &Sp) -> (r: (
    Vec<usize>,
    usize,
))
    requires
        space.well_formed(),
        all_possible(space.cells()),
        forall|k: int|
            0 <= k < old(unresolved)@.len() ==> (#[trigger] old(unresolved)@[k]) < space.cells().len(),
        old(unresolved)@.no_duplicates(),
    ensures
        final(unresolved)@.no_duplicates(),
        r.0@.no_duplicates(),
        final(unresolved)@ == old(unresolved)@.filter(
            |u: usize| space.cells()[u as int].finals().len() > 1,
        ),
        r.0@.len() == 0 <==> final(unresolved)@.len() == 0,
        forall|k: int|
            0 <= k < final(unresolved)@.len() ==> r.1 <= entropy_num(
                space.cells()[(#[trigger] final(unresolved)@[k]) as int],
            ),
        r.0@ == final(unresolved)@.filter(
            |u: usize| entropy_num(space.cells()[u as int]) == r.1,
        ),
{
    let ghost n = space.cells().len();
    let ghost keep = |u: usize| space.cells()[u as int].finals().len() > 1;
    let ghost start = unresolved@;
    let mut still: Vec<usize> = Vec::new();
    let mut k: usize = 0;
    proof {
        reveal(Seq::filter);
        assert(start.subrange(0, 0) =~= Seq::<usize>::empty());
    }
    while k < unresolved.len()
        invariant
            space.well_formed(),
            all_possible(space.cells()),
            n == space.cells().len(),
            unresolved@ == start,
            keep == (|u: usize| space.cells()[u as int].finals().len() > 1),
            forall|j: int| 0 <= j < start.len() ==> (#[trigger] start[j]) < n,
            k <= start.len(),
            still@ == start.subrange(0, k as int).filter(keep),
        decreases start.len() - k,
    {
        let u = unresolved[k];
        let ghost prev_still = still@;
        proof {
            assert(space.cells()[u as int].finals().len() > 0);
        }
        if let Some(e) = space.cell(u).entropy() {
            if e > 0 {
                still.push(u);
            }
        }
        proof {
            reveal(Seq::filter);
            let sub = start.subrange(0, k + 1);
            assert(sub.drop_last() =~= start.subrange(0, k as int));
            assert(sub.last() == u);
            assert(sub.filter(keep) == if keep(u) { prev_still.push(u) } else { prev_still });
        }
        k = k + 1;
    }
    proof {
        assert(start.subrange(0, start.len() as int) =~= start);
    }
    *unresolved = still;
    let ghost kept = unresolved@;
    let mut lowest: Vec<usize> = Vec::new();
    let mut lowest_entropy: usize = usize::MAX;
    let mut k: usize = 0;
    proof {
        reveal(Seq::filter);
        assert(kept.subrange(0, 0) =~= Seq::<usize>::empty());
        assert forall|j: int| 0 <= j < kept.len() implies (#[trigger] kept[j]) < n
            && space.cells()[kept[j] as int].finals().len() > 1 by {
            lemma_filter_elem(start, keep, j);
        }
    }
    while k < unresolved.len()
        invariant
            space.well_formed(),
            all_possible(space.cells()),
            n == space.cells().len(),
            unresolved@ == kept,
            forall|j: int|
                0 <= j < kept.len() ==> (#[trigger] kept[j]) < n
                    && space.cells()[kept[j] as int].finals().len() > 1,
            k <= kept.len(),
            forall|j: int|
                0 <= j < k ==> lowest_entropy <= entropy_num(space.cells()[(#[trigger] kept[j]) as int]),
            k > 0 ==> exists|j: int| 0 <= j < k && lowest_entropy == entropy_num(space.cells()[(#[trigger] kept[j]) as int]),
            k == 0 ==> lowest_entropy == usize::MAX,
            lowest@ == kept.subrange(0, k as int).filter(
                |u: usize| entropy_num(space.cells()[u as int]) == lowest_entropy,
            ),
        decreases kept.len() - k,
    {
        let u = unresolved[k];
        let e: usize = match space.cell(u).entropy() {
            Some(e) => e,
            None => 0,
        };
        let ghost pre = kept.subrange(0, k as int);
        let ghost prev_low = lowest@;
        let ghost prev_e = lowest_entropy;
        if k == 0 || e < lowest_entropy {
            let ghost old_low = lowest_entropy;
            lowest.clear();
            lowest.push(u);
            lowest_entropy = e;
            proof {
                let low = |u: usize| entropy_num(space.cells()[u as int]) == lowest_entropy;
                assert forall|j: int| 0 <= j < pre.len() implies !low(#[trigger] pre[j]) by {
                    assert(pre[j] == kept[j]);
                }
                lemma_filter_none(pre, low);
            }
        } else if e == lowest_entropy {
            lowest.push(u);
        }
        proof {
            reveal(Seq::filter);
            let sub = kept.subrange(0, k + 1);
            let low = |w: usize| entropy_num(space.cells()[w as int]) == lowest_entropy;
            assert(sub.drop_last() =~= pre);
            assert(sub.last() == u);
            assert(entropy_num(space.cells()[u as int]) == e);
            if k == 0 || e < prev_e {
                assert(pre.filter(low) == Seq::<usize>::empty());
                assert(sub.filter(low) == seq![u]);
                assert(lowest@ =~= seq![u]);
            } else {
                assert(sub.filter(low) == if low(u) { pre.filter(low).push(u) } else { pre.filter(low) });
            }
        }
        k = k + 1;
    }
    proof {
        assert(kept.subrange(0, kept.len() as int) =~= kept);
        lemma_filter_no_duplicates(start, keep);
        lemma_filter_no_duplicates(kept, |u: usize| entropy_num(space.cells()[u as int]) == lowest_entropy);
        if kept.len() > 0 {
            let j = choose|j: int| 0 <= j < kept.len() && lowest_entropy == entropy_num(space.cells()[(#[trigger] kept[j]) as int]);
            let low = |u: usize| entropy_num(space.cells()[u as int]) == lowest_entropy;
            lemma_filter_keeps(kept, low, j);
        }
    }
    (lowest, lowest_entropy)
}

/// Filtering keeps a sequence free of duplicates.
proof fn lemma_filter_no_duplicates<A>(s: Seq<A>, pred: spec_fn(A) -> bool)
    requires
        s.no_duplicates(),
    ensures
        s.filter(pred).no_duplicates(),
    decreases s.len(),
{
    reveal(Seq::filter);
    if s.len() > 0 {
        let init = s.drop_last();
        assert forall|a: int, b: int| 0 <= a < b < init.len() implies init[a] != init[b] by {
            assert(init[a] == s[a] && init[b] == s[b]);
        }
        lemma_filter_no_duplicates(init, pred);
        if pred(s.last()) {
            if init.filter(pred).contains(s.last()) {
                init.lemma_filter_contains_rev(pred, s.last());
                let k = choose|k: int| 0 <= k < init.len() && init[k] == s.last();
                assert(s[k] == s[s.len() - 1]);
            }
            let f = init.filter(pred);
            assert forall|a: int, b: int| 0 <= a < b < f.push(s.last()).len() implies f.push(s.last())[a]
                != f.push(s.last())[b] by {
                if b == f.len() {
                    assert(f.contains(f[a]));
                }
            }
        }
    }
}

/// A sequence with no element meeting `pred` filters to nothing.
proof fn lemma_filter_none<A>(s: Seq<A>, pred: spec_fn(A) -> bool)
    requires
        forall|j: int| 0 <= j < s.len() ==> !pred(#[trigger] s[j]),
    ensures
        s.filter(pred) == Seq::<A>::empty(),
    decreases s.len(),
{
    reveal(Seq::filter);
    if s.len() > 0 {
        lemma_filter_none(s.drop_last(), pred);
    }
}

/// An element that meets `pred` survives the filter.
proof fn lemma_filter_keeps<A>(s: Seq<A>, pred: spec_fn(A) -> bool, j: int)
    requires
        0 <= j < s.len(),
        pred(s[j]),
    ensures
        s.filter(pred).contains(s[j]),
        s.filter(pred).len() > 0,
{
    s.lemma_filter_contains(pred, j);
}

/// What survives the filter meets `pred` and comes from `s`.
proof fn lemma_filter_elem<A>(s: Seq<A>, pred: spec_fn(A) -> bool, j: int)
    requires
        0 <= j < s.filter(pred).len(),
    ensures
        pred(s.filter(pred)[j]),
        s.contains(s.filter(pred)[j]),
{
    s.lemma_filter_pred(pred, j);
    assert(s.filter(pred).contains(s.filter(pred)[j]));
    s.lemma_filter_contains_rev(pred, s.filter(pred)[j]);
}

/// Runs wave function collapse on `space` under `rule`, drawing every random
/// choice from `rng`.
///
/// First every unresolved cell is propagated once. Then, until no cell is
/// unresolved, one of the cells of lowest entropy is picked at random,
/// committed to one of its values by the rule's observer, and narrowing is
/// propagated from it to a fixpoint. The propagation worklist is first-in
/// first-out and holds each cell at most once. Finally every cell is checked
/// against its neighbours once more. Stops with the coordinate of the first
/// cell left with no possible value.
pub fn collapse_with<Rule: CollapseRule<St, Sp>, St: State, Sp: Space<St>, R: RandomSource>(
    space: &mut Sp,
    rule: &Rule,
    rng: &mut R,
) -> (r: Result<(), Contradiction<Sp::Coordinate>>)
    requires
        old(space).well_formed(),
    ensures
        narrowed(*final(space), *old(space)),
        solved(*rule, *old(space)) ==> r is Ok && *final(space) == *old(space),
        match r {
            Ok(()) => solved(*rule, *final(space)),
            Err(e) => exists|i: int|
                #[trigger] contradiction_at(*rule, *old(space), *final(space), i)
                    && old(space).coordinates()[i] == e.coordinate,
        },
{
    proof {
        space.lemma_well_formed();
    }
    let offsets = rule.neighbor_offsets();
    let mut coords = space.coordinate_list();
    let n = coords.len();
    let watchers = watchers_of(space, &offsets);
    let mut unresolved: Vec<usize> = Vec::new();
    let mut queue: VecDeque<usize> = VecDeque::new();
    let mut queued: Vec<bool> = Vec::new();
    let mut i: usize = 0;
    while i < n
        invariant
            i <= n,
            queued@.len() == i,
            forall|j: int| 0 <= j < i ==> !(#[trigger] queued@[j]),
        decreases n - i,
    {
        queued.push(false);
        i = i + 1;
    }
    proof {
        assert(queue@.len() == 0);
        assert forall|j: int| 0 <= j < n implies (#[trigger] queued@[j] <==> queue@.contains(
            j as usize,
        )) by {}
    }
    let ghost start = *space;
    let mut i: usize = 0;
    while i < n
        invariant
            space.well_formed(),
            *space == start,
            start == *old(space),
            n == space.cells().len(),
            coords@ == space.coordinates(),
            coords@.len() == n,
            i <= n,
            queue_ok(queue@, queued@, n as nat),
            forall|k: int| 0 <= k < queue@.len() ==> (#[trigger] queue@[k]) < i,
            forall|k: int|
                0 <= k < queue@.len() ==> space.cells()[(#[trigger] queue@[k]) as int].finals().len() > 1,
            forall|k: int| 0 <= k < unresolved@.len() ==> (#[trigger] unresolved@[k]) < i,
            unresolved@.no_duplicates(),
            forall|j: int| 0 <= j < i ==> (#[trigger] space.cells()[j]).finals().len() > 0,
            forall|j: usize|
                j < i && space.cells()[j as int].finals().len() > 1 ==> #[trigger] unresolved@.contains(j),
            forall|j: usize|
                j < i && space.cells()[j as int].finals().len() > 1 ==> #[trigger] queue@.contains(j),
        decreases n - i,
    {
        let ghost listed = unresolved@;
        let ghost qlisted = queue@;
        match space.cell(i).entropy() {
            None => {
                proof {
                    assert(contradiction_at(*rule, *old(space), *space, i as int));
                }
                let coordinate = coords.remove(i);
                return Err(Contradiction { coordinate });
            },
            Some(e) => {
                if e > 0 {
                    unresolved.push(i);
                    proof {
                        assert forall|a: int, b: int| 0 <= a < b < unresolved@.len() implies unresolved@[a] != unresolved@[b] by {
                            if b == listed.len() {
                                assert(listed[a] < i);
                            } else {
                                assert(listed[a] != listed[b]);
                            }
                        }
                        assert forall|k: int| 0 <= k < unresolved@.len() implies (#[trigger] unresolved@[k]) < i + 1 by {
                            if k < listed.len() {
                                assert(unresolved@[k] == listed[k]);
                            }
                        }
                    }
                    enqueue_one(&mut queue, &mut queued, i, n);
                    proof {
                        assert forall|k: int| 0 <= k < queue@.len() implies (#[trigger] queue@[k]) < i + 1
                            && space.cells()[queue@[k] as int].finals().len() > 1 by {
                            if k < qlisted.len() {
                                assert(queue@[k] == qlisted[k]);
                            }
                        }
                    }
                }
            },
        }
        proof {
            assert forall|j: usize|
                j <= i && space.cells()[j as int].finals().len() > 1 implies #[trigger] unresolved@.contains(j) by {
                if j < i {
                    assert(listed.contains(j));
                    let k = choose|k: int| 0 <= k < listed.len() && listed[k] == j;
                    assert(unresolved@[k] == j);
                } else {
                    assert(unresolved@[listed.len() as int] == i);
                }
            }
            assert forall|j: usize|
                j <= i && space.cells()[j as int].finals().len() > 1 implies #[trigger] queue@.contains(j) by {
                if j < i {
                    assert(qlisted.contains(j));
                    let k2 = choose|k2: int| 0 <= k2 < qlisted.len() && qlisted[k2] == j;
                    assert(queue@[k2] == j);
                } else {
                    assert(queue@[qlisted.len() as int] == i);
                }
            }
        }
        i = i + 1;
    }
    proof {
        assert forall|x: int|
            0 <= x < space.cells().len() && (#[trigger] space.cells()[x]).finals().len() > 1
                && !queue@.contains(x as usize) implies settled(*rule, *space, cell_sets(*space), x) by {
            assert((x as usize) as int == x);
            assert(space.cells()[(x as usize) as int].finals().len() > 1);
            assert(unresolved@.contains(x as usize) && queue@.contains(x as usize));
        }
    }
    proof {
        if solved(*rule, *old(space)) && queue@.len() > 0 {
            assert(space.cells()[queue@[0] as int].finals().len() > 1);
        }
    }
    match run_propagation(space, rule, &mut queue, &mut queued, &offsets, &watchers) {
        Err(c) => {
            proof {
                assert(contradiction_at(*rule, *old(space), *space, c as int));
            }
            let coordinate = coords.remove(c);
            return Err(Contradiction { coordinate });
        },
        Ok(()) => {},
    }
    proof {
        assert forall|j: usize|
            j < n && space.cells()[j as int].finals().len() > 1 implies #[trigger] unresolved@.contains(j) by {
            lemma_narrowed_len(*space, start, j as int);
        }
        lemma_watchers_transfer(start, *space, watchers@, offsets@);
    }
    loop
        invariant
            narrowed(*space, *old(space)),
            offsets@ == rule.offsets(),
            coords@ == old(space).coordinates(),
            n == space.cells().len(),
            all_possible(space.cells()),
            queue_ok(queue@, queued@, n as nat),
            queue@.len() == 0,
            watchers_ok(*space, watchers@, offsets@),
            pending_covers(*rule, *space, queue@),
            forall|k: int| 0 <= k < unresolved@.len() ==> (#[trigger] unresolved@[k]) < n,
            unresolved@.no_duplicates(),
            forall|j: usize|
                j < n && space.cells()[j as int].finals().len() > 1 ==> #[trigger] unresolved@.contains(j),
            coords@.len() == n,
            solved(*rule, *old(space)) ==> *space == *old(space),
        ensures
            unresolved@.len() == 0,
        decreases total_options(space.cells()),
    {
        proof {
            space.lemma_well_formed();
        }
        let ghost listed = unresolved@;
        let (lowest, lowest_entropy) = lowest_entropy_cells(&mut unresolved, space);
        proof {
            let keep = |u: usize| space.cells()[u as int].finals().len() > 1;
            assert forall|k: int| 0 <= k < unresolved@.len() implies (#[trigger] unresolved@[k]) < n by {
                lemma_filter_elem(listed, keep, k);
            }
            assert forall|j: usize|
                j < n && space.cells()[j as int].finals().len() > 1 implies #[trigger] unresolved@.contains(j) by {
                assert(listed.contains(j));
                let k = choose|k: int| 0 <= k < listed.len() && listed[k] == j;
                lemma_filter_keeps(listed, keep, k);
            }
        }
        proof {
            if solved(*rule, *old(space)) {
                let keep = |u: usize| space.cells()[u as int].finals().len() > 1;
                assert forall|j: int| 0 <= j < listed.len() implies !keep(#[trigger] listed[j]) by {
                    assert(space.cells()[listed[j] as int].finals().len() == 1);
                }
                lemma_filter_none(listed, keep);
            }
        }
        if lowest.len() == 0 {
            break;
        }
        let pick = rng.below(lowest.len());
        let c = lowest[pick];
        proof {
            let low = |u: usize| entropy_num(space.cells()[u as int]) == lowest_entropy;
            lemma_filter_elem(unresolved@, low, pick as int);
            let keep = |u: usize| space.cells()[u as int].finals().len() > 1;
            let k = choose|k: int| 0 <= k < unresolved@.len() && unresolved@[k] == c;
            lemma_filter_elem(listed, keep, k);
        }
        let (neighbors, states) = neighbor_states(space, c, &offsets);
        let mut value = space.cell(c).copy_state();
        rule.observe(&mut value, states.as_slice(), rng);
        let ghost prev = *space;
        proof {
            lemma_total_update(prev.cells(), c as int, value);
        }
        space.set_cell(c, value);
        proof {
            lemma_narrowed_trans(*space, prev, *old(space));
            lemma_watchers_transfer(prev, *space, watchers@, offsets@);
            space.lemma_well_formed();
        }
        enqueue_all(&mut queue, &mut queued, &watchers[c], n);
        proof {
            assert forall|x: int|
                0 <= x < n && (#[trigger] space.cells()[x]).finals().len() > 1
                    && !queue@.contains(x as usize) implies settled(*rule, *space, cell_sets(*space), x) by {
                assert(queue@.contains(x as usize) <==> watchers@[c as int]@.contains(x as usize));
                assert(!watchers@[c as int]@.contains(x as usize));
                assert(x != c as int);
                assert(space.cells()[x] == prev.cells()[x]);
                assert(cell_sets(*space) =~= cell_sets(prev).update(c as int, value.finals()));
                assert forall|i: int|
                    0 <= i < offsets@.len() && (#[trigger] prev.neighbor(x, offsets@[i])) is Some
                        implies 0 <= prev.neighbor(x, offsets@[i])->0 < n
                        && prev.neighbor(x, offsets@[i])->0 != c as int by {
                    if prev.neighbor(x, offsets@[i])->0 == c as int {
                        assert(prev.neighbor(x, offsets@[i]) == Some(c as int));
                    }
                }
                lemma_views_unchanged(prev, *space, cell_sets(prev), cell_sets(*space), x, c as int, offsets@);
                assert(settled(*rule, prev, cell_sets(prev), x));
            }
        }
        let ghost mid = *space;
        match run_propagation(space, rule, &mut queue, &mut queued, &offsets, &watchers) {
            Err(c) => {
                proof {
                    let p = choose|p: Set<nat>|
                        p.subset_of(mid.cells()[c as int].finals()) && #[trigger] rule.narrow(
                            p,
                            neighbor_views(
                                *space,
                                cell_sets(*space).update(c as int, p),
                                c as int,
                                rule.offsets(),
                            ),
                        ) == Set::<nat>::empty();
                    assert(mid.cells()[c as int].finals().subset_of(old(space).cells()[c as int].finals()));
                    let q = choose|q: Set<nat>|
                        q.len() > 0 && q.subset_of(mid.cells()[c as int].finals()) && #[trigger] rule.narrow(
                            q,
                            neighbor_views(*space, cell_sets(*space).update(c as int, q), c as int, rule.offsets()),
                        ) == Set::<nat>::empty();
                    assert(q.subset_of(old(space).cells()[c as int].finals()));
                    assert(emptied_by_rule(*rule, *space, old(space).cells()[c as int].finals(), c as int));
                    assert(contradiction_at(*rule, *old(space), *space, c as int));
                }
                let coordinate = coords.remove(c);
                return Err(Contradiction { coordinate });
            },
            Ok(()) => {},
        }
        proof {
            lemma_narrowed_trans(*space, mid, *old(space));
            lemma_watchers_transfer(mid, *space, watchers@, offsets@);
            assert forall|j: usize|
                j < n && space.cells()[j as int].finals().len() > 1 implies #[trigger] unresolved@.contains(j) by {
                lemma_narrowed_len(*space, mid, j as int);
                lemma_narrowed_len(mid, prev, j as int);
            }
        }
    }
    proof {
        space.lemma_well_formed();
        assert forall|i: int| 0 <= i < n implies (#[trigger] space.cells()[i]).finals().len() == 1 by {
            if space.cells()[i].finals().len() > 1 {
                assert(unresolved@.contains(i as usize));
            }
        }
    }
    let ghost done = *space;
    let mut i: usize = 0;
    while i < n
        invariant
            *space == done,
            narrowed(done, *old(space)),
            solved(*rule, *old(space)) ==> done == *old(space),
            offsets@ == rule.offsets(),
            coords@ == old(space).coordinates(),
            coords@.len() == n,
            n == space.cells().len(),
            forall|j: int| 0 <= j < n ==> (#[trigger] space.cells()[j]).finals().len() == 1,
            i <= n,
            forall|j: int| 0 <= j < i ==> settled(*rule, *space, cell_sets(*space), j),
        decreases n - i,
    {
        let (neighbors, states) = neighbor_states(space, i, &offsets);
        let mut value = space.cell(i).copy_state();
        rule.collapse(&mut value, states.as_slice());
        let ghost pset = space.cells()[i as int].finals();
        proof {
            rule.lemma_narrow_subset(pset, finals_of(states@));
            space.cells()[i as int].lemma_finals_finite();
            lemma_len_subset(value.finals(), pset);
        }
        if value.entropy().is_none() {
            let ghost prev = *space;
            space.set_cell(i, value);
            proof {
                assert(cell_sets(*space).update(i as int, pset) =~= cell_sets(prev));
                assert(neighbor_views(*space, cell_sets(prev), i as int, offsets@)
                    =~= neighbor_views(prev, cell_sets(prev), i as int, offsets@));
                lemma_narrowed_trans(*space, prev, *old(space));
                assert(rule.narrow(
                    pset,
                    neighbor_views(*space, cell_sets(*space).update(i as int, pset), i as int, rule.offsets()),
                ) == Set::<nat>::empty());
                assert(pset.subset_of(old(space).cells()[i as int].finals()));
                assert(space.cells()[i as int].finals().len() == 0);
                assert(pset.len() > 0);
                assert forall|j: int|
                    0 <= j < space.cells().len() && j != i ==> (#[trigger] space.cells()[j]).finals().len() > 0 by {
                    if 0 <= j < space.cells().len() && j != i {
                        assert(space.cells()[j] == prev.cells()[j]);
                        assert(prev.cells()[j].finals().len() == 1);
                    }
                }
                assert(emptied_by_rule(*rule, *space, old(space).cells()[i as int].finals(), i as int));
                assert(contradiction_at(*rule, *old(space), *space, i as int));
                if solved(*rule, *old(space)) {
                    assert(settled(*rule, prev, cell_sets(prev), i as int));
                    assert(cell_sets(prev)[i as int] == pset);
                    assert(false);
                }
            }
            let coordinate = coords.remove(i);
            return Err(Contradiction { coordinate });
        }
        proof {
            value.lemma_finals_finite();
            vstd::set_lib::lemma_subset_equality(value.finals(), pset);
            assert(cell_sets(*space)[i as int] == pset);
        }
        i = i + 1;
    }
    Ok(())
}

/// Runs wave function collapse on `space` under `rule`, drawing random
/// choices from the thread's generator. See [`collapse_with`].
pub fn collapse<Rule: CollapseRule<St, Sp>, St: State, Sp: Space<St>>(space: &mut Sp, rule: &Rule) -> (r: Result<
    (),
    Contradiction<Sp::Coordinate>,
>)
    requires
        old(space).well_formed(),
    ensures
        narrowed(*final(space), *old(space)),
        solved(*rule, *old(space)) ==> r is Ok && *final(space) == *old(space),
        match r {
            Ok(()) => solved(*rule, *final(space)),
            Err(e) => exists|i: int|
                #[trigger] contradiction_at(*rule, *old(space), *final(space), i)
                    && old(space).coordinates()[i] == e.coordinate,
        },
{
    let mut rng = ThreadRandom;
    collapse_with(space, rule, &mut rng)
}

} // verus!

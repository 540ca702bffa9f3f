use vstd::prelude::*;

verus! {

/// A cell number as seen by the spec: `None` stays `None`.
pub open spec fn cell_number(o: Option<usize>) -> Option<int> {
    match o {
        Some(n) => Some(n as int),
        None => None,
    }
}

/// The space, or "world", that wave function collapse runs on.
///
/// Cells are numbered densely from zero; each has a coordinate, and a
/// coordinate delta leads from a cell to at most one neighbour. The set of
/// cells and the adjacency between them never change while a collapse runs:
/// only the cell values do.
pub trait Space<T>: Sized {
    /// Coordinates identify cells.
    type Coordinate;
    /// Spatial relationship between cells, used to find neighbours.
    type CoordinateDelta;

    /// The cell values, by cell number.
    spec fn cells(&self) -> Seq<T>;

    /// The coordinate of each cell, by cell number.
    spec fn coordinates(&self) -> Seq<Self::Coordinate>;

    /// The cell reached from cell `cell` by `delta`, or `None` when that lies
    /// outside the space.
    spec fn neighbor(&self, cell: int, delta: Self::CoordinateDelta) -> Option<int>;

    /// The space's internal invariant.
    spec fn well_formed(&self) -> bool;

    /// A well-formed space has one coordinate per cell, and neighbours are cells.
    proof fn lemma_well_formed(&self)
        requires
            self.well_formed(),
        ensures
            self.coordinates().len() == self.cells().len(),
            forall|c: int, d: Self::CoordinateDelta|
                0 <= c < self.cells().len() && (#[trigger] self.neighbor(c, d)) is Some ==> 0
                    <= self.neighbor(c, d)->0 < self.cells().len(),
    ;

    /// Every valid coordinate, in cell-number order.
    fn coordinate_list(&self) -> (r: Vec<Self::Coordinate>)
        requires
            self.well_formed(),
        ensures
            r@ == self.coordinates(),
    ;

    /// The neighbours of cell `cell` in each of `neighbor_directions`, `None`
    /// where the offset leads outside the space.
    fn neighbors(&self, cell: usize, neighbor_directions: &[Self::CoordinateDelta]) -> (r: Vec<
        Option<usize>,
    >)
        requires
            self.well_formed(),
            cell < self.cells().len(),
        ensures
            r@.len() == neighbor_directions@.len(),
            forall|i: int|
                0 <= i < r@.len() ==> cell_number(#[trigger] r@[i]) == self.neighbor(
                    cell as int,
                    neighbor_directions@[i],
                ),
    ;

    /// The value of cell `index`.
    fn cell(&self, index: usize) -> (r: &T)
        requires
            self.well_formed(),
            index < self.cells().len(),
        ensures
            *r == self.cells()[index as int],
    ;

    /// Replaces the value of cell `index`.
    fn set_cell(&mut self, index: usize, value: T)
        requires
            old(self).well_formed(),
            index < old(self).cells().len(),
        ensures
            final(self).well_formed(),
            final(self).cells() == old(self).cells().update(index as int, value),
            final(self).coordinates() == old(self).coordinates(),
            forall|c: int, d: Self::CoordinateDelta| #[trigger]
                final(self).neighbor(c, d) == old(self).neighbor(c, d),
    ;
}

/// Coordinate deltas that have an inverse (the offset that undoes them) and
/// can be compared.
pub trait InvertDelta: Sized {
    /// The offset that undoes `self`.
    spec fn inverse(self) -> Self;

    /// Inverting twice gives the offset back.
    proof fn lemma_inverse_involutive(self)
        ensures
            self.inverse().inverse() == self,
    ;

    fn invert_delta(&self) -> (r: Self)
        ensures
            r == self.inverse(),
    ;

    fn same_delta(&self, other: &Self) -> (r: bool)
        ensures
            r == (*self == *other),
    ;
}

/// The negation of `v`, wrapping at `isize::MIN`.
pub open spec fn neg_wrapping(v: isize) -> isize {
    if v == isize::MIN {
        v
    } else {
        (-v) as isize
    }
}

impl InvertDelta for (isize, isize) {
    open spec fn inverse(self) -> Self {
        (neg_wrapping(self.0), neg_wrapping(self.1))
    }

    proof fn lemma_inverse_involutive(self) {
    }

    fn invert_delta(&self) -> (r: Self) {
        let dx = if self.0 == isize::MIN {
            self.0
        } else {
            -self.0
        };
        let dy = if self.1 == isize::MIN {
            self.1
        } else {
            -self.1
        };
        (dx, dy)
    }

    fn same_delta(&self, other: &Self) -> (r: bool) {
        self.0 == other.0 && self.1 == other.1
    }
}

} // verus!

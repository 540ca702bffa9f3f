use vstd::prelude::*;
use crate::space::Space;

verus! {

/// The coordinate of cell number `i` in a grid `width` cells wide.
pub open spec fn grid_coordinate(i: int, width: int) -> (isize, isize) {
    ((i % width) as isize, (i / width) as isize)
}

/// The cell reached from cell `cell` by `(dx, dy)` in a `width` by `height`
/// grid, or `None` when that lies outside it.
pub open spec fn grid_neighbor(cell: int, width: int, height: int, delta: (isize, isize)) -> Option<
    int,
> {
    let x = cell % width + delta.0;
    let y = cell / width + delta.1;
    if 0 <= x < width && 0 <= y < height {
        Some(x + y * width)
    } else {
        None
    }
}

proof fn lemma_cell_position(i: int, width: int, height: int)
    requires
        width > 0,
        height >= 0,
        0 <= i < width * height,
    ensures
        0 <= i % width < width,
        0 <= i / width < height,
        i == i % width + (i / width) * width,
{
    vstd::arithmetic::div_mod::lemma_fundamental_div_mod(i, width);
    assert((i / width) * width == width * (i / width)) by (nonlinear_arith);
    vstd::arithmetic::div_mod::lemma_div_pos_is_pos(i, width);
    vstd::arithmetic::div_mod::lemma_mod_pos_bound(i, width);
    if i / width >= height {
        vstd::arithmetic::mul::lemma_mul_inequality(height, i / width, width);
        assert(width * (i / width) >= width * height) by (nonlinear_arith)
            requires
                i / width >= height,
                width > 0,
        ;
    }
}

proof fn lemma_position_cell(x: int, y: int, width: int, height: int)
    requires
        0 <= x < width,
        0 <= y < height,
    ensures
        0 <= x + y * width < width * height,
        (x + y * width) % width == x,
        (x + y * width) / width == y,
{
    assert(0 <= y * width) by (nonlinear_arith)
        requires
            0 <= y,
            0 < width,
    ;
    assert(x + y * width < width * height) by (nonlinear_arith)
        requires
            0 <= x < width,
            0 <= y < height,
    ;
    vstd::arithmetic::div_mod::lemma_fundamental_div_mod_converse(x + y * width, width, y, x);
}

/// A rectangular grid of cells addressed by `(x, y)`, stored row by row.
///
/// Coordinates and coordinate deltas are `(isize, isize)`.
pub struct SquareGrid<T> {
    cells: Vec<T>,
    width: isize,
    height: isize,
}

impl<T> SquareGrid<T> {
    /// The grid's width.
    pub closed spec fn spec_width(&self) -> int {
        self.width as int
    }

    /// The grid's height.
    pub closed spec fn spec_height(&self) -> int {
        self.height as int
    }

    /// Creates a `width` by `height` grid whose cell at `(x, y)` starts as
    /// `init_fn(x, y)`. A negative dimension gives an empty grid.
    pub fn new<F: Fn(isize, isize) -> T>(width: isize, height: isize, init_fn: F) -> (r: Self)
        requires
            width > 0 && height > 0 ==> width * height <= isize::MAX,
            forall|x: isize, y: isize|
                0 <= x < width && 0 <= y < height ==> #[trigger] init_fn.requires((x, y)),
        ensures
            r.well_formed(),
            r.spec_width() == if width < 0 || height < 0 { 0 } else { width as int },
            r.spec_height() == if width < 0 || height < 0 { 0 } else { height as int },
            r.cells().len() == r.spec_width() * r.spec_height(),
            forall|i: int|
                0 <= i < r.cells().len() ==> init_fn.ensures(
                    grid_coordinate(i, r.spec_width()),
                    #[trigger] r.cells()[i],
                ),
    {
        let (w, h) = if width < 0 || height < 0 {
            (0isize, 0isize)
        } else {
            (width, height)
        };
        assert(w * h <= isize::MAX) by (nonlinear_arith)
            requires
                w == 0 || h == 0 || w * h <= isize::MAX,
                w >= 0,
                h >= 0,
        ;
        let mut cells: Vec<T> = Vec::new();
        let mut y: isize = 0;
        while y < h
            invariant
                0 <= w,
                0 <= y <= h,
                w * h <= isize::MAX,
                w == 0 || (w == width && h == height),
                forall|x: isize, y: isize|
                    0 <= x < width && 0 <= y < height ==> #[trigger] init_fn.requires((x, y)),
                cells@.len() == y * w,
                forall|i: int|
                    0 <= i < cells@.len() ==> init_fn.ensures(
                        grid_coordinate(i, w as int),
                        #[trigger] cells@[i],
                    ),
            decreases h - y,
        {
            let mut x: isize = 0;
            while x < w
                invariant
                    0 <= x <= w,
                    0 <= y < h,
                    w * h <= isize::MAX,
                    w == 0 || (w == width && h == height),
                    forall|x: isize, y: isize|
                        0 <= x < width && 0 <= y < height ==> #[trigger] init_fn.requires((x, y)),
                    cells@.len() == y * w + x,
                    forall|i: int|
                        0 <= i < cells@.len() ==> init_fn.ensures(
                            grid_coordinate(i, w as int),
                            #[trigger] cells@[i],
                        ),
                decreases w - x,
            {
                proof {
                    lemma_position_cell(x as int, y as int, w as int, h as int);
                }
                let v = init_fn(x, y);
                cells.push(v);
                x = x + 1;
            }
            proof {
                assert((y + 1) * w == y * w + w) by (nonlinear_arith);
            }
            y = y + 1;
        }
        assert(y * w == w * h) by (nonlinear_arith)
            requires
                y == h,
        ;
        SquareGrid { cells, width: w, height: h }
    }

    /// The grid's width.
    pub fn width(&self) -> (r: isize)
        ensures
            r == self.spec_width(),
    {
        self.width
    }

    /// The grid's height.
    pub fn height(&self) -> (r: isize)
        ensures
            r == self.spec_height(),
    {
        self.height
    }

    /// Replaces the value at `(x, y)`.
    pub fn set(&mut self, coord: (isize, isize), value: T)
        requires
            old(self).well_formed(),
            0 <= coord.0 < old(self).spec_width(),
            0 <= coord.1 < old(self).spec_height(),
        ensures
            final(self).well_formed(),
            final(self).spec_width() == old(self).spec_width(),
            final(self).spec_height() == old(self).spec_height(),
            final(self).cells() == old(self).cells().update(
                coord.0 + coord.1 * old(self).spec_width(),
                value,
            ),
    {
        proof {
            lemma_position_cell(coord.0 as int, coord.1 as int, self.width as int, self.height as int);
        }
        let index = (coord.0 + coord.1 * self.width) as usize;
        self.cells.set(index, value);
    }

    /// The value at `(x, y)`.
    pub fn get(&self, coord: (isize, isize)) -> (r: &T)
        requires
            self.well_formed(),
            0 <= coord.0 < self.spec_width(),
            0 <= coord.1 < self.spec_height(),
        ensures
            *r == self.cells()[coord.0 + coord.1 * self.spec_width()],
    {
        proof {
            lemma_position_cell(coord.0 as int, coord.1 as int, self.width as int, self.height as int);
        }
        &self.cells[(coord.0 + coord.1 * self.width) as usize]
    }
}

impl<T> Space<T> for SquareGrid<T> {
    type Coordinate = (isize, isize);

    type CoordinateDelta = (isize, isize);

    open spec fn cells(&self) -> Seq<T> {
        self.cells_view()
    }

    open spec fn coordinates(&self) -> Seq<(isize, isize)> {
        Seq::new(self.cells_view().len(), |i: int| grid_coordinate(i, self.spec_width()))
    }

    open spec fn neighbor(&self, cell: int, delta: (isize, isize)) -> Option<int> {
        grid_neighbor(cell, self.spec_width(), self.spec_height(), delta)
    }

    open spec fn well_formed(&self) -> bool {
        &&& 0 <= self.spec_width()
        &&& 0 <= self.spec_height()
        &&& self.spec_width() * self.spec_height() <= isize::MAX
        &&& self.cells_view().len() == self.spec_width() * self.spec_height()
    }

    proof fn lemma_well_formed(&self) {
        assert forall|c: int, d: (isize, isize)|
            0 <= c < self.cells().len() && (#[trigger] self.neighbor(c, d)) is Some implies 0
                <= self.neighbor(c, d)->0 < self.cells().len() by {
            lemma_cell_position(c, self.width as int, self.height as int);
            let x = c % (self.width as int) + d.0;
            let y = c / (self.width as int) + d.1;
            lemma_position_cell(x, y, self.width as int, self.height as int);
        }
    }

    fn coordinate_list(&self) -> (r: Vec<(isize, isize)>) {
        let mut coords: Vec<(isize, isize)> = Vec::new();
        let mut y: isize = 0;
        while y < self.height
            invariant
                self.well_formed(),
                0 <= y <= self.height,
                coords@.len() == y * self.width,
                forall|i: int|
                    0 <= i < coords@.len() ==> #[trigger] coords@[i] == grid_coordinate(
                        i,
                        self.width as int,
                    ),
            decreases self.height - y,
        {
            let mut x: isize = 0;
            while x < self.width
                invariant
                    self.well_formed(),
                    0 <= x <= self.width,
                    0 <= y < self.height,
                    coords@.len() == y * self.width + x,
                    forall|i: int|
                        0 <= i < coords@.len() ==> #[trigger] coords@[i] == grid_coordinate(
                            i,
                            self.width as int,
                        ),
                decreases self.width - x,
            {
                proof {
                    lemma_position_cell(x as int, y as int, self.width as int, self.height as int);
                }
                coords.push((x, y));
                x = x + 1;
            }
            proof {
                assert((y + 1) * self.width == y * self.width + self.width) by (nonlinear_arith);
            }
            y = y + 1;
        }
        assert(y * self.width == self.width * self.height) by (nonlinear_arith)
            requires
                y == self.height,
        ;
        assert(coords@ =~= self.coordinates());
        coords
    }

    fn neighbors(&self, cell: usize, neighbor_directions: &[(isize, isize)]) -> (r: Vec<
        Option<usize>,
    >) {
        proof {
            assert(self.width > 0) by (nonlinear_arith)
                requires
                    0 <= cell < self.width * self.height,
                    self.width >= 0,
                    self.height >= 0,
            ;
            lemma_cell_position(cell as int, self.width as int, self.height as int);
        }
        let w = self.width as usize;
        let x = (cell % w) as i128;
        let y = (cell / w) as i128;
        let mut out: Vec<Option<usize>> = Vec::new();
        let mut i: usize = 0;
        while i < neighbor_directions.len()
            invariant
                self.well_formed(),
                cell < self.cells().len(),
                w == self.width,
                x == cell as int % self.width as int,
                y == cell as int / self.width as int,
                0 <= x < self.width,
                0 <= y < self.height,
                i <= neighbor_directions@.len(),
                out@.len() == i,
                forall|j: int|
                    0 <= j < i ==> crate::space::cell_number(#[trigger] out@[j]) == self.neighbor(
                        cell as int,
                        neighbor_directions@[j],
                    ),
            decreases neighbor_directions@.len() - i,
        {
            let (dx, dy) = neighbor_directions[i];
            let nx = x + dx as i128;
            let ny = y + dy as i128;
            if 0 <= nx && nx < self.width as i128 && 0 <= ny && ny < self.height as i128 {
                proof {
                    lemma_position_cell(nx as int, ny as int, self.width as int, self.height as int);
                }
                out.push(Some((nx + ny * self.width as i128) as usize));
            } else {
                out.push(None);
            }
            i = i + 1;
        }
        out
    }

    fn cell(&self, index: usize) -> (r: &T) {
        &self.cells[index]
    }

    fn set_cell(&mut self, index: usize, value: T)
        ensures
            final(self).spec_width() == old(self).spec_width(),
            final(self).spec_height() == old(self).spec_height(),
    {
        self.cells.set(index, value);
    }
}

impl<T> SquareGrid<T> {
    /// The cell values.
    pub closed spec fn cells_view(&self) -> Seq<T> {
        self.cells@
    }
}

/// From the cell at `(x, y)`, an offset finds the cell it leads to when that
/// lies inside the grid, and no neighbour when it leads outside, at a corner
/// or an edge as anywhere else.
pub proof fn lemma_neighbor_at<T>(grid: SquareGrid<T>, x: int, y: int, delta: (isize, isize))
    requires
        grid.well_formed(),
        0 <= x < grid.spec_width(),
        0 <= y < grid.spec_height(),
    ensures
        grid.neighbor(x + y * grid.spec_width(), delta) == if 0 <= x + delta.0 < grid.spec_width()
            && 0 <= y + delta.1 < grid.spec_height() {
            Some((x + delta.0) + (y + delta.1) * grid.spec_width())
        } else {
            None::<int>
        },
{
    lemma_position_cell(x, y, grid.spec_width(), grid.spec_height());
}

} // verus!

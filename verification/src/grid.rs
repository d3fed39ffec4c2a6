//! Board coordinates and a fixed-shape two-dimensional grid.

use crate::util::Direction;
use vstd::prelude::*;

verus! {

/// The row reached from `row` by `k` steps along `d`.
pub open spec fn row_along(row: int, d: Direction, k: int) -> int {
    match d {
        Direction::Right => row,
        Direction::Down => row + k,
    }
}

/// The column reached from `col` by `k` steps along `d`.
pub open spec fn col_along(col: int, d: Direction, k: int) -> int {
    match d {
        Direction::Right => col + k,
        Direction::Down => col,
    }
}

/// A cell position: row and column, counted from zero. Positions off the
/// grid (negative, or past the last row or column) are representable too.
#[derive(Clone, Copy, PartialEq, Eq, Structural, Debug)]
pub struct Coord {
    pub row: i32,
    pub col: i32,
}

impl Coord {
    pub fn new(row: i32, col: i32) -> (c: Coord)
        ensures
            c == (Coord { row, col }),
    {
        Coord { row, col }
    }

    /// The neighbouring position one step along `d`.
    pub fn next(&self, d: Direction) -> (c: Coord)
        requires
            self.row + d.row_step() <= i32::MAX,
            self.col + d.col_step() <= i32::MAX,
        ensures
            c.row == self.row + d.row_step(),
            c.col == self.col + d.col_step(),
    {
        match d {
            Direction::Right => Coord { row: self.row, col: self.col + 1 },
            Direction::Down => Coord { row: self.row + 1, col: self.col },
        }
    }

    /// The neighbouring position one step against `d`.
    pub fn prev(&self, d: Direction) -> (c: Coord)
        requires
            self.row - d.row_step() >= i32::MIN,
            self.col - d.col_step() >= i32::MIN,
        ensures
            c.row == self.row - d.row_step(),
            c.col == self.col - d.col_step(),
    {
        match d {
            Direction::Right => Coord { row: self.row, col: self.col - 1 },
            Direction::Down => Coord { row: self.row - 1, col: self.col },
        }
    }
}

/// A grid of `nrows` by `ncols` cells, stored row after row.
pub struct Grid<T> {
    nrows: usize,
    ncols: usize,
    storage: Vec<T>,
}

/// A cell inside an `nrows` by `ncols` grid has a flat index inside the store.
proof fn lemma_offset_in_range(row: int, col: int, nrows: int, ncols: int)
    requires
        0 <= row < nrows,
        0 <= col < ncols,
    ensures
        0 <= row * ncols + col < nrows * ncols,
{
    assert(row * ncols >= 0) by (nonlinear_arith)
        requires
            row >= 0,
            ncols >= 0,
    ;
    assert(row * ncols + ncols <= nrows * ncols) by (nonlinear_arith)
        requires
            row + 1 <= nrows,
            ncols >= 0,
    ;
}

/// Two cells with the same flat index are the same cell.
proof fn lemma_offset_injective(r1: int, c1: int, r2: int, c2: int, ncols: int)
    requires
        0 <= c1 < ncols,
        0 <= c2 < ncols,
        r1 * ncols + c1 == r2 * ncols + c2,
    ensures
        r1 == r2,
        c1 == c2,
{
    if r1 < r2 {
        assert(r1 * ncols + ncols <= r2 * ncols) by (nonlinear_arith)
            requires
                r1 + 1 <= r2,
                ncols >= 0,
        ;
    } else if r2 < r1 {
        assert(r2 * ncols + ncols <= r1 * ncols) by (nonlinear_arith)
            requires
                r2 + 1 <= r1,
                ncols >= 0,
        ;
    }
}

impl<T> View for Grid<T> {
    type V = Seq<Seq<T>>;

    /// The rows of the grid, each a sequence of cells.
    closed spec fn view(&self) -> Seq<Seq<T>> {
        Seq::new(self.nrows as nat, |r: int| Seq::new(self.ncols as nat, |c: int| self.cell(r, c)))
    }
}

impl<T> Grid<T> {
    /// The view has one row per row and one entry per cell.
    pub proof fn lemma_view(&self)
        ensures
            self@.len() == self.spec_nrows(),
            forall|r: int| 0 <= r < self.spec_nrows() ==> (#[trigger] self@[r]).len() == self.spec_ncols(),
            forall|r: int, c: int| self.contains(r, c) ==> (#[trigger] self@[r][c]) == self.cell(r, c),
    {
    }

    /// The store holds exactly one element per cell.
    pub closed spec fn wf(&self) -> bool {
        self.storage@.len() == self.nrows * self.ncols
    }

    pub closed spec fn spec_nrows(&self) -> nat {
        self.nrows as nat
    }

    pub closed spec fn spec_ncols(&self) -> nat {
        self.ncols as nat
    }

    /// The content of the cell at `row`, `col`.
    pub closed spec fn cell(&self, row: int, col: int) -> T {
        self.storage@[row * self.ncols + col]
    }

    /// Whether `row`, `col` names a cell of the grid.
    pub open spec fn contains(&self, row: int, col: int) -> bool {
        0 <= row < self.spec_nrows() && 0 <= col < self.spec_ncols()
    }

    /// Whether `coord` names a cell of the grid.
    pub open spec fn in_bounds(&self, coord: Coord) -> bool {
        self.contains(coord.row as int, coord.col as int)
    }

    /// The content of the cell at `coord`.
    pub open spec fn at(&self, coord: Coord) -> T {
        self.cell(coord.row as int, coord.col as int)
    }

    /// True exactly for coordinates inside the grid; negative and too large
    /// rows or columns are rejected.
    pub fn is_coord_in_bounds(&self, coord: Coord) -> (b: bool)
        ensures
            b == self.in_bounds(coord),
    {
        if coord.row < 0 || coord.col < 0 {
            false
        } else if (coord.row as usize) >= self.nrows || (coord.col as usize) >= self.ncols {
            false
        } else {
            true
        }
    }

    fn offset(&self, coord: Coord) -> (o: usize)
        requires
            self.wf(),
            self.in_bounds(coord),
        ensures
            o == coord.row * self.ncols + coord.col,
            o < self.storage@.len(),
    {
        let len = self.storage.len();
        proof {
            lemma_offset_in_range(
                coord.row as int,
                coord.col as int,
                self.nrows as int,
                self.ncols as int,
            );
            assert(0 <= coord.row * self.ncols) by (nonlinear_arith)
                requires
                    coord.row >= 0,
                    self.ncols >= 0,
            ;
            assert(coord.row * self.ncols + coord.col < len);
            assert((coord.row as usize) * self.ncols == coord.row * self.ncols);
        }
        (coord.row as usize) * self.ncols + (coord.col as usize)
    }

    /// Overwrites the cell at `coord`, which must lie inside the grid.
    pub fn set_unchecked(&mut self, coord: Coord, val: T)
        requires
            old(self).wf(),
            old(self).in_bounds(coord),
        ensures
            final(self).wf(),
            final(self).spec_nrows() == old(self).spec_nrows(),
            final(self).spec_ncols() == old(self).spec_ncols(),
            final(self).at(coord) == val,
            forall|row: int, col: int|
                old(self).contains(row, col) && !(row == coord.row && col == coord.col)
                    ==> #[trigger] final(self).cell(row, col) == old(self).cell(row, col),
    {
        let offset = self.offset(coord);
        let ghost before = *self;
        self.storage.set(offset, val);
        proof {
            assert forall|row: int, col: int|
                before.contains(row, col) && !(row == coord.row && col == coord.col)
                implies #[trigger] self.cell(row, col) == before.cell(row, col) by {
                lemma_offset_in_range(row, col, self.nrows as int, self.ncols as int);
                if row * self.ncols + col == offset {
                    lemma_offset_injective(
                        row,
                        col,
                        coord.row as int,
                        coord.col as int,
                        self.ncols as int,
                    );
                }
            }
        }
    }

    pub fn nrows(&self) -> (n: usize)
        ensures
            n == self.spec_nrows(),
    {
        self.nrows
    }

    pub fn ncols(&self) -> (n: usize)
        ensures
            n == self.spec_ncols(),
    {
        self.ncols
    }
}

impl<T: Copy> Grid<T> {
    /// A grid of the given shape with `default` in every cell.
    pub fn new(nrows: usize, ncols: usize, default: T) -> (g: Grid<T>)
        requires
            nrows * ncols <= usize::MAX,
        ensures
            g.wf(),
            g.spec_nrows() == nrows,
            g.spec_ncols() == ncols,
            forall|row: int, col: int| g.contains(row, col) ==> #[trigger] g.cell(row, col) == default,
    {
        let total = nrows * ncols;
        let mut storage: Vec<T> = Vec::new();
        let mut i: usize = 0;
        while i < total
            invariant
                i <= total,
                storage@.len() == i,
                forall|k: int| 0 <= k < i ==> storage@[k] == default,
            decreases total - i,
        {
            storage.push(default);
            i += 1;
        }
        let g = Grid { nrows, ncols, storage };
        proof {
            assert forall|row: int, col: int| g.contains(row, col) implies #[trigger] g.cell(
                row,
                col,
            ) == default by {
                lemma_offset_in_range(row, col, nrows as int, ncols as int);
            }
        }
        g
    }

    /// The grid whose rows are the given vectors, which must be one or more
    /// and all of one length.
    pub fn from(rows: Vec<Vec<T>>) -> (g: Grid<T>)
        requires
            rows@.len() > 0,
            forall|i: int| 0 <= i < rows@.len() ==> (#[trigger] rows@[i])@.len() == rows@[0]@.len(),
        ensures
            g.wf(),
            g.spec_nrows() == rows@.len(),
            g.spec_ncols() == rows@[0]@.len(),
            rows@.len() * rows@[0]@.len() <= usize::MAX,
            forall|row: int, col: int|
                g.contains(row, col) ==> #[trigger] g.cell(row, col) == rows@[row]@[col],
    {
        let nrows = rows.len();
        let ncols = rows[0].len();
        let mut storage: Vec<T> = Vec::new();
        let mut r: usize = 0;
        while r < nrows
            invariant
                r <= nrows,
                nrows == rows@.len(),
                ncols == rows@[0]@.len(),
                forall|i: int| 0 <= i < rows@.len() ==> (#[trigger] rows@[i])@.len() == ncols,
                storage@.len() == r * ncols,
                forall|row: int, col: int|
                    0 <= row < r && 0 <= col < ncols ==> #[trigger] storage@[row * ncols + col]
                        == rows@[row]@[col],
            decreases nrows - r,
        {
            let mut c: usize = 0;
            while c < ncols
                invariant
                    r < nrows,
                    c <= ncols,
                    nrows == rows@.len(),
                    rows@[r as int]@.len() == ncols,
                    storage@.len() == r * ncols + c,
                    forall|row: int, col: int|
                        0 <= row < r && 0 <= col < ncols ==> #[trigger] storage@[row * ncols + col]
                            == rows@[row]@[col],
                    forall|col: int|
                        0 <= col < c ==> #[trigger] storage@[r * ncols + col] == rows@[r as int]@[col],
                decreases ncols - c,
            {
                let ghost before = storage@;
                storage.push(rows[r][c]);
                proof {
                    assert forall|row: int, col: int| 0 <= row < r && 0 <= col < ncols implies
                        #[trigger] storage@[row * ncols + col] == rows@[row]@[col] by {
                        lemma_offset_in_range(row, col, r as int, ncols as int);
                        assert(storage@[row * ncols + col] == before[row * ncols + col]);
                    }
                }
                c += 1;
            }
            proof {
                assert((r + 1) * ncols == r * ncols + ncols) by (nonlinear_arith);
                assert forall|row: int, col: int| 0 <= row < r + 1 && 0 <= col < ncols implies
                    #[trigger] storage@[row * ncols + col] == rows@[row]@[col] by {
                    if row == r {
                        assert(storage@[r * ncols + col] == rows@[r as int]@[col]);
                    }
                }
            }
            r += 1;
        }
        let total = storage.len();
        assert(total == nrows * ncols);
        let g = Grid { nrows, ncols, storage };
        proof {
            assert forall|row: int, col: int| g.contains(row, col) implies #[trigger] g.cell(
                row,
                col,
            ) == rows@[row]@[col] by {
                assert(storage@[row * ncols + col] == rows@[row]@[col]);
            }
        }
        g
    }

    /// The content of the cell at `coord`, or nothing where `coord` lies
    /// outside the grid.
    pub fn get(&self, coord: Coord) -> (r: Option<T>)
        requires
            self.wf(),
        ensures
            r == if self.in_bounds(coord) {
                Some(self.at(coord))
            } else {
                None
            },
    {
        if self.is_coord_in_bounds(coord) {
            Some(self.get_unchecked(coord))
        } else {
            None
        }
    }

    /// The content of the cell at `coord`, which must lie inside the grid.
    pub fn get_unchecked(&self, coord: Coord) -> (r: T)
        requires
            self.wf(),
            self.in_bounds(coord),
        ensures
            r == self.at(coord),
    {
        let offset = self.offset(coord);
        self.storage[offset]
    }

    /// An independent copy with the same shape and contents.
    pub fn duplicate(&self) -> (g: Grid<T>)
        ensures
            g.wf() == self.wf(),
            g.spec_nrows() == self.spec_nrows(),
            g.spec_ncols() == self.spec_ncols(),
            g@ == self@,
            forall|row: int, col: int| #[trigger] g.cell(row, col) == self.cell(row, col),
    {
        let mut storage: Vec<T> = Vec::new();
        let mut i: usize = 0;
        while i < self.storage.len()
            invariant
                i <= self.storage@.len(),
                storage@.len() == i,
                forall|k: int| 0 <= k < i ==> storage@[k] == self.storage@[k],
            decreases self.storage@.len() - i,
        {
            storage.push(self.storage[i]);
            i += 1;
        }
        assert(storage@ =~= self.storage@);
        let g = Grid { nrows: self.nrows, ncols: self.ncols, storage };
        assert(g@ =~~= self@);
        g
    }
}

} // verus!

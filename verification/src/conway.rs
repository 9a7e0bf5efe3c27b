//! Conway's Game of Life on a generic, fixed-size, row-major grid.
//!
//! `Grid<T>` stores `rows * cols` elements in a flat vector, indexed by
//! `row * cols + col`. `GridIterator` walks the up-to-8 in-bounds neighbours
//! of a centre cell in a fixed offset order. `GameOfLife` owns a `Grid<Cell>`
//! and advances it one whole generation at a time.

use vstd::prelude::*;

verus! {

/// The state of one cell: `Dead` by default, or `Alive`.
#[derive(Copy, PartialEq, Eq, Structural, Debug)]
pub enum Cell {
    Dead,
    Alive,
}

impl Clone for Cell {
    fn clone(&self) -> (r: Self)
        ensures
            r == *self,
    {
        *self
    }
}

impl Default for Cell {
    fn default() -> (r: Self)
        ensures
            r == Cell::Dead,
    {
        Cell::Dead
    }
}

/// A fixed-size two-dimensional container, stored row-major in a flat vector.
#[derive(Clone, PartialEq, Eq)]
pub struct Grid<T> {
    rows: usize,
    cols: usize,
    grid: Vec<T>,
}

impl<T> Grid<T> {
    /// The number of rows.
    pub closed spec fn spec_rows(self) -> int {
        self.rows as int
    }

    /// The number of columns.
    pub closed spec fn spec_cols(self) -> int {
        self.cols as int
    }

    /// The flat row-major contents.
    pub closed spec fn cells(self) -> Seq<T> {
        self.grid@
    }

    /// The storage always holds exactly `rows * cols` elements.
    pub open spec fn wf(self) -> bool {
        self.cells().len() == self.spec_rows() * self.spec_cols()
    }

    /// Whether `(r, c)` lies inside the grid.
    pub open spec fn in_bounds(self, r: int, c: int) -> bool {
        0 <= r < self.spec_rows() && 0 <= c < self.spec_cols()
    }

    /// The element stored at `(r, c)`.
    pub open spec fn cell_at(self, r: int, c: int) -> T {
        self.cells()[r * self.spec_cols() + c]
    }
}

/// The fixed offset table the neighbour traversal walks: the 8 cells around
/// a centre, row by row, left to right.
pub open spec fn offset_delta(i: int) -> (int, int) {
    if i == 0 {
        (-1, -1)
    } else if i == 1 {
        (-1, 0)
    } else if i == 2 {
        (-1, 1)
    } else if i == 3 {
        (0, -1)
    } else if i == 4 {
        (0, 1)
    } else if i == 5 {
        (1, -1)
    } else if i == 6 {
        (1, 0)
    } else {
        (1, 1)
    }
}

/// Whether offset `i` applied to centre `(r, c)` lands inside an
/// `rows` by `cols` grid.
pub open spec fn nbr_valid(rows: int, cols: int, r: int, c: int, i: int) -> bool {
    let (dr, dc) = offset_delta(i);
    0 <= r + dr < rows && 0 <= c + dc < cols
}

/// The coordinate reached from centre `(r, c)` by offset `i`.
pub open spec fn nbr_entry(r: int, c: int, i: int) -> (usize, usize) {
    let (dr, dc) = offset_delta(i);
    (((r + dr) as usize), ((c + dc) as usize))
}

/// The in-bounds neighbours of `(r, c)` reached by offsets `i` and later, in
/// table order. Offsets that fall outside the grid are skipped.
pub open spec fn nbr_seq_from(rows: int, cols: int, r: int, c: int, i: int) -> Seq<(usize, usize)>
    decreases 8 - i,
{
    if i < 0 || i >= 8 {
        Seq::empty()
    } else {
        let rest = nbr_seq_from(rows, cols, r, c, i + 1);
        if nbr_valid(rows, cols, r, c, i) {
            seq![nbr_entry(r, c, i)] + rest
        } else {
            rest
        }
    }
}

/// A row-major index stays inside the storage of an `rows * cols` grid.
proof fn lemma_row_major_bounds(rows: int, cols: int, r: int, c: int)
    requires
        0 <= r < rows,
        0 <= c < cols,
    ensures
        0 <= r * cols + c < rows * cols,
{
    assert(r * cols + c < rows * cols) by (nonlinear_arith)
        requires
            0 <= r < rows,
            0 <= c < cols,
    {
    }
    assert(r * cols + c >= 0) by (nonlinear_arith)
        requires
            r >= 0,
            c >= 0,
            cols > 0,
    {
    }
}

impl<T: Clone + Default> Grid<T> {
    /// A `rows` by `cols` grid with every cell set to `T`'s default value.
    pub fn new(rows: usize, cols: usize) -> (g: Self)
        requires
            rows * cols <= usize::MAX,
        ensures
            g.wf(),
            g.spec_rows() == rows,
            g.spec_cols() == cols,
            forall|k: int|
                0 <= k < g.cells().len() ==> call_ensures(T::default, (), #[trigger] g.cells()[k]),
    {
        let size = rows * cols;
        let mut cells: Vec<T> = Vec::new();
        while cells.len() < size
            invariant
                cells@.len() <= size,
                forall|k: int|
                    0 <= k < cells@.len() ==> call_ensures(T::default, (), #[trigger] cells@[k]),
            decreases size - cells.len(),
        {
            cells.push(T::default());
        }
        Grid { rows, cols, grid: cells }
    }

    /// A grid built from existing row-major data, which must hold exactly
    /// `rows * cols` elements.
    pub fn from_slice(data: &[T], rows: usize, cols: usize) -> (g: Self)
        requires
            data@.len() == rows * cols,
        ensures
            g.wf(),
            g.spec_rows() == rows,
            g.spec_cols() == cols,
            forall|k: int|
                0 <= k < g.cells().len() ==> cloned::<T>(data@[k], #[trigger] g.cells()[k]),
    {
        let mut cells: Vec<T> = Vec::new();
        cells.extend_from_slice(data);
        Grid { rows, cols, grid: cells }
    }

    /// The dimensions, as `(rows, cols)`.
    pub fn size(&self) -> (r: (usize, usize))
        ensures
            r.0 == self.spec_rows(),
            r.1 == self.spec_cols(),
    {
        (self.rows, self.cols)
    }

    /// A reference to the element at `(row, col)`; the coordinate must be in
    /// bounds.
    pub fn get(&self, row: usize, col: usize) -> (r: &T)
        requires
            self.wf(),
            self.in_bounds(row as int, col as int),
        ensures
            *r == self.cell_at(row as int, col as int),
    {
        proof {
            lemma_row_major_bounds(self.spec_rows(), self.spec_cols(), row as int, col as int);
            assert(self.grid.len() <= usize::MAX);
        }
        let index = row * self.cols + col;
        &self.grid[index]
    }

    /// Overwrites the element at `(row, col)` in place; the coordinate must
    /// be in bounds.
    pub fn set(&mut self, value: T, row: usize, col: usize)
        requires
            old(self).wf(),
            old(self).in_bounds(row as int, col as int),
        ensures
            final(self).wf(),
            final(self).spec_rows() == old(self).spec_rows(),
            final(self).spec_cols() == old(self).spec_cols(),
            final(self).cells() == old(self).cells().update(
                row * old(self).spec_cols() + col,
                value,
            ),
    {
        proof {
            lemma_row_major_bounds(self.spec_rows(), self.spec_cols(), row as int, col as int);
            assert(self.grid.len() <= usize::MAX);
        }
        let index = row * self.cols + col;
        self.grid[index] = value;
    }

    /// A fresh traversal of the in-bounds 8-connected neighbours of
    /// `(row, col)`, which must itself be in bounds.
    pub fn neighbours<'a>(&'a self, row: usize, col: usize) -> (it: GridIterator<'a, T>)
        requires
            self.wf(),
            self.in_bounds(row as int, col as int),
        ensures
            it.wf(),
            it.grid_of() == *self,
            it.centre_row() == row,
            it.centre_col() == col,
            it.pos() == 0,
    {
        GridIterator { grid: self, row, col, offset_index: 0 }
    }
}

/// A lazy traversal of the in-bounds 8-connected neighbours of a centre
/// cell. It borrows the grid for its bounds only and yields each neighbour
/// coordinate once, in the fixed offset-table order.
pub struct GridIterator<'a, T> {
    grid: &'a Grid<T>,
    row: usize,
    col: usize,
    offset_index: usize,
}

impl<'a, T> GridIterator<'a, T> {
    /// The grid whose bounds the traversal respects.
    pub closed spec fn grid_of(self) -> Grid<T> {
        *self.grid
    }

    /// The centre's row.
    pub closed spec fn centre_row(self) -> int {
        self.row as int
    }

    /// The centre's column.
    pub closed spec fn centre_col(self) -> int {
        self.col as int
    }

    /// The position in the offset table that the traversal has reached.
    pub closed spec fn pos(self) -> int {
        self.offset_index as int
    }

    /// The traversal sits at a table position at most 8, around an in-bounds
    /// centre.
    pub open spec fn wf(self) -> bool {
        0 <= self.pos() <= 8 && self.grid_of().in_bounds(self.centre_row(), self.centre_col())
    }

    /// The neighbour coordinates still to be yielded.
    pub open spec fn yields(self) -> Seq<(usize, usize)> {
        nbr_seq_from(
            self.grid_of().spec_rows(),
            self.grid_of().spec_cols(),
            self.centre_row(),
            self.centre_col(),
            self.pos(),
        )
    }

    /// The next in-bounds neighbour coordinate, or `None` once the offset
    /// table is exhausted.
    pub fn next(&mut self) -> (r: Option<(usize, usize)>)
        requires
            old(self).wf(),
        ensures
            final(self).wf(),
            final(self).grid_of() == old(self).grid_of(),
            final(self).centre_row() == old(self).centre_row(),
            final(self).centre_col() == old(self).centre_col(),
            match r {
                Some(p) => {
                    &&& old(self).yields().len() > 0
                    &&& p == old(self).yields()[0]
                    &&& final(self).yields() == old(self).yields().drop_first()
                    &&& final(self).pos() > old(self).pos()
                    &&& old(self).grid_of().in_bounds(p.0 as int, p.1 as int)
                },
                None => {
                    &&& old(self).yields().len() == 0
                    &&& final(self).yields().len() == 0
                    &&& final(self).pos() == 8
                },
            },
    {
        while self.offset_index < 8
            invariant
                self.wf(),
                self.grid == old(self).grid,
                self.row == old(self).row,
                self.col == old(self).col,
                self.pos() >= old(self).pos(),
                self.yields() == old(self).yields(),
            decreases 8 - self.offset_index,
        {
            let i = self.offset_index;
            self.offset_index = i + 1;
            let row = self.row;
            let col = self.col;
            let rows = self.grid.rows;
            let cols = self.grid.cols;
            let cand: Option<(usize, usize)> = match i {
                0 => if row >= 1 && col >= 1 {
                    Some((row - 1, col - 1))
                } else {
                    None
                },
                1 => if row >= 1 {
                    Some((row - 1, col))
                } else {
                    None
                },
                2 => if row >= 1 && col + 1 < cols {
                    Some((row - 1, col + 1))
                } else {
                    None
                },
                3 => if col >= 1 {
                    Some((row, col - 1))
                } else {
                    None
                },
                4 => if col + 1 < cols {
                    Some((row, col + 1))
                } else {
                    None
                },
                5 => if row + 1 < rows && col >= 1 {
                    Some((row + 1, col - 1))
                } else {
                    None
                },
                6 => if row + 1 < rows {
                    Some((row + 1, col))
                } else {
                    None
                },
                _ => if row + 1 < rows && col + 1 < cols {
                    Some((row + 1, col + 1))
                } else {
                    None
                },
            };
            proof {
                let full = nbr_seq_from(rows as int, cols as int, row as int, col as int, i as int);
                let rest = nbr_seq_from(
                    rows as int,
                    cols as int,
                    row as int,
                    col as int,
                    i as int + 1,
                );
                match cand {
                    Some(p) => {
                        assert(nbr_valid(rows as int, cols as int, row as int, col as int, i as int));
                        assert(full == seq![nbr_entry(row as int, col as int, i as int)] + rest);
                        assert(full[0] == p);
                        assert(full.drop_first() =~= rest);
                    },
                    None => {
                        assert(!nbr_valid(rows as int, cols as int, row as int, col as int, i as int));
                        assert(full == rest);
                    },
                }
            }
            if let Some(p) = cand {
                return Some(p);
            }
        }
        None
    }
}

/// How many of the listed coordinates hold an `Alive` cell, in a flat
/// row-major storage with `cols` columns.
pub open spec fn count_alive(cells: Seq<Cell>, cols: int, coords: Seq<(usize, usize)>) -> nat
    decreases coords.len(),
{
    if coords.len() == 0 {
        0
    } else {
        (if cells[coords[0].0 * cols + coords[0].1] == Cell::Alive {
            1nat
        } else {
            0nat
        }) + count_alive(cells, cols, coords.drop_first())
    }
}

/// The number of live cells among the in-bounds 8-connected neighbours of
/// `(r, c)`.
pub open spec fn live_neighbours(rows: int, cols: int, cells: Seq<Cell>, r: int, c: int) -> nat {
    count_alive(cells, cols, nbr_seq_from(rows, cols, r, c, 0))
}

/// The transition rule: a live cell with 2 or 3 live neighbours stays alive,
/// a dead cell with exactly 3 live neighbours is born, every other cell is
/// dead in the next generation.
pub open spec fn next_cell(cur: Cell, live: nat) -> Cell {
    if (cur == Cell::Alive && (live == 2 || live == 3)) || (cur == Cell::Dead && live == 3) {
        Cell::Alive
    } else {
        Cell::Dead
    }
}

/// One whole generation: the rule applied to every cell of the flat
/// row-major contents, all counts taken over the pre-step generation.
pub open spec fn step_cells(rows: int, cols: int, cells: Seq<Cell>) -> Seq<Cell> {
    Seq::new(
        (rows * cols) as nat,
        |k: int| next_cell(cells[k], live_neighbours(rows, cols, cells, k / cols, k % cols)),
    )
}

/// A Game of Life automaton: one owned grid of cells, advanced a whole
/// generation at a time.
#[derive(PartialEq, Eq)]
pub struct GameOfLife {
    grid: Grid<Cell>,
}

impl GameOfLife {
    /// The current generation.
    pub closed spec fn grid_spec(self) -> Grid<Cell> {
        self.grid
    }

    /// The owned grid keeps its storage invariant.
    pub open spec fn wf(self) -> bool {
        self.grid_spec().wf()
    }

    /// Takes ownership of `grid` as generation zero.
    pub fn from_grid(grid: Grid<Cell>) -> (g: Self)
        ensures
            g.grid_spec() == grid,
    {
        GameOfLife { grid }
    }

    /// A read-only view of the current generation.
    pub fn get_grid(&self) -> (r: &Grid<Cell>)
        ensures
            *r == self.grid_spec(),
    {
        &self.grid
    }

    /// Advances the automaton by one generation. Every cell of the new
    /// generation is the rule applied to the old cell and its live-neighbour
    /// count in the old generation; the grid is replaced in one piece.
    pub fn step(&mut self)
        requires
            old(self).wf(),
        ensures
            final(self).wf(),
            final(self).grid_spec().spec_rows() == old(self).grid_spec().spec_rows(),
            final(self).grid_spec().spec_cols() == old(self).grid_spec().spec_cols(),
            final(self).grid_spec().cells() == step_cells(
                old(self).grid_spec().spec_rows(),
                old(self).grid_spec().spec_cols(),
                old(self).grid_spec().cells(),
            ),
    {
        let (rows, cols) = self.grid.size();
        let ghost g0 = self.grid;
        let ghost newcells = step_cells(rows as int, cols as int, g0.cells());
        proof {
            assert(self.grid.grid.len() <= usize::MAX);
        }
        let mut next_states: Vec<Cell> = Vec::new();
        let mut row: usize = 0;
        while row < rows
            invariant
                self.grid == g0,
                g0.wf(),
                rows == g0.spec_rows(),
                cols == g0.spec_cols(),
                rows * cols <= usize::MAX,
                row <= rows,
                next_states@.len() == row * cols,
                forall|k: int| 0 <= k < next_states@.len() ==> next_states@[k] == newcells[k],
                newcells == step_cells(rows as int, cols as int, g0.cells()),
            decreases rows - row,
        {
            let mut col: usize = 0;
            proof {
                assert(row * cols + cols <= rows * cols) by (nonlinear_arith)
                    requires
                        row < rows,
                        0 <= cols,
                {
                }
            }
            while col < cols
                invariant
                    self.grid == g0,
                    g0.wf(),
                    rows == g0.spec_rows(),
                    cols == g0.spec_cols(),
                    rows * cols <= usize::MAX,
                    row < rows,
                    col <= cols,
                    row * cols + cols <= rows * cols,
                    next_states@.len() == row * cols + col,
                    forall|k: int| 0 <= k < next_states@.len() ==> next_states@[k] == newcells[k],
                    newcells == step_cells(rows as int, cols as int, g0.cells()),
                decreases cols - col,
            {
                let cell_state = *self.grid.get(row, col);
                let live_neighbor_count = self.count_live(row, col);
                let next_state = match (cell_state, live_neighbor_count) {
                    (Cell::Alive, 2) | (Cell::Alive, 3) | (Cell::Dead, 3) => Cell::Alive,
                    _ => Cell::Dead,
                };
                proof {
                    let k = row * cols + col;
                    lemma_row_major_bounds(rows as int, cols as int, row as int, col as int);
                    vstd::arithmetic::div_mod::lemma_fundamental_div_mod_converse(
                        k as int,
                        cols as int,
                        row as int,
                        col as int,
                    );
                    assert(newcells[k as int] == next_state);
                }
                next_states.push(next_state);
                col = col + 1;
            }
            proof {
                assert((row + 1) * cols == row * cols + cols) by (nonlinear_arith) {}
            }
            row = row + 1;
        }
        proof {
            assert(next_states@ =~= newcells);
        }
        self.grid = Grid { rows, cols, grid: next_states };
    }

    /// Counts the live cells among the in-bounds neighbours of `(row, col)`.
    fn count_live(&self, row: usize, col: usize) -> (n: usize)
        requires
            self.wf(),
            self.grid_spec().in_bounds(row as int, col as int),
        ensures
            n == live_neighbours(
                self.grid_spec().spec_rows(),
                self.grid_spec().spec_cols(),
                self.grid_spec().cells(),
                row as int,
                col as int,
            ),
    {
        let ghost full = nbr_seq_from(
            self.grid_spec().spec_rows(),
            self.grid_spec().spec_cols(),
            row as int,
            col as int,
            0,
        );
        let mut it = self.grid.neighbours(row, col);
        let mut count: usize = 0;
        proof {
            lemma_count_alive_le_len(self.grid_spec().cells(), self.grid_spec().spec_cols(), full);
            lemma_nbr_seq_len(
                self.grid_spec().spec_rows(),
                self.grid_spec().spec_cols(),
                row as int,
                col as int,
                0,
            );
        }
        loop
            invariant
                self.wf(),
                it.wf(),
                it.grid_of() == self.grid_spec(),
                it.centre_row() == row,
                it.centre_col() == col,
                count + count_alive(self.grid_spec().cells(), self.grid_spec().spec_cols(), it.yields())
                    == count_alive(self.grid_spec().cells(), self.grid_spec().spec_cols(), full),
                count_alive(self.grid_spec().cells(), self.grid_spec().spec_cols(), full) <= 8,
            ensures
                count == count_alive(self.grid_spec().cells(), self.grid_spec().spec_cols(), full),
            decreases 8 - it.pos(),
        {
            match it.next() {
                None => {
                    break;
                },
                Some((r, c)) => {
                    if *self.grid.get(r, c) == Cell::Alive {
                        count = count + 1;
                    }
                },
            }
        }
        count
    }
}

/// A count of live cells never exceeds the number of coordinates counted.
proof fn lemma_count_alive_le_len(cells: Seq<Cell>, cols: int, coords: Seq<(usize, usize)>)
    ensures
        count_alive(cells, cols, coords) <= coords.len(),
    decreases coords.len(),
{
    if coords.len() > 0 {
        lemma_count_alive_le_len(cells, cols, coords.drop_first());
    }
}

/// The neighbour sequence from position `i` holds at most `8 - i` entries.
proof fn lemma_nbr_seq_len(rows: int, cols: int, r: int, c: int, i: int)
    requires
        0 <= i <= 8,
    ensures
        nbr_seq_from(rows, cols, r, c, i).len() <= 8 - i,
    decreases 8 - i,
{
    if i < 8 {
        lemma_nbr_seq_len(rows, cols, r, c, i + 1);
    }
}

/// Whether `(nr, nc)` is one of the 8 cells surrounding `(r, c)`.
pub open spec fn adjacent(r: int, c: int, nr: int, nc: int) -> bool {
    &&& -1 <= nr - r <= 1
    &&& -1 <= nc - c <= 1
    &&& !(nr == r && nc == c)
}

/// Whether `p` is the coordinate of some valid offset at position `i` or
/// later of the table.
spec fn is_nbr_entry_from(rows: int, cols: int, r: int, c: int, i: int, p: (usize, usize)) -> bool {
    exists|j: int| i <= j < 8 && nbr_valid(rows, cols, r, c, j) && p == nbr_entry(r, c, j)
}

/// Every element of the neighbour sequence from position `i` is the entry of
/// some valid offset at position `i` or later.
proof fn lemma_nbr_elems(rows: int, cols: int, r: int, c: int, i: int)
    requires
        0 <= i,
    ensures
        forall|k: int|
            0 <= k < nbr_seq_from(rows, cols, r, c, i).len() ==> is_nbr_entry_from(
                rows,
                cols,
                r,
                c,
                i,
                #[trigger] nbr_seq_from(rows, cols, r, c, i)[k],
            ),
    decreases 8 - i,
{
    if i < 8 {
        lemma_nbr_elems(rows, cols, r, c, i + 1);
        let s = nbr_seq_from(rows, cols, r, c, i);
        let rest = nbr_seq_from(rows, cols, r, c, i + 1);
        assert forall|k: int| 0 <= k < s.len() implies is_nbr_entry_from(
            rows,
            cols,
            r,
            c,
            i,
            #[trigger] s[k],
        ) by {
            if nbr_valid(rows, cols, r, c, i) && k == 0 {
                let j = i;
                assert(i <= j < 8 && nbr_valid(rows, cols, r, c, j) && s[k] == nbr_entry(r, c, j));
            } else {
                let k2 = if nbr_valid(rows, cols, r, c, i) {
                    k - 1
                } else {
                    k
                };
                assert(s[k] == rest[k2]);
                assert(is_nbr_entry_from(rows, cols, r, c, i + 1, rest[k2]));
                let j = choose|j: int|
                    i + 1 <= j < 8 && nbr_valid(rows, cols, r, c, j) && rest[k2] == nbr_entry(
                        r,
                        c,
                        j,
                    );
                assert(i <= j < 8 && nbr_valid(rows, cols, r, c, j) && s[k] == nbr_entry(r, c, j));
            }
        }
    }
}

/// Every coordinate the traversal yields lies inside the grid and is
/// 8-connected to the centre.
proof fn lemma_nbr_in_bounds(rows: int, cols: int, r: int, c: int)
    requires
        0 <= r < rows <= usize::MAX,
        0 <= c < cols <= usize::MAX,
    ensures
        forall|k: int|
            0 <= k < nbr_seq_from(rows, cols, r, c, 0).len() ==> {
                let p = #[trigger] nbr_seq_from(rows, cols, r, c, 0)[k];
                p.0 < rows && p.1 < cols && adjacent(r, c, p.0 as int, p.1 as int)
            },
{
    lemma_nbr_elems(rows, cols, r, c, 0);
    let s = nbr_seq_from(rows, cols, r, c, 0);
    assert forall|k: int| 0 <= k < s.len() implies {
        let p = #[trigger] s[k];
        p.0 < rows && p.1 < cols && adjacent(r, c, p.0 as int, p.1 as int)
    } by {
        assert(is_nbr_entry_from(rows, cols, r, c, 0, s[k]));
        let j0 = choose|j: int|
            0 <= j < 8 && nbr_valid(rows, cols, r, c, j) && s[k] == nbr_entry(r, c, j);
        assert(s[k] == nbr_entry(r, c, j0));
    }
}

/// The neighbour sequence from position `i` holds the entry of every valid
/// offset at position `j >= i`.
proof fn lemma_nbr_contains(rows: int, cols: int, r: int, c: int, i: int, j: int)
    requires
        0 <= i <= j < 8,
        nbr_valid(rows, cols, r, c, j),
    ensures
        nbr_seq_from(rows, cols, r, c, i).contains(nbr_entry(r, c, j)),
    decreases j - i,
{
    let s = nbr_seq_from(rows, cols, r, c, i);
    let rest = nbr_seq_from(rows, cols, r, c, i + 1);
    if i == j {
        assert(s[0] == nbr_entry(r, c, j));
    } else {
        lemma_nbr_contains(rows, cols, r, c, i + 1, j);
        let k0 = choose|k: int| 0 <= k < rest.len() && rest[k] == nbr_entry(r, c, j);
        if nbr_valid(rows, cols, r, c, i) {
            assert(s[k0 + 1] == nbr_entry(r, c, j));
        } else {
            assert(s[k0] == nbr_entry(r, c, j));
        }
    }
}

/// Distinct valid offsets reach distinct coordinates.
proof fn lemma_nbr_entry_distinct(rows: int, cols: int, r: int, c: int, i: int, j: int)
    requires
        0 <= r < rows <= usize::MAX,
        0 <= c < cols <= usize::MAX,
        0 <= i < 8,
        0 <= j < 8,
        i != j,
        nbr_valid(rows, cols, r, c, i),
        nbr_valid(rows, cols, r, c, j),
    ensures
        nbr_entry(r, c, i) != nbr_entry(r, c, j),
{
    let (dri, dci) = offset_delta(i);
    let (drj, dcj) = offset_delta(j);
    assert((r + dri) as usize as int == r + dri);
    assert((c + dci) as usize as int == c + dci);
    assert((r + drj) as usize as int == r + drj);
    assert((c + dcj) as usize as int == c + dcj);
}

/// The neighbour sequence never repeats a coordinate.
proof fn lemma_nbr_nodup(rows: int, cols: int, r: int, c: int, i: int)
    requires
        0 <= r < rows <= usize::MAX,
        0 <= c < cols <= usize::MAX,
        0 <= i,
    ensures
        nbr_seq_from(rows, cols, r, c, i).no_duplicates(),
    decreases 8 - i,
{
    if i < 8 {
        lemma_nbr_nodup(rows, cols, r, c, i + 1);
        lemma_nbr_elems(rows, cols, r, c, i + 1);
        let s = nbr_seq_from(rows, cols, r, c, i);
        let rest = nbr_seq_from(rows, cols, r, c, i + 1);
        if nbr_valid(rows, cols, r, c, i) {
            assert forall|k1: int, k2: int|
                0 <= k1 < s.len() && 0 <= k2 < s.len() && k1 != k2 implies s[k1] != s[k2] by {
                if k1 != 0 && k2 != 0 {
                    assert(s[k1] == rest[k1 - 1] && s[k2] == rest[k2 - 1]);
                } else {
                    let kr = if k1 == 0 {
                        k2 - 1
                    } else {
                        k1 - 1
                    };
                    assert(s[0] == nbr_entry(r, c, i));
                    assert(s[kr + 1] == rest[kr]);
                    assert(is_nbr_entry_from(rows, cols, r, c, i + 1, rest[kr]));
                    let j0 = choose|j: int|
                        i + 1 <= j < 8 && nbr_valid(rows, cols, r, c, j) && rest[kr] == nbr_entry(
                            r,
                            c,
                            j,
                        );
                    lemma_nbr_entry_distinct(rows, cols, r, c, i, j0);
                }
            }
        }
    }
}

/// For every in-bounds centre, the neighbour traversal yields exactly the
/// 8-connected coordinates that fall inside the grid — no duplicate, nothing
/// out of range, and nothing missing.
pub proof fn lemma_neighbours_exact(rows: int, cols: int, r: int, c: int)
    requires
        0 <= r < rows <= usize::MAX,
        0 <= c < cols <= usize::MAX,
    ensures
        forall|k: int|
            0 <= k < nbr_seq_from(rows, cols, r, c, 0).len() ==> {
                let p = #[trigger] nbr_seq_from(rows, cols, r, c, 0)[k];
                p.0 < rows && p.1 < cols && adjacent(r, c, p.0 as int, p.1 as int)
            },
        forall|nr: int, nc: int|
            0 <= nr < rows && 0 <= nc < cols && adjacent(r, c, nr, nc) ==> nbr_seq_from(
                rows,
                cols,
                r,
                c,
                0,
            ).contains(((nr as usize, nc as usize))),
        nbr_seq_from(rows, cols, r, c, 0).no_duplicates(),
{
    lemma_nbr_in_bounds(rows, cols, r, c);
    lemma_nbr_nodup(rows, cols, r, c, 0);
    assert forall|nr: int, nc: int|
        0 <= nr < rows && 0 <= nc < cols && adjacent(r, c, nr, nc) implies nbr_seq_from(
        rows,
        cols,
        r,
        c,
        0,
    ).contains(((nr as usize, nc as usize))) by {
        let dr = nr - r;
        let dc = nc - c;
        let j: int = if dr == -1 && dc == -1 {
            0
        } else if dr == -1 && dc == 0 {
            1
        } else if dr == -1 && dc == 1 {
            2
        } else if dr == 0 && dc == -1 {
            3
        } else if dr == 0 && dc == 1 {
            4
        } else if dr == 1 && dc == -1 {
            5
        } else if dr == 1 && dc == 0 {
            6
        } else {
            7
        };
        assert(offset_delta(j) == (dr, dc));
        assert(nbr_valid(rows, cols, r, c, j));
        lemma_nbr_contains(rows, cols, r, c, 0, j);
        assert(nbr_entry(r, c, j) == ((nr as usize, nc as usize)));
    }
}

/// One step of the definitional unfolding of the neighbour sequence.
proof fn lemma_nbr_len_unfold(rows: int, cols: int, r: int, c: int, i: int)
    requires
        0 <= i < 8,
    ensures
        nbr_seq_from(rows, cols, r, c, i).len() == (if nbr_valid(rows, cols, r, c, i) {
            1int
        } else {
            0int
        }) + nbr_seq_from(rows, cols, r, c, i + 1).len(),
{
}

/// A corner cell of a grid with at least two rows and two columns has
/// exactly 3 in-bounds neighbours.
pub proof fn lemma_neighbour_count_corner(rows: int, cols: int, r: int, c: int)
    requires
        2 <= rows <= usize::MAX,
        2 <= cols <= usize::MAX,
        r == 0 || r == rows - 1,
        c == 0 || c == cols - 1,
    ensures
        nbr_seq_from(rows, cols, r, c, 0).len() == 3,
{
    lemma_nbr_count_sum(rows, cols, r, c);
}

/// An edge, non-corner cell has exactly 5 in-bounds neighbours.
pub proof fn lemma_neighbour_count_edge(rows: int, cols: int, r: int, c: int)
    requires
        rows <= usize::MAX,
        cols <= usize::MAX,
        0 <= r < rows,
        0 <= c < cols,
        ((r == 0 || r == rows - 1) && 2 <= rows && 1 <= c < cols - 1) || ((c == 0 || c == cols - 1)
            && 2 <= cols && 1 <= r < rows - 1),
    ensures
        nbr_seq_from(rows, cols, r, c, 0).len() == 5,
{
    lemma_nbr_count_sum(rows, cols, r, c);
}

/// An interior cell has exactly 8 in-bounds neighbours.
pub proof fn lemma_neighbour_count_interior(rows: int, cols: int, r: int, c: int)
    requires
        rows <= usize::MAX,
        cols <= usize::MAX,
        1 <= r < rows - 1,
        1 <= c < cols - 1,
    ensures
        nbr_seq_from(rows, cols, r, c, 0).len() == 8,
{
    lemma_nbr_count_sum(rows, cols, r, c);
}

/// The single cell of a 1 by 1 grid has no neighbour at all.
pub proof fn lemma_neighbour_count_single(rows: int, cols: int)
    requires
        rows == 1,
        cols == 1,
    ensures
        nbr_seq_from(rows, cols, 0, 0, 0).len() == 0,
{
    lemma_nbr_count_sum(rows, cols, 0, 0);
}

/// The length of the full neighbour sequence is the number of valid offsets.
proof fn lemma_nbr_count_sum(rows: int, cols: int, r: int, c: int)
    ensures
        nbr_seq_from(rows, cols, r, c, 0).len() == (if nbr_valid(rows, cols, r, c, 0) {
            1int
        } else {
            0int
        }) + (if nbr_valid(rows, cols, r, c, 1) {
            1int
        } else {
            0int
        }) + (if nbr_valid(rows, cols, r, c, 2) {
            1int
        } else {
            0int
        }) + (if nbr_valid(rows, cols, r, c, 3) {
            1int
        } else {
            0int
        }) + (if nbr_valid(rows, cols, r, c, 4) {
            1int
        } else {
            0int
        }) + (if nbr_valid(rows, cols, r, c, 5) {
            1int
        } else {
            0int
        }) + (if nbr_valid(rows, cols, r, c, 6) {
            1int
        } else {
            0int
        }) + (if nbr_valid(rows, cols, r, c, 7) {
            1int
        } else {
            0int
        }),
{
    lemma_nbr_len_unfold(rows, cols, r, c, 0);
    lemma_nbr_len_unfold(rows, cols, r, c, 1);
    lemma_nbr_len_unfold(rows, cols, r, c, 2);
    lemma_nbr_len_unfold(rows, cols, r, c, 3);
    lemma_nbr_len_unfold(rows, cols, r, c, 4);
    lemma_nbr_len_unfold(rows, cols, r, c, 5);
    lemma_nbr_len_unfold(rows, cols, r, c, 6);
    lemma_nbr_len_unfold(rows, cols, r, c, 7);
    assert(nbr_seq_from(rows, cols, r, c, 8).len() == 0);
}

/// Whether every cell of a generation is dead.
pub open spec fn all_dead(cells: Seq<Cell>) -> bool {
    forall|k: int| 0 <= k < cells.len() ==> cells[k] == Cell::Dead
}

/// `n` whole generations applied to the given contents.
pub open spec fn step_cells_n(rows: int, cols: int, cells: Seq<Cell>, n: nat) -> Seq<Cell>
    decreases n,
{
    if n == 0 {
        cells
    } else {
        step_cells(rows, cols, step_cells_n(rows, cols, cells, (n - 1) as nat))
    }
}

/// A flat index of an `rows * cols` storage names an in-bounds coordinate.
proof fn lemma_flat_coords(rows: int, cols: int, k: int)
    requires
        0 < cols,
        0 <= k < rows * cols,
    ensures
        0 <= k / cols < rows,
        0 <= k % cols < cols,
{
    assert(0 <= k / cols < rows && 0 <= k % cols < cols) by (nonlinear_arith)
        requires
            0 < cols,
            0 <= k < rows * cols,
    {
    }
}

/// No live cell is counted over an all-dead generation.
proof fn lemma_count_alive_zero(cells: Seq<Cell>, cols: int, coords: Seq<(usize, usize)>)
    requires
        all_dead(cells),
        forall|k: int|
            0 <= k < coords.len() ==> 0 <= (#[trigger] coords[k]).0 * cols + coords[k].1
                < cells.len(),
    ensures
        count_alive(cells, cols, coords) == 0,
    decreases coords.len(),
{
    if coords.len() > 0 {
        assert(forall|k: int|
            0 <= k < coords.drop_first().len() ==> #[trigger] coords.drop_first()[k] == coords[
                k + 1
            ]);
        lemma_count_alive_zero(cells, cols, coords.drop_first());
    }
}

/// A generation with no live cell steps to a generation with no live cell.
pub proof fn lemma_step_preserves_all_dead(rows: int, cols: int, cells: Seq<Cell>)
    requires
        0 <= rows <= usize::MAX,
        0 <= cols <= usize::MAX,
        cells.len() == rows * cols,
        all_dead(cells),
    ensures
        all_dead(step_cells(rows, cols, cells)),
{
    let stepped = step_cells(rows, cols, cells);
    assert forall|k: int| 0 <= k < stepped.len() implies stepped[k] == Cell::Dead by {
        assert(cols > 0) by (nonlinear_arith)
            requires
                rows * cols > 0,
                rows >= 0,
                cols >= 0,
        {
        }
        lemma_flat_coords(rows, cols, k);
        let r = k / cols;
        let c = k % cols;
        let coords = nbr_seq_from(rows, cols, r, c, 0);
        lemma_nbr_in_bounds(rows, cols, r, c);
        assert forall|k2: int|
            0 <= k2 < coords.len() implies 0 <= (#[trigger] coords[k2]).0 * cols + coords[k2].1
            < cells.len() by {
            lemma_row_major_bounds(rows, cols, coords[k2].0 as int, coords[k2].1 as int);
        }
        lemma_count_alive_zero(cells, cols, coords);
        assert(live_neighbours(rows, cols, cells, r, c) == 0);
    }
}

/// An all-dead generation stays all-dead after any number of steps.
pub proof fn lemma_all_dead_stays_dead(rows: int, cols: int, cells: Seq<Cell>, n: nat)
    requires
        0 <= rows <= usize::MAX,
        0 <= cols <= usize::MAX,
        cells.len() == rows * cols,
        all_dead(cells),
    ensures
        step_cells_n(rows, cols, cells, n).len() == rows * cols,
        all_dead(step_cells_n(rows, cols, cells, n)),
    decreases n,
{
    if n > 0 {
        lemma_all_dead_stays_dead(rows, cols, cells, (n - 1) as nat);
        lemma_step_preserves_all_dead(rows, cols, step_cells_n(rows, cols, cells, (n - 1) as nat));
    }
}

/// Underpopulation: a live cell with fewer than two live neighbours is dead
/// in the next generation.
pub proof fn lemma_underpopulation(rows: int, cols: int, cells: Seq<Cell>, r: int, c: int)
    requires
        cells.len() == rows * cols,
        0 <= r < rows,
        0 <= c < cols,
        cells[r * cols + c] == Cell::Alive,
        live_neighbours(rows, cols, cells, r, c) < 2,
    ensures
        step_cells(rows, cols, cells)[r * cols + c] == Cell::Dead,
{
    lemma_row_major_bounds(rows, cols, r, c);
    vstd::arithmetic::div_mod::lemma_fundamental_div_mod_converse(r * cols + c, cols, r, c);
}

/// The next generation is a function of the grid's contents alone: two
/// automata over content-identical grids step to content-identical
/// generations.
pub proof fn lemma_step_deterministic(a: GameOfLife, b: GameOfLife)
    requires
        a.grid_spec().spec_rows() == b.grid_spec().spec_rows(),
        a.grid_spec().spec_cols() == b.grid_spec().spec_cols(),
        a.grid_spec().cells() == b.grid_spec().cells(),
    ensures
        step_cells(a.grid_spec().spec_rows(), a.grid_spec().spec_cols(), a.grid_spec().cells())
            == step_cells(
            b.grid_spec().spec_rows(),
            b.grid_spec().spec_cols(),
            b.grid_spec().cells(),
        ),
{
}

/// A clone of a cell is that cell, so a cell grid built by
/// `Grid::from_slice` holds exactly the given data.
pub proof fn lemma_cell_cloned(a: Cell, b: Cell)
    requires
        cloned::<Cell>(a, b),
    ensures
        a == b,
{
}

/// Every cell grid that `Grid::new` returns has the requested dimensions and
/// holds only dead cells.
pub proof fn lemma_new_cell_grid_all_dead(g: Grid<Cell>, rows: usize, cols: usize)
    requires
        call_ensures(Grid::<Cell>::new, (rows, cols), g),
    ensures
        g.wf(),
        g.spec_rows() == rows,
        g.spec_cols() == cols,
        all_dead(g.cells()),
{
    assert forall|k: int| 0 <= k < g.cells().len() implies g.cells()[k] == Cell::Dead by {
        assert(call_ensures(Cell::default, (), g.cells()[k]));
    }
}

} // verus!

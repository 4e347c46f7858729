//! The board: a triangular grid of cells, each empty or owned by a player.

use vstd::prelude::*;
use crate::coordinates::{
    cells_in_rows, grid_index, lemma_triangle_step, triangle, Coordinates,
};
use crate::player::PlayerId;

verus! {

/// What a cell of the board holds.
#[derive(Clone, Copy, Debug, PartialEq, Eq, Hash, Structural)]
pub enum Cell {
    Empty,
    Owned(PlayerId),
}

/// Why a board could not be made.
#[derive(Clone, Copy, Debug, PartialEq, Eq, Structural)]
pub enum BoardError {
    /// The side length is zero, or the cells given are not the cells of a
    /// board of that side length.
    InvalidSize,
}

/// The cell of row `row` and column `col` among `cells`, which are in
/// row-major order.
pub open spec fn cell_in(cells: Seq<Cell>, row: int, col: int) -> Cell {
    cells[grid_index(row, col)]
}

/// A board, as a value: its side length and its cells in row-major order.
pub struct BoardView {
    pub size: nat,
    pub cells: Seq<Cell>,
}

impl BoardView {
    /// The board has at least one cell, and exactly one for every valid
    /// coordinate triple.
    pub open spec fn wf(self) -> bool {
        &&& 1 <= self.size
        &&& self.cells.len() == triangle(self.size)
    }

    /// The triple names a cell of the board.
    pub open spec fn contains(self, c: Coordinates) -> bool {
        c.valid(self.size)
    }

    /// What the cell at `c` holds.
    pub open spec fn cell(self, c: Coordinates) -> Cell {
        self.cells[c.index(self.size)]
    }

    /// What the cell of row `row` and column `col` holds.
    pub open spec fn at(self, row: int, col: int) -> Cell {
        cell_in(self.cells, row, col)
    }

    /// The board with the cell at `c` replaced by `cell`.
    pub open spec fn with_cell(self, c: Coordinates, cell: Cell) -> BoardView {
        BoardView { size: self.size, cells: self.cells.update(c.index(self.size), cell) }
    }

    /// The board of side `size` without a stone.
    pub open spec fn empty(size: nat) -> BoardView {
        BoardView { size, cells: Seq::new(triangle(size), |i: int| Cell::Empty) }
    }

    /// Replacing one cell changes that cell and no other.
    pub proof fn lemma_with_cell(self, c: Coordinates, cell: Cell, d: Coordinates)
        requires
            self.wf(),
            self.contains(c),
            self.contains(d),
        ensures
            self.with_cell(c, cell).wf(),
            self.with_cell(c, cell).cell(d) == (if d == c {
                cell
            } else {
                self.cell(d)
            }),
    {
        c.lemma_index_in_range(self.size);
        d.lemma_index_in_range(self.size);
        if d != c && d.index(self.size) == c.index(self.size) {
            d.lemma_index_injective(c, self.size);
        }
    }
}

/// A triangular board of side `size`.
pub struct Board {
    size: u32,
    cells: Vec<Cell>,
}

impl View for Board {
    type V = BoardView;

    closed spec fn view(&self) -> BoardView {
        BoardView { size: self.size as nat, cells: self.cells@ }
    }
}

impl Board {
    /// The board's invariant.
    pub open spec fn wf(&self) -> bool {
        self@.wf()
    }

    /// The board of side `size` with the cells `cells`, given in row-major
    /// order. Fails if `size` is zero or `cells` does not hold exactly
    /// `size * (size + 1) / 2` cells.
    pub fn new(size: u32, cells: Vec<Cell>) -> (r: Result<Board, BoardError>)
        ensures
            r is Ok <==> size >= 1 && cells@.len() == triangle(size as nat),
            r matches Ok(b) ==> b.wf() && b@.size == size && b@.cells == cells@,
            r matches Err(e) ==> e == BoardError::InvalidSize,
    {
        if size == 0 {
            return Err(BoardError::InvalidSize);
        }
        let count: u64 = cells_in_rows(size);
        if cells.len() as u64 != count {
            return Err(BoardError::InvalidSize);
        }
        Ok(Board { size, cells })
    }

    /// The board of side `size` with the cells `cells`, which are as many as
    /// the board has.
    pub(crate) fn from_cells(size: u32, cells: Vec<Cell>) -> (b: Board)
        requires
            size >= 1,
            cells@.len() == triangle(size as nat),
        ensures
            b.wf(),
            b@.size == size,
            b@.cells == cells@,
    {
        Board { size, cells }
    }

    /// The side length.
    pub fn size(&self) -> (n: u32)
        ensures
            n == self@.size,
    {
        self.size
    }

    /// The number of cells.
    pub fn cell_count(&self) -> (n: usize)
        ensures
            n == self@.cells.len(),
    {
        self.cells.len()
    }

    /// Whether `c` names a cell of the board.
    pub fn contains(&self, c: &Coordinates) -> (b: bool)
        ensures
            b == self@.contains(*c),
    {
        c.is_valid(self.size)
    }

    /// What the cell at `c` holds.
    pub fn get(&self, c: &Coordinates) -> (cell: Cell)
        requires
            self.wf(),
            self@.contains(*c),
        ensures
            cell == self@.cell(*c),
    {
        let count: usize = self.cells.len();
        assert(triangle(self.size as nat) == count);
        let i: usize = c.to_index(self.size);
        self.cells[i]
    }

    /// Puts `cell` into the empty cell at `c`.
    pub fn set(&mut self, c: &Coordinates, cell: Cell)
        requires
            old(self).wf(),
            old(self)@.contains(*c),
            old(self)@.cell(*c) == Cell::Empty,
        ensures
            final(self).wf(),
            final(self)@ == old(self)@.with_cell(*c, cell),
    {
        let count: usize = self.cells.len();
        assert(triangle(self.size as nat) == count);
        let i: usize = c.to_index(self.size);
        self.cells.set(i, cell);
    }

    /// What the cell with index `i` of the row-major order holds.
    pub fn cell_at(&self, i: usize) -> (cell: Cell)
        requires
            i < self@.cells.len(),
        ensures
            cell == self@.cells[i as int],
    {
        self.cells[i]
    }

    /// The coordinates of all cells in row-major order: row by row from the
    /// top, and in each row by growing `x`.
    pub fn coordinates(&self) -> (v: Vec<Coordinates>)
        requires
            self.wf(),
        ensures
            v@.len() == self@.cells.len(),
            forall|i: int|
                0 <= i < v@.len() ==> (#[trigger] v@[i]).valid(self@.size) && v@[i].index(
                    self@.size,
                ) == i,
    {
        let size: u32 = self.size;
        let mut v: Vec<Coordinates> = Vec::new();
        let mut row: u32 = 0;
        while row < size
            invariant
                row <= size,
                size == self@.size,
                v@.len() == triangle(row as nat),
                forall|i: int|
                    0 <= i < v@.len() ==> (#[trigger] v@[i]).valid(size as nat) && v@[i].index(
                        size as nat,
                    ) == i,
            decreases size - row,
        {
            let mut col: u32 = 0;
            while col <= row
                invariant
                    row < size,
                    col <= row + 1,
                    v@.len() == triangle(row as nat) + col,
                    forall|i: int|
                        0 <= i < v@.len() ==> (#[trigger] v@[i]).valid(size as nat)
                            && v@[i].index(size as nat) == i,
                decreases row + 1 - col,
            {
                let c: Coordinates = Coordinates::from_row_col(size, row, col);
                v.push(c);
                col = col + 1;
            }
            proof {
                lemma_triangle_step(row as nat);
            }
            row = row + 1;
        }
        v
    }
}

} // verus!

//! Barycentric coordinates on the triangular grid, and their row-major order.
//!
//! A cell of a board of side `n` is a triple `(x, y, z)` with
//! `x + y + z == n - 1`. The cells are laid out in rows: row `r` holds the
//! `r + 1` cells with `z == n - 1 - r`, ordered by `x` from `0` to `r`. The
//! first row is the single cell at the top, the last row the side `z == 0`.

use vstd::prelude::*;

verus! {

/// The number of cells in the first `n` rows: `n * (n + 1) / 2`.
pub open spec fn triangle(n: nat) -> nat {
    n * (n + 1) / 2
}

/// Each further row adds its own length.
pub proof fn lemma_triangle_step(n: nat)
    ensures
        triangle(n + 1) == triangle(n) + n + 1,
{
    assert((n + 1) * (n + 2) == n * (n + 1) + 2 * (n + 1)) by (nonlinear_arith);
}

/// The triangular numbers grow with their argument.
pub proof fn lemma_triangle_monotonic(a: nat, b: nat)
    requires
        a <= b,
    ensures
        triangle(a) <= triangle(b),
    decreases b - a,
{
    if a < b {
        lemma_triangle_monotonic(a, (b - 1) as nat);
        lemma_triangle_step((b - 1) as nat);
    }
}

/// Where the cells of a board can be counted in a `usize`, three more can:
/// no triangular number of a `u32` lies within three of the largest `usize`.
pub proof fn lemma_room_for_three(size: nat)
    requires
        size <= u32::MAX,
        triangle(size) <= usize::MAX,
    ensures
        triangle(size) + 3 <= usize::MAX,
{
    if usize::MAX == 0xffff_ffff {
        if size <= 92681 {
            lemma_triangle_monotonic(size, 92681);
            assert(triangle(92681) == 4294930221) by (nonlinear_arith);
        } else {
            lemma_triangle_monotonic(92682, size);
            assert(triangle(92682) == 4295022903) by (nonlinear_arith);
        }
    } else {
        assert(usize::MAX == 0xffff_ffff_ffff_ffff);
        lemma_triangle_monotonic(size, 0xffff_ffff);
        assert(triangle(0xffff_ffff) == 0x7fff_ffff_8000_0000) by (nonlinear_arith);
    }
}

/// The index of the cell of row `row` and column `col`, counted from zero.
pub open spec fn grid_index(row: int, col: int) -> int {
    triangle(row as nat) + col
}

/// Every index below the number of cells of a board of side `size` is the
/// index of a cell in one of its rows.
pub proof fn lemma_index_onto(size: nat, i: int)
    requires
        0 <= i < triangle(size),
    ensures
        exists|row: int, col: int| 0 <= col <= row < size && i == #[trigger] grid_index(row, col),
    decreases size,
{
    assert(size >= 1) by {
        assert(size == 0 ==> size * (size + 1) / 2 == 0) by (nonlinear_arith);
    }
    let last = (size - 1) as nat;
    lemma_triangle_step(last);
    if i >= triangle(last) {
        assert(i == grid_index(last as int, i - triangle(last)));
    } else {
        lemma_index_onto(last, i);
        let (row, col) = choose|row: int, col: int|
            0 <= col <= row < last && i == #[trigger] grid_index(row, col);
        assert(0 <= col <= row < size && i == grid_index(row, col));
    }
}

/// Two cells with one index are in one row and one column.
pub proof fn lemma_grid_index_injective(row: int, col: int, row2: int, col2: int)
    requires
        0 <= col <= row,
        0 <= col2 <= row2,
        grid_index(row, col) == grid_index(row2, col2),
    ensures
        row == row2,
        col == col2,
{
    lemma_triangle_step(row as nat);
    lemma_triangle_step(row2 as nat);
    if row < row2 {
        lemma_triangle_monotonic((row + 1) as nat, row2 as nat);
    } else if row2 < row {
        lemma_triangle_monotonic((row2 + 1) as nat, row as nat);
    }
}

/// One of the three sides of the triangle.
#[derive(Clone, Copy, Debug, PartialEq, Eq, Hash, Structural)]
pub enum Side {
    /// The cells with `x == 0`.
    X,
    /// The cells with `y == 0`.
    Y,
    /// The cells with `z == 0`.
    Z,
}

impl Side {
    /// The side's number: 0, 1 or 2.
    pub open spec fn index(self) -> nat {
        match self {
            Side::X => 0,
            Side::Y => 1,
            Side::Z => 2,
        }
    }
}

/// The position of a cell.
#[derive(Clone, Copy, Debug, PartialEq, Eq, Hash, Structural)]
pub struct Coordinates {
    pub x: u32,
    pub y: u32,
    pub z: u32,
}

impl Coordinates {
    /// The triple names a cell of a board of side `size`.
    pub open spec fn valid(self, size: nat) -> bool {
        self.x + self.y + self.z == size - 1
    }

    /// The row of the cell on a board of side `size`, counted from the top.
    pub open spec fn row(self, size: nat) -> int {
        size - 1 - self.z
    }

    /// The place of the cell in the row-major order of a board of side `size`.
    pub open spec fn index(self, size: nat) -> int {
        triangle(self.row(size) as nat) + self.x
    }

    /// The cell lies on `side`.
    pub open spec fn on_side(self, side: Side) -> bool {
        match side {
            Side::X => self.x == 0,
            Side::Y => self.y == 0,
            Side::Z => self.z == 0,
        }
    }

    /// The two cells are neighbours: one component is larger by one, another
    /// smaller by one, the third the same.
    pub open spec fn adjacent(self, other: Coordinates) -> bool {
        ||| (other.x == self.x + 1 && other.y == self.y - 1 && other.z == self.z)
        ||| (other.x == self.x - 1 && other.y == self.y + 1 && other.z == self.z)
        ||| (other.x == self.x + 1 && other.y == self.y && other.z == self.z - 1)
        ||| (other.x == self.x - 1 && other.y == self.y && other.z == self.z + 1)
        ||| (other.x == self.x && other.y == self.y + 1 && other.z == self.z - 1)
        ||| (other.x == self.x && other.y == self.y - 1 && other.z == self.z + 1)
    }

    /// The cell of row `row` and column `col` on a board of side `size`.
    pub open spec fn at(size: nat, row: nat, col: nat) -> Coordinates {
        Coordinates { x: col as u32, y: (row - col) as u32, z: (size - 1 - row) as u32 }
    }

    /// The index of a cell of the board lies below the number of cells.
    pub proof fn lemma_index_in_range(self, size: nat)
        requires
            self.valid(size),
        ensures
            0 <= self.index(size) < triangle(size),
    {
        let r = self.row(size) as nat;
        lemma_triangle_step(r);
        lemma_triangle_monotonic(r + 1, size);
    }

    /// Two cells of the board with one index are one cell.
    pub proof fn lemma_index_injective(self, other: Coordinates, size: nat)
        requires
            self.valid(size),
            other.valid(size),
            self.index(size) == other.index(size),
        ensures
            self == other,
    {
        let r1 = self.row(size) as nat;
        let r2 = other.row(size) as nat;
        lemma_triangle_step(r1);
        lemma_triangle_step(r2);
        if r1 < r2 {
            lemma_triangle_monotonic(r1 + 1, r2);
        } else if r2 < r1 {
            lemma_triangle_monotonic(r2 + 1, r1);
        }
    }

    /// The cell of row `row` and column `col` is a cell of the board, and its
    /// index is the number of cells in the rows above plus `col`.
    pub proof fn lemma_at(size: nat, row: nat, col: nat)
        requires
            size <= u32::MAX,
            col <= row < size,
        ensures
            Coordinates::at(size, row, col).valid(size),
            Coordinates::at(size, row, col).row(size) == row,
            Coordinates::at(size, row, col).index(size) == triangle(row) + col,
    {
    }

    /// Neighbours are distinct, and being neighbours is symmetric.
    pub proof fn lemma_adjacent_symmetric(self, other: Coordinates)
        requires
            self.adjacent(other),
        ensures
            other.adjacent(self),
            self != other,
    {
    }

    /// The triple `(x, y, z)`.
    pub fn new(x: u32, y: u32, z: u32) -> (c: Coordinates)
        ensures
            c == (Coordinates { x, y, z }),
    {
        Coordinates { x, y, z }
    }

    /// The first component.
    pub fn x(&self) -> (v: u32)
        ensures
            v == self.x,
    {
        self.x
    }

    /// The second component.
    pub fn y(&self) -> (v: u32)
        ensures
            v == self.y,
    {
        self.y
    }

    /// The third component.
    pub fn z(&self) -> (v: u32)
        ensures
            v == self.z,
    {
        self.z
    }

    /// Whether the triple names a cell of a board of side `size`.
    pub fn is_valid(&self, size: u32) -> (b: bool)
        ensures
            b == self.valid(size as nat),
    {
        let sum: u64 = self.x as u64 + self.y as u64 + self.z as u64;
        size >= 1 && sum == (size - 1) as u64
    }

    /// Whether the cell lies on `side`.
    pub fn touches(&self, side: Side) -> (b: bool)
        ensures
            b == self.on_side(side),
    {
        match side {
            Side::X => self.x == 0,
            Side::Y => self.y == 0,
            Side::Z => self.z == 0,
        }
    }

    /// The place of the cell in the row-major order of a board of side
    /// `size` whose cells can be counted in a `usize`.
    pub fn to_index(&self, size: u32) -> (i: usize)
        requires
            self.valid(size as nat),
            triangle(size as nat) <= usize::MAX,
        ensures
            i == self.index(size as nat),
            i < triangle(size as nat),
    {
        proof {
            self.lemma_index_in_range(size as nat);
        }
        let row: u32 = size - 1 - self.z;
        let above: u64 = cells_in_rows(row);
        (above + self.x as u64) as usize
    }

    /// The cell of row `row` and column `col` of a board of side `size`.
    pub fn from_row_col(size: u32, row: u32, col: u32) -> (c: Coordinates)
        requires
            col <= row < size,
        ensures
            c == Coordinates::at(size as nat, row as nat, col as nat),
            c.valid(size as nat),
            c.index(size as nat) == triangle(row as nat) + col,
    {
        proof {
            Coordinates::lemma_at(size as nat, row as nat, col as nat);
        }
        Coordinates { x: col, y: row - col, z: size - 1 - row }
    }

    /// The neighbour of the cell in direction `dir` (0 to 5), if it is a cell
    /// of the board of side `size`. The six directions give the six triples
    /// that `adjacent` admits.
    pub fn neighbour(&self, dir: u8, size: u32) -> (n: Option<Coordinates>)
        requires
            self.valid(size as nat),
            dir < 6,
        ensures
            n == self.neighbour_in(dir as nat),
            n matches Some(c) ==> c.valid(size as nat) && self.adjacent(c),
    {
        let Coordinates { x, y, z } = *self;
        if dir == 0 {
            if y >= 1 {
                Some(Coordinates { x: x + 1, y: y - 1, z })
            } else {
                None
            }
        } else if dir == 1 {
            if x >= 1 {
                Some(Coordinates { x: x - 1, y: y + 1, z })
            } else {
                None
            }
        } else if dir == 2 {
            if z >= 1 {
                Some(Coordinates { x: x + 1, y, z: z - 1 })
            } else {
                None
            }
        } else if dir == 3 {
            if x >= 1 {
                Some(Coordinates { x: x - 1, y, z: z + 1 })
            } else {
                None
            }
        } else if dir == 4 {
            if z >= 1 {
                Some(Coordinates { x, y: y + 1, z: z - 1 })
            } else {
                None
            }
        } else {
            if y >= 1 {
                Some(Coordinates { x, y: y - 1, z: z + 1 })
            } else {
                None
            }
        }
    }

    /// The change of the three components in direction `dir`.
    pub open spec fn direction(dir: nat) -> (int, int, int) {
        if dir == 0 {
            (1, -1, 0)
        } else if dir == 1 {
            (-1, 1, 0)
        } else if dir == 2 {
            (1, 0, -1)
        } else if dir == 3 {
            (-1, 0, 1)
        } else if dir == 4 {
            (0, 1, -1)
        } else {
            (0, -1, 1)
        }
    }

    /// The triple one step from `self` in direction `dir`, where no component
    /// would fall below zero.
    pub open spec fn neighbour_in(self, dir: nat) -> Option<Coordinates> {
        let (dx, dy, dz) = Coordinates::direction(dir);
        if self.x + dx >= 0 && self.y + dy >= 0 && self.z + dz >= 0 {
            Some(
                Coordinates {
                    x: (self.x + dx) as u32,
                    y: (self.y + dy) as u32,
                    z: (self.z + dz) as u32,
                },
            )
        } else {
            None
        }
    }

    /// Every neighbour on the board is reached by one of the six directions.
    pub proof fn lemma_neighbour_complete(self, other: Coordinates, size: nat)
        requires
            self.valid(size),
            other.valid(size),
            self.adjacent(other),
        ensures
            exists|dir: nat| dir < 6 && #[trigger] self.neighbour_in(dir) == Some(other),
    {
        if other.x == self.x + 1 && other.y == self.y - 1 {
            assert(self.neighbour_in(0) == Some(other));
        } else if other.x == self.x - 1 && other.y == self.y + 1 {
            assert(self.neighbour_in(1) == Some(other));
        } else if other.x == self.x + 1 && other.z == self.z - 1 {
            assert(self.neighbour_in(2) == Some(other));
        } else if other.x == self.x - 1 && other.z == self.z + 1 {
            assert(self.neighbour_in(3) == Some(other));
        } else if other.y == self.y + 1 && other.z == self.z - 1 {
            assert(self.neighbour_in(4) == Some(other));
        } else {
            assert(self.neighbour_in(5) == Some(other));
        }
    }
}

/// The number of cells in the first `rows` rows.
pub fn cells_in_rows(rows: u32) -> (n: u64)
    ensures
        n == triangle(rows as nat),
{
    let r: u64 = rows as u64;
    assert(r * (r + 1) <= 0xffff_ffff * 0x1_0000_0000) by (nonlinear_arith)
        requires
            0 <= r <= 0xffff_ffff,
    ;
    r * (r + 1) / 2
}

} // verus!

//! YEN: the text form of a position.
//!
//! A YEN holds the side length of the board, the number of placements made,
//! the symbols of the two players, and the layout: the rows of the board from
//! the top, joined by `/`. Row `r` has `r + 1` characters, one for each cell
//! in the order of growing `x`: `.` for an empty cell, or the symbol of the
//! player who owns it.

use vstd::prelude::*;
use crate::board::{cell_in, Board, BoardView, Cell};
use crate::coordinates::{
    grid_index, lemma_grid_index_injective, lemma_index_onto, lemma_triangle_monotonic,
    lemma_triangle_step, triangle,
};
use crate::player::PlayerId;
use crate::text::{
    join_rows, lemma_join_split, lemma_split_join, lemma_split_rows_plain, plain, split_rows,
};

verus! {

/// Why a YEN does not describe a position.
#[derive(Clone, Copy, Debug, PartialEq, Eq, Structural)]
pub enum YenError {
    /// The players are not two distinct symbols.
    InvalidPlayers,
    /// The layout has `found` rows, the board `expected`.
    RowCount { expected: u32, found: usize },
    /// Row `row` has `found` characters and not `row + 1`.
    RowLength { row: u32, found: usize },
    /// The character `symbol` at column `col` of row `row` is neither `.` nor
    /// a player's symbol.
    UnknownSymbol { row: u32, col: u32, symbol: char },
}

/// The character that stands for `cell`.
pub open spec fn symbol_of(cell: Cell, players: Seq<char>) -> char {
    match cell {
        Cell::Empty => '.',
        Cell::Owned(p) => players[p.index() as int],
    }
}

/// The cell that `symbol` stands for: `.` is an empty cell, also where it is
/// a player's symbol.
pub open spec fn cell_of(symbol: char, players: Seq<char>) -> Option<Cell> {
    if symbol == '.' {
        Some(Cell::Empty)
    } else if symbol == players[0] {
        Some(Cell::Owned(PlayerId::First))
    } else if symbol == players[1] {
        Some(Cell::Owned(PlayerId::Second))
    } else {
        None
    }
}

/// The rows of the board as text.
pub open spec fn rows_of(board: BoardView, players: Seq<char>) -> Seq<Seq<char>> {
    Seq::new(
        board.size,
        |row: int| Seq::new((row + 1) as nat, |col: int| symbol_of(board.at(row, col), players)),
    )
}

/// The layout of the board.
pub open spec fn layout_of(board: BoardView, players: Seq<char>) -> Seq<char> {
    join_rows(rows_of(board, players))
}

/// A YEN, as a value.
pub struct YenView {
    pub size: nat,
    pub turn: nat,
    pub players: Seq<char>,
    pub layout: Seq<char>,
}

impl YenView {
    /// The rows of the layout.
    pub open spec fn rows(self) -> Seq<Seq<char>> {
        split_rows(self.layout)
    }

    /// The players are two distinct symbols.
    pub open spec fn players_ok(self) -> bool {
        self.players.len() == 2 && self.players[0] != self.players[1]
    }

    /// Row `row` of the layout has `row + 1` characters.
    pub open spec fn row_ok(self, row: int) -> bool {
        self.rows()[row].len() == row + 1
    }

    /// The layout has as many rows as the board, each of its own length.
    pub open spec fn shape_ok(self) -> bool {
        &&& self.rows().len() == self.size
        &&& forall|row: int| 0 <= row < self.size ==> #[trigger] self.row_ok(row)
    }

    /// The character at column `col` of row `row` stands for a cell.
    pub open spec fn known(self, row: int, col: int) -> bool {
        cell_of(self.rows()[row][col], self.players) is Some
    }

    /// The YEN describes a position.
    pub open spec fn well_formed(self) -> bool {
        &&& self.players_ok()
        &&& self.shape_ok()
        &&& forall|row: int, col: int| 0 <= col <= row < self.size ==> #[trigger] self.known(row, col)
    }

    /// `e` names the first rule that the YEN breaks: the players are checked
    /// first, then the number of rows, then the length of each row from the
    /// top, then each character in row-major order.
    pub open spec fn rejected_with(self, e: YenError) -> bool {
        match e {
            YenError::InvalidPlayers => !self.players_ok(),
            YenError::RowCount { expected, found } => {
                &&& self.players_ok()
                &&& self.rows().len() != self.size
                &&& expected == self.size
                &&& found == self.rows().len()
            },
            YenError::RowLength { row, found } => {
                &&& self.players_ok()
                &&& self.rows().len() == self.size
                &&& row < self.size
                &&& found == self.rows()[row as int].len()
                &&& !self.row_ok(row as int)
                &&& forall|above: int| 0 <= above < row ==> #[trigger] self.row_ok(above)
            },
            YenError::UnknownSymbol { row, col, symbol } => {
                &&& self.players_ok()
                &&& self.shape_ok()
                &&& col <= row < self.size
                &&& symbol == self.rows()[row as int][col as int]
                &&& !self.known(row as int, col as int)
                &&& forall|r: int, c: int|
                    0 <= c <= r < self.size && (r < row || (r == row && c < col))
                        ==> #[trigger] self.known(r, c)
            },
        }
    }

    /// The layout reads as `board`: the board has the YEN's side length, and
    /// each of its cells is what the character at its row and column stands
    /// for.
    pub open spec fn reads_as(self, board: BoardView) -> bool {
        &&& board.wf()
        &&& board.size == self.size
        &&& forall|row: int, col: int|
            0 <= col <= row < self.size ==> cell_of(self.rows()[row][col], self.players) == Some(
                #[trigger] board.at(row, col),
            )
    }

    /// The board that a well-formed YEN describes: the cell with index `i` is
    /// what the character at its row and column stands for.
    pub open spec fn board(self) -> BoardView {
        BoardView {
            size: self.size,
            cells: Seq::new(
                triangle(self.size),
                |i: int|
                    {
                        let (row, col) = choose|row: int, col: int|
                            0 <= col <= row && i == #[trigger] grid_index(row, col);
                        match cell_of(self.rows()[row][col], self.players) {
                            Some(cell) => cell,
                            None => Cell::Empty,
                        }
                    },
            ),
        }
    }

    /// A well-formed YEN reads as its board.
    pub proof fn lemma_board_reads(self)
        requires
            self.well_formed(),
        ensures
            self.reads_as(self.board()),
    {
        let board = self.board();
        lemma_split_rows_plain(self.layout);
        assert forall|row: int, col: int| 0 <= col <= row < self.size implies cell_of(
            self.rows()[row][col],
            self.players,
        ) == Some(#[trigger] board.at(row, col)) by {
            let i = grid_index(row, col);
            lemma_triangle_step(row as nat);
            lemma_triangle_monotonic((row + 1) as nat, self.size);
            let (r, c) = choose|r: int, c: int| 0 <= c <= r && i == #[trigger] grid_index(r, c);
            lemma_grid_index_injective(row, col, r, c);
            assert(self.known(row, col));
        }
    }

    /// Encoding the board of a well-formed YEN gives the YEN back, character
    /// for character.
    pub proof fn lemma_text_round_trip(self)
        requires
            self.well_formed(),
        ensures
            YenView::of(self.board(), self.turn, self.players) == self,
    {
        self.lemma_board_reads();
        self.lemma_encode_decode(self.board());
    }

    /// Decoding the YEN of a board gives the board back, cell for cell, where
    /// the players are two distinct symbols other than `.` and `/`.
    pub proof fn lemma_board_round_trip(board: BoardView, turn: nat, players: Seq<char>)
        requires
            board.wf(),
            players.len() == 2,
            players[0] != players[1],
            forall|i: int| 0 <= i < 2 ==> players[i] != '.' && players[i] != '/',
        ensures
            YenView::of(board, turn, players).well_formed(),
            YenView::of(board, turn, players).board() == board,
            YenView::of(board, turn, players).turn == turn,
    {
        let yen = YenView::of(board, turn, players);
        YenView::lemma_decode_encode(board, turn, players);
        yen.lemma_board_reads();
        yen.lemma_reads_as_one(board, yen.board());
    }

    /// The YEN of a board.
    pub open spec fn of(board: BoardView, turn: nat, players: Seq<char>) -> YenView {
        YenView { size: board.size, turn, players, layout: layout_of(board, players) }
    }

    /// A YEN breaks no rule exactly when it is well formed, and the first
    /// rule that it breaks is one.
    pub proof fn lemma_rejected_once(self, e: YenError, f: YenError)
        requires
            self.rejected_with(e),
        ensures
            !self.well_formed(),
            self.rejected_with(f) ==> e == f,
    {
        match e {
            YenError::RowLength { row, found } => {
                assert(!self.row_ok(row as int));
                if let YenError::RowLength { row: row2, found: found2 } = f {
                    if self.rejected_with(f) {
                        if row < row2 {
                            assert(self.row_ok(row as int));
                        } else if row2 < row {
                            assert(self.row_ok(row2 as int));
                        }
                    }
                }
            },
            YenError::UnknownSymbol { row, col, symbol } => {
                assert(!self.known(row as int, col as int));
                if let YenError::UnknownSymbol { row: row2, col: col2, symbol: symbol2 } = f {
                    if self.rejected_with(f) {
                        if row < row2 || (row == row2 && col < col2) {
                            assert(self.known(row as int, col as int));
                        } else if row2 < row || (row2 == row && col2 < col) {
                            assert(self.known(row2 as int, col2 as int));
                        }
                    }
                }
                if let YenError::RowLength { row: row2, found: found2 } = f {
                    if self.rejected_with(f) {
                        assert(self.row_ok(row2 as int));
                    }
                }
            },
            YenError::RowCount { expected, found } => {},
            YenError::InvalidPlayers => {},
        }
        if let YenError::RowLength { row: row2, found: found2 } = f {
            if self.rejected_with(f) && self.shape_ok() {
                assert(self.row_ok(row2 as int));
            }
        }
    }

    /// A layout reads as one board at most.
    pub proof fn lemma_reads_as_one(self, board: BoardView, other: BoardView)
        requires
            self.reads_as(board),
            self.reads_as(other),
        ensures
            board == other,
    {
        assert forall|i: int| 0 <= i < board.cells.len() implies board.cells[i]
            == other.cells[i] by {
            lemma_index_onto(self.size, i);
            let (row, col) = choose|row: int, col: int|
                0 <= col <= row < self.size && i == #[trigger] grid_index(row, col);
            assert(board.at(row, col) == other.at(row, col));
        }
        assert(board.cells =~= other.cells);
    }

    /// Encoding what a well-formed YEN reads as gives its layout back,
    /// character for character.
    pub proof fn lemma_encode_decode(self, board: BoardView)
        requires
            self.well_formed(),
            self.reads_as(board),
        ensures
            YenView::of(board, self.turn, self.players) == self,
    {
        let rows = rows_of(board, self.players);
        assert forall|row: int| 0 <= row < self.size implies rows[row] == #[trigger] self.rows()[row] by {
            assert(self.row_ok(row));
            assert forall|col: int| 0 <= col <= row implies rows[row][col]
                == self.rows()[row][col] by {
                assert(self.known(row, col));
                assert(cell_of(self.rows()[row][col], self.players) == Some(board.at(row, col)));
            }
            assert(rows[row] =~= self.rows()[row]);
        }
        assert(rows =~= self.rows());
        lemma_join_split(self.layout);
    }

    /// The YEN of a board is well formed and reads as that board, where the
    /// players are two distinct symbols other than `.` and `/`.
    pub proof fn lemma_decode_encode(board: BoardView, turn: nat, players: Seq<char>)
        requires
            board.wf(),
            players.len() == 2,
            players[0] != players[1],
            forall|i: int| 0 <= i < 2 ==> players[i] != '.' && players[i] != '/',
        ensures
            YenView::of(board, turn, players).well_formed(),
            YenView::of(board, turn, players).reads_as(board),
    {
        let yen = YenView::of(board, turn, players);
        let rows = rows_of(board, players);
        assert forall|row: int| 0 <= row < rows.len() implies plain(#[trigger] rows[row]) by {
            assert forall|col: int| 0 <= col < rows[row].len() implies rows[row][col] != '/' by {
                let cell = board.at(row, col);
                assert(rows[row][col] == symbol_of(cell, players));
            }
        }
        lemma_split_join(rows);
        assert(yen.rows() == rows);
        assert forall|row: int| 0 <= row < yen.size implies #[trigger] yen.row_ok(row) by {}
        assert forall|row: int, col: int| 0 <= col <= row < yen.size implies cell_of(
            yen.rows()[row][col],
            players,
        ) == Some(#[trigger] board.at(row, col)) by {
            assert(rows[row][col] == symbol_of(board.at(row, col), players));
        }
        assert forall|row: int, col: int| 0 <= col <= row < yen.size implies #[trigger] yen.known(
            row,
            col,
        ) by {
            assert(cell_of(yen.rows()[row][col], players) == Some(board.at(row, col)));
        }
    }
}

/// A position in text form.
#[derive(Debug)]
pub struct YEN {
    size: u32,
    turn: u32,
    players: Vec<char>,
    layout: String,
}

impl View for YEN {
    type V = YenView;

    closed spec fn view(&self) -> YenView {
        YenView {
            size: self.size as nat,
            turn: self.turn as nat,
            players: self.players@,
            layout: self.layout@,
        }
    }
}

impl Clone for YEN {
    fn clone(&self) -> (copy: YEN)
        ensures
            copy@ == self@,
    {
        YEN {
            size: self.size,
            turn: self.turn,
            players: self.players.clone(),
            layout: self.layout.clone(),
        }
    }
}

/// The rows of `layout`.
fn split_layout(layout: &str) -> (rows: Vec<Vec<char>>)
    ensures
        rows@.len() == split_rows(layout@).len(),
        forall|r: int| 0 <= r < rows@.len() ==> (#[trigger] rows@[r])@ == split_rows(layout@)[r],
{
    let mut rows: Vec<Vec<char>> = Vec::new();
    let mut cur: Vec<char> = Vec::new();
    for ch in it: layout.chars()
        invariant
            it.seq() == layout@,
            split_rows(it.seq().take(it.index())).len() == rows@.len() + 1,
            forall|r: int|
                0 <= r < rows@.len() ==> (#[trigger] rows@[r])@ == split_rows(
                    it.seq().take(it.index()),
                )[r],
            cur@ == split_rows(it.seq().take(it.index())).last(),
    {
        proof {
            let longer = it.seq().take(it.index() + 1);
            assert(longer.drop_last() == it.seq().take(it.index()));
            assert(longer.last() == ch);
        }
        if ch == '/' {
            rows.push(cur);
            cur = Vec::new();
        } else {
            cur.push(ch);
        }
    }
    proof {
        assert(layout@.take(layout@.len() as int) == layout@);
    }
    rows.push(cur);
    rows
}

impl YEN {
    /// The YEN with these four parts.
    pub fn new(size: u32, turn: u32, players: Vec<char>, layout: String) -> (y: YEN)
        ensures
            y@ == (YenView {
                size: size as nat,
                turn: turn as nat,
                players: players@,
                layout: layout@,
            }),
    {
        YEN { size, turn, players, layout }
    }

    /// The side length of the board.
    pub fn size(&self) -> (n: u32)
        ensures
            n == self@.size,
    {
        self.size
    }

    /// The number of placements made.
    pub fn turn(&self) -> (n: u32)
        ensures
            n == self@.turn,
    {
        self.turn
    }

    /// The symbols of the players.
    pub fn players(&self) -> (p: &Vec<char>)
        ensures
            p@ == self@.players,
    {
        &self.players
    }

    /// The layout.
    pub fn layout(&self) -> (s: &str)
        ensures
            s@ == self@.layout,
    {
        self.layout.as_str()
    }

    /// The board that the YEN describes, or the first rule that the YEN
    /// breaks.
    pub fn to_board(&self) -> (r: Result<Board, YenError>)
        ensures
            r is Ok <==> self@.well_formed(),
            r matches Ok(b) ==> self@.reads_as(b@),
            r matches Err(e) ==> self@.rejected_with(e),
    {
        if self.players.len() != 2 {
            return Err(YenError::InvalidPlayers);
        }
        let first: char = self.players[0];
        let second: char = self.players[1];
        if first == second {
            return Err(YenError::InvalidPlayers);
        }
        let size: u32 = self.size;
        let rows: Vec<Vec<char>> = split_layout(self.layout.as_str());
        let ghost yen = self@;
        proof {
            lemma_split_rows_plain(yen.layout);
        }
        assert(yen.players_ok());
        if rows.len() as u64 != size as u64 {
            return Err(YenError::RowCount { expected: size, found: rows.len() });
        }
        let mut row: u32 = 0;
        while row < size
            invariant
                row <= size,
                yen == self@,
                yen.size == size,
                yen.players_ok(),
                rows@.len() == size,
                yen.rows().len() == rows@.len(),
                forall|r: int| 0 <= r < rows@.len() ==> (#[trigger] rows@[r])@ == yen.rows()[r],
                forall|above: int| 0 <= above < row ==> #[trigger] yen.row_ok(above),
            decreases size - row,
        {
            let found: usize = rows[row as usize].len();
            if found as u64 != row as u64 + 1 {
                assert(!yen.row_ok(row as int));
                return Err(YenError::RowLength { row, found });
            }
            assert(yen.row_ok(row as int));
            row = row + 1;
        }
        assert(yen.shape_ok());
        let mut cells: Vec<Cell> = Vec::new();
        let mut row: u32 = 0;
        while row < size
            invariant
                row <= size,
                yen == self@,
                yen.size == size,
                yen.players_ok(),
                yen.shape_ok(),
                size >= 1,
                first == yen.players[0],
                second == yen.players[1],
                rows@.len() == size,
                forall|r: int| 0 <= r < rows@.len() ==> (#[trigger] rows@[r])@ == yen.rows()[r],
                cells@.len() == triangle(row as nat),
                forall|r: int, c: int| 0 <= c <= r < row ==> #[trigger] yen.known(r, c),
                forall|r: int, c: int|
                    0 <= c <= r < row ==> cell_of(yen.rows()[r][c], yen.players) == Some(
                        #[trigger] cell_in(cells@, r, c),
                    ),
            decreases size - row,
        {
            let mut col: u32 = 0;
            assert(yen.row_ok(row as int));
            while col <= row
                invariant
                    row < size,
                    col <= row + 1,
                    yen == self@,
                    yen.size == size,
                    yen.players_ok(),
                    yen.shape_ok(),
                    first == yen.players[0],
                    second == yen.players[1],
                    rows@.len() == size,
                    forall|r: int|
                        0 <= r < rows@.len() ==> (#[trigger] rows@[r])@ == yen.rows()[r],
                    yen.rows()[row as int].len() == row + 1,
                    cells@.len() == triangle(row as nat) + col,
                    forall|r: int, c: int|
                        0 <= c <= r < size && (r < row || (r == row && c < col))
                            ==> #[trigger] yen.known(r, c),
                    forall|r: int, c: int|
                        0 <= c <= r < size && (r < row || (r == row && c < col)) ==> cell_of(
                            yen.rows()[r][c],
                            yen.players,
                        ) == Some(#[trigger] cell_in(cells@, r, c)),
                decreases row + 1 - col,
            {
                let symbol: char = rows[row as usize][col as usize];
                assert(symbol == yen.rows()[row as int][col as int]);
                let cell: Cell = if symbol == '.' {
                    Cell::Empty
                } else if symbol == first {
                    Cell::Owned(PlayerId::First)
                } else if symbol == second {
                    Cell::Owned(PlayerId::Second)
                } else {
                    assert(!yen.known(row as int, col as int));
                    return Err(YenError::UnknownSymbol { row, col, symbol });
                };
                let ghost before = cells@;
                cells.push(cell);
                proof {
                    assert(yen.known(row as int, col as int));
                    assert forall|r: int, c: int|
                        0 <= c <= r < size && (r < row || (r == row && c < col + 1)) implies cell_of(
                        yen.rows()[r][c],
                        yen.players,
                    ) == Some(#[trigger] cell_in(cells@, r, c)) by {
                        if r < row {
                            lemma_triangle_step(r as nat);
                            lemma_triangle_monotonic((r + 1) as nat, row as nat);
                            assert(cell_in(cells@, r, c) == cell_in(before, r, c));
                        } else if c < col {
                            assert(cell_in(cells@, r, c) == cell_in(before, r, c));
                        }
                    }
                }
                col = col + 1;
            }
            proof {
                lemma_triangle_step(row as nat);
            }
            row = row + 1;
        }
        let board = Board::from_cells(size, cells);
        proof {
            assert forall|r: int, c: int| 0 <= c <= r < yen.size implies cell_of(
                yen.rows()[r][c],
                yen.players,
            ) == Some(#[trigger] board@.at(r, c)) by {
                assert(board@.at(r, c) == cell_in(cells@, r, c));
            }
        }
        Ok(board)
    }

    /// The YEN of `board` after `turn` placements, with the players'
    /// symbols `players`.
    pub fn from_board(board: &Board, turn: u32, players: Vec<char>) -> (y: YEN)
        requires
            board.wf(),
            players@.len() == 2,
        ensures
            y@ == YenView::of(board@, turn as nat, players@),
    {
        let size: u32 = board.size();
        let count: usize = board.cell_count();
        let first: char = players[0];
        let second: char = players[1];
        let ghost rows = rows_of(board@, players@);
        let mut layout: String = String::new();
        let mut index: usize = 0;
        let mut row: u32 = 0;
        proof {
            assert(rows.take(0) =~= Seq::<Seq<char>>::empty());
            assert(triangle(0) == 0) by (nonlinear_arith);
        }
        while row < size
            invariant
                row <= size,
                board.wf(),
                size == board@.size,
                count == triangle(size as nat),
                players@.len() == 2,
                first == players@[0],
                second == players@[1],
                rows == rows_of(board@, players@),
                index == triangle(row as nat),
                layout@ == join_rows(rows.take(row as int)),
            decreases size - row,
        {
            let ghost head = layout@;
            if row > 0 {
                layout.push('/');
            }
            let ghost prefix = layout@;
            let mut col: u32 = 0;
            proof {
                lemma_triangle_step(row as nat);
                lemma_triangle_monotonic((row + 1) as nat, size as nat);
                assert(rows[row as int].take(0) =~= Seq::<char>::empty());
                assert(prefix + Seq::<char>::empty() =~= prefix);
            }
            while col <= row
                invariant
                    row < size,
                    col <= row + 1,
                    board.wf(),
                    size == board@.size,
                    count == triangle(size as nat),
                    triangle(row as nat) + row + 1 <= count,
                    players@.len() == 2,
                    first == players@[0],
                    second == players@[1],
                    rows == rows_of(board@, players@),
                    index == triangle(row as nat) + col,
                    layout@ == prefix + rows[row as int].take(col as int),
                decreases row + 1 - col,
            {
                let cell: Cell = board.cell_at(index);
                let symbol: char = match cell {
                    Cell::Empty => '.',
                    Cell::Owned(PlayerId::First) => first,
                    Cell::Owned(PlayerId::Second) => second,
                };
                layout.push(symbol);
                proof {
                    assert(cell == board@.at(row as int, col as int));
                    assert(symbol == rows[row as int][col as int]);
                    assert(rows[row as int].take(col + 1) =~= rows[row as int].take(
                        col as int,
                    ).push(symbol));
                    assert(layout@ =~= prefix + rows[row as int].take(col + 1));
                }
                index = index + 1;
                col = col + 1;
            }
            proof {
                assert(rows[row as int].take(row + 1) =~= rows[row as int]);
                let taken = rows.take(row + 1);
                assert(taken.drop_last() =~= rows.take(row as int));
                assert(taken.last() == rows[row as int]);
                if row == 0 {
                    assert(head =~= Seq::<char>::empty());
                    assert(prefix + rows[0] =~= rows[0]);
                    assert(join_rows(taken) == taken[0]);
                } else {
                    assert(prefix == head + seq!['/']) by {
                        assert(prefix =~= head + seq!['/']);
                    }
                    assert(join_rows(taken) == join_rows(taken.drop_last()) + seq!['/']
                        + taken.last());
                }
            }
            row = row + 1;
        }
        proof {
            assert(rows.take(size as int) =~= rows);
        }
        YEN { size, turn, players, layout }
    }
}

} // verus!

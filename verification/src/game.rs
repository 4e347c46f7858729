//! A game in progress: the board, the ply count, and the move engine.

use vstd::prelude::*;
use crate::board::{Board, BoardView, Cell};
use crate::connectivity::{spans, Connectivity};
use crate::coordinates::{
    lemma_triangle_monotonic, lemma_triangle_step, triangle, Coordinates,
};
use crate::player::PlayerId;
use crate::yen::{YenError, YenView, YEN};

verus! {

/// Whether a game goes on, and for whom.
#[derive(Clone, Copy, Debug, PartialEq, Eq, Structural)]
pub enum GameStatus {
    /// `next_player` is to move.
    Ongoing { next_player: PlayerId },
    /// `winner` has connected the three sides.
    Finished { winner: PlayerId },
}

/// A move.
#[derive(Clone, Copy, Debug, PartialEq, Eq, Structural)]
pub enum Movement {
    /// `player` puts a stone on the empty cell at `coords`.
    Placement { player: PlayerId, coords: Coordinates },
}

impl Movement {
    /// The player who makes the move.
    pub open spec fn mover(self) -> PlayerId {
        match self {
            Movement::Placement { player, .. } => player,
        }
    }

    /// The cell that the move is about.
    pub open spec fn target(self) -> Coordinates {
        match self {
            Movement::Placement { coords, .. } => coords,
        }
    }
}

/// Why a move was not made.
#[derive(Clone, Copy, Debug, PartialEq, Eq, Structural)]
pub enum MoveError {
    /// The game is finished.
    GameOver,
    /// It is the other player's turn.
    WrongPlayer,
    /// The coordinates name no cell of the board.
    OutOfBounds,
    /// The cell holds a stone.
    CellOccupied,
}

/// A game, as a value: the board, the number of placements made, and the
/// players' symbols. Whose turn it is and who has won follow from these.
pub struct GameView {
    pub board: BoardView,
    pub turn: nat,
    pub players: Seq<char>,
}

impl GameView {
    /// The cells that hold a stone of `player`.
    pub open spec fn stones(self, player: PlayerId) -> Set<Coordinates> {
        Set::new(
            |c: Coordinates| c.valid(self.board.size) && self.board.cell(c) == Cell::Owned(player),
        )
    }

    /// The stones of `player` connect the three sides.
    pub open spec fn has_won(self, player: PlayerId) -> bool {
        spans(self.board.size, self.stones(player))
    }

    /// The status of the game: finished once a player has connected the three
    /// sides (the first player, should the board show both as connected), and
    /// else the turn of the player that the parity of the ply count names.
    pub open spec fn status(self) -> GameStatus {
        if self.has_won(PlayerId::First) {
            GameStatus::Finished { winner: PlayerId::First }
        } else if self.has_won(PlayerId::Second) {
            GameStatus::Finished { winner: PlayerId::Second }
        } else {
            GameStatus::Ongoing { next_player: PlayerId::at_ply(self.turn) }
        }
    }

    /// The player to move, while the game goes on.
    pub open spec fn next_player(self) -> Option<PlayerId> {
        match self.status() {
            GameStatus::Ongoing { next_player } => Some(next_player),
            GameStatus::Finished { .. } => None,
        }
    }

    /// Whether the move is made, or the first reason why it is not: the game
    /// is over, it is not the player's turn, the coordinates are off the
    /// board, the cell is taken.
    pub open spec fn check(self, movement: Movement) -> Result<(), MoveError> {
        let Movement::Placement { player, coords } = movement;
        if self.status() is Finished {
            Err(MoveError::GameOver)
        } else if player != PlayerId::at_ply(self.turn) {
            Err(MoveError::WrongPlayer)
        } else if !self.board.contains(coords) {
            Err(MoveError::OutOfBounds)
        } else if self.board.cell(coords) != Cell::Empty {
            Err(MoveError::CellOccupied)
        } else {
            Ok(())
        }
    }

    /// The game after the move: the stone is on the board, and one more
    /// placement has been made.
    pub open spec fn after(self, movement: Movement) -> GameView {
        let Movement::Placement { player, coords } = movement;
        GameView {
            board: self.board.with_cell(coords, Cell::Owned(player)),
            turn: self.turn + 1,
            players: self.players,
        }
    }

    /// The game after the moves `moves`, made one after the other.
    pub open spec fn play(self, moves: Seq<Movement>) -> GameView
        decreases moves.len(),
    {
        if moves.len() == 0 {
            self
        } else {
            self.play(moves.drop_last()).after(moves.last())
        }
    }

    /// Each of the moves `moves` is accepted when its turn comes.
    pub open spec fn accepts(self, moves: Seq<Movement>) -> bool
        decreases moves.len(),
    {
        if moves.len() == 0 {
            true
        } else {
            self.accepts(moves.drop_last()) && self.play(moves.drop_last()).check(moves.last())
                is Ok
        }
    }

    /// The game of side `size` before the first move.
    pub open spec fn start(size: nat, players: Seq<char>) -> GameView {
        GameView { board: BoardView::empty(size), turn: 0, players }
    }

    /// The game that a well-formed YEN describes.
    pub open spec fn of(yen: YenView) -> GameView {
        GameView { board: yen.board(), turn: yen.turn, players: yen.players }
    }

    /// The YEN of the game.
    pub open spec fn yen(self) -> YenView {
        YenView::of(self.board, self.turn, self.players)
    }

    /// The game of a well-formed YEN has that YEN, character for character.
    pub proof fn lemma_yen_of_game_of_yen(yen: YenView)
        requires
            yen.well_formed(),
        ensures
            GameView::of(yen).yen() == yen,
    {
        yen.lemma_text_round_trip();
    }

    /// The YEN of a game is well formed, and its game is the game: every
    /// cell and the ply count are kept, where the players are two distinct
    /// symbols other than `.` and `/`.
    pub proof fn lemma_game_of_yen_of_game(self)
        requires
            self.board.wf(),
            self.players.len() == 2,
            self.players[0] != self.players[1],
            forall|i: int| 0 <= i < 2 ==> self.players[i] != '.' && self.players[i] != '/',
        ensures
            self.yen().well_formed(),
            GameView::of(self.yen()) == self,
    {
        YenView::lemma_board_round_trip(self.board, self.turn, self.players);
    }

    /// A placement for `player` changes the stones of `player` by the one
    /// cell, and the stones of the opponent not at all.
    pub proof fn lemma_after_stones(self, player: PlayerId, coords: Coordinates)
        requires
            self.board.wf(),
            self.board.contains(coords),
            self.board.cell(coords) == Cell::Empty,
        ensures
            self.after(Movement::Placement { player, coords }).stones(player) == self.stones(
                player,
            ).insert(coords),
            self.after(Movement::Placement { player, coords }).stones(player.opponent())
                == self.stones(player.opponent()),
    {
        let next = self.after(Movement::Placement { player, coords });
        assert forall|c: Coordinates|
            next.stones(player).contains(c) == self.stones(player).insert(coords).contains(
                c,
            ) by {
            if c.valid(self.board.size) {
                self.board.lemma_with_cell(coords, Cell::Owned(player), c);
            }
        }
        assert(next.stones(player) =~= self.stones(player).insert(coords));
        assert forall|c: Coordinates|
            next.stones(player.opponent()).contains(c) == self.stones(
                player.opponent(),
            ).contains(c) by {
            if c.valid(self.board.size) {
                self.board.lemma_with_cell(coords, Cell::Owned(player), c);
            }
        }
        assert(next.stones(player.opponent()) =~= self.stones(player.opponent()));
    }

    /// When move `k` of `moves` is due, the game goes on and it is the turn
    /// of the player who makes that move: the player whom the parity of the
    /// ply count names.
    pub open spec fn in_turn(self, moves: Seq<Movement>, k: int) -> bool {
        &&& self.play(moves.take(k)).next_player() == Some(moves[k].mover())
        &&& moves[k].mover() == PlayerId::at_ply((self.turn + k) as nat)
    }

    /// Turns alternate: when `moves` are accepted one after the other, the
    /// ply count grows by their number, and each move is made in turn.
    pub proof fn lemma_turns_alternate(self, moves: Seq<Movement>)
        requires
            self.accepts(moves),
        ensures
            self.play(moves).turn == self.turn + moves.len(),
            self.play(moves).players == self.players,
            self.play(moves).board.size == self.board.size,
            forall|k: int| 0 <= k < moves.len() ==> #[trigger] self.in_turn(moves, k),
        decreases moves.len(),
    {
        if moves.len() > 0 {
            let init = moves.drop_last();
            self.lemma_turns_alternate(init);
            assert forall|k: int| 0 <= k < moves.len() implies #[trigger] self.in_turn(
                moves,
                k,
            ) by {
                if k < init.len() {
                    assert(self.in_turn(init, k));
                    assert(moves.take(k) == init.take(k));
                    assert(moves[k] == init[k]);
                } else {
                    assert(moves.take(k) == init);
                }
            }
        }
    }

    /// From the start, the ply count is the number of moves made, and the
    /// players move in turn, the first player first.
    pub proof fn lemma_turns_from_start(size: nat, players: Seq<char>, moves: Seq<Movement>)
        requires
            GameView::start(size, players).accepts(moves),
        ensures
            GameView::start(size, players).play(moves).turn == moves.len(),
            forall|k: int|
                0 <= k < moves.len() ==> #[trigger] moves[k].mover() == PlayerId::at_ply(k as nat),
            forall|k: int|
                0 <= k < moves.len() ==> #[trigger] GameView::start(size, players).play(
                    moves.take(k),
                ).next_player() == Some(PlayerId::at_ply(k as nat)),
    {
        let start = GameView::start(size, players);
        start.lemma_turns_alternate(moves);
        assert forall|k: int| 0 <= k < moves.len() implies #[trigger] moves[k].mover()
            == PlayerId::at_ply(k as nat) by {
            assert(start.in_turn(moves, k));
        }
        assert forall|k: int| 0 <= k < moves.len() implies #[trigger] start.play(
            moves.take(k),
        ).next_player() == Some(PlayerId::at_ply(k as nat)) by {
            assert(start.in_turn(moves, k));
        }
    }

    /// While the game goes on, a placement by the player to move on a cell
    /// of the board that holds a stone is refused as `CellOccupied`.
    pub proof fn lemma_occupied_refused(self, player: PlayerId, coords: Coordinates)
        requires
            self.next_player() == Some(player),
            self.board.contains(coords),
            self.board.cell(coords) is Owned,
        ensures
            self.check(Movement::Placement { player, coords }) == Err::<(), MoveError>(
                MoveError::CellOccupied,
            ),
    {
    }

    /// While the game goes on, a placement by the player who is not to move
    /// is refused as `WrongPlayer`.
    pub proof fn lemma_wrong_player_refused(self, player: PlayerId, coords: Coordinates)
        requires
            self.next_player() is Some,
            self.next_player() != Some(player),
        ensures
            self.check(Movement::Placement { player, coords }) == Err::<(), MoveError>(
                MoveError::WrongPlayer,
            ),
    {
    }

    /// Once the game is finished, every move is refused as `GameOver`.
    pub proof fn lemma_finished_refused(self, movement: Movement)
        requires
            self.status() is Finished,
        ensures
            self.check(movement) == Err::<(), MoveError>(MoveError::GameOver),
    {
    }
}

/// The stones of `player` among the cells with an index below `upto`.
spec fn stones_below(board: BoardView, player: PlayerId, upto: int) -> Set<Coordinates> {
    Set::new(
        |c: Coordinates|
            c.valid(board.size) && c.index(board.size) < upto && board.cell(c) == Cell::Owned(
                player,
            ),
    )
}

/// A game in progress.
pub struct GameY {
    board: Board,
    turn: u32,
    players: Vec<char>,
    status: GameStatus,
    first: Connectivity,
    second: Connectivity,
}

impl View for GameY {
    type V = GameView;

    closed spec fn view(&self) -> GameView {
        GameView { board: self.board@, turn: self.turn as nat, players: self.players@ }
    }
}

impl GameY {
    /// The game's invariant: the board is well formed, the players are two
    /// distinct symbols, each player's connections are those of that player's
    /// stones on the board, and the status kept is the status of the board.
    pub closed spec fn wf(&self) -> bool {
        &&& self.board.wf()
        &&& self.players@.len() == 2
        &&& self.players@[0] != self.players@[1]
        &&& self.first.wf()
        &&& self.first@.size == self.board@.size
        &&& self.first@.stones == self@.stones(PlayerId::First)
        &&& self.second.wf()
        &&& self.second@.size == self.board@.size
        &&& self.second@.stones == self@.stones(PlayerId::Second)
        &&& self.status == self@.status()
    }

    /// A well-formed game has a well-formed board, two distinct players, and
    /// a ply count that fits a `u32`.
    pub proof fn lemma_wf(&self)
        requires
            self.wf(),
        ensures
            self@.board.wf(),
            self@.players.len() == 2,
            self@.players[0] != self@.players[1],
            self@.turn <= u32::MAX,
    {
    }

    /// The game that `yen` describes, or the first rule that `yen` breaks.
    /// The connections of both players are found by putting their stones on
    /// an empty board one by one, in row-major order; the status is that of
    /// the whole board.
    pub fn try_from(yen: YEN) -> (r: Result<GameY, YenError>)
        ensures
            r is Ok <==> yen@.well_formed(),
            r matches Ok(game) ==> game.wf() && yen@.reads_as(game@.board) && game@
                == GameView::of(yen@),
            r matches Err(e) ==> yen@.rejected_with(e),
    {
        let board: Board = match yen.to_board() {
            Ok(board) => board,
            Err(e) => {
                return Err(e);
            },
        };
        proof {
            yen@.lemma_board_reads();
            yen@.lemma_reads_as_one(board@, yen@.board());
        }
        let size: u32 = board.size();
        let count: usize = board.cell_count();
        let mut first: Connectivity = Connectivity::new(size);
        let mut second: Connectivity = Connectivity::new(size);
        let ghost shown = board@;
        let mut index: usize = 0;
        let mut row: u32 = 0;
        proof {
            assert(triangle(0) == 0) by (nonlinear_arith);
            assert(stones_below(shown, PlayerId::First, 0) =~= Set::<Coordinates>::empty());
            assert(stones_below(shown, PlayerId::Second, 0) =~= Set::<Coordinates>::empty());
        }
        while row < size
            invariant
                row <= size,
                shown == board@,
                shown.wf(),
                shown.size == size,
                count == triangle(size as nat),
                index == triangle(row as nat),
                first.wf(),
                first@.size == size,
                first@.stones == stones_below(shown, PlayerId::First, index as int),
                second.wf(),
                second@.size == size,
                second@.stones == stones_below(shown, PlayerId::Second, index as int),
            decreases size - row,
        {
            let mut col: u32 = 0;
            proof {
                lemma_triangle_step(row as nat);
                lemma_triangle_monotonic((row + 1) as nat, size as nat);
            }
            while col <= row
                invariant
                    row < size,
                    col <= row + 1,
                    shown == board@,
                    shown.wf(),
                    shown.size == size,
                    count == triangle(size as nat),
                    triangle(row as nat) + row + 1 <= count,
                    index == triangle(row as nat) + col,
                    first.wf(),
                    first@.size == size,
                    first@.stones == stones_below(shown, PlayerId::First, index as int),
                    second.wf(),
                    second@.size == size,
                    second@.stones == stones_below(shown, PlayerId::Second, index as int),
                decreases row + 1 - col,
            {
                let coords: Coordinates = Coordinates::from_row_col(size, row, col);
                let cell: Cell = board.cell_at(index);
                let ghost before_first = first@.stones;
                let ghost before_second = second@.stones;
                match cell {
                    Cell::Owned(PlayerId::First) => {
                        first.place(&coords);
                    },
                    Cell::Owned(PlayerId::Second) => {
                        second.place(&coords);
                    },
                    Cell::Empty => {},
                }
                proof {
                    let n = size as nat;
                    assert(cell == shown.cell(coords));
                    assert forall|c: Coordinates|
                        stones_below(shown, PlayerId::First, index + 1).contains(c)
                            == first@.stones.contains(c) by {
                        if c.valid(n) && c.index(n) == index {
                            c.lemma_index_injective(coords, n);
                        }
                    }
                    assert(first@.stones =~= stones_below(shown, PlayerId::First, index + 1));
                    assert forall|c: Coordinates|
                        stones_below(shown, PlayerId::Second, index + 1).contains(c)
                            == second@.stones.contains(c) by {
                        if c.valid(n) && c.index(n) == index {
                            c.lemma_index_injective(coords, n);
                        }
                    }
                    assert(second@.stones =~= stones_below(shown, PlayerId::Second, index + 1));
                }
                index = index + 1;
                col = col + 1;
            }
            row = row + 1;
        }
        let turn: u32 = yen.turn();
        let players: Vec<char> = yen.players().clone();
        let ghost view = GameView { board: shown, turn: turn as nat, players: players@ };
        proof {
            assert forall|c: Coordinates|
                view.stones(PlayerId::First).contains(c) == first@.stones.contains(c) by {
                if c.valid(size as nat) {
                    c.lemma_index_in_range(size as nat);
                }
            }
            assert(first@.stones =~= view.stones(PlayerId::First));
            assert forall|c: Coordinates|
                view.stones(PlayerId::Second).contains(c) == second@.stones.contains(c) by {
                if c.valid(size as nat) {
                    c.lemma_index_in_range(size as nat);
                }
            }
            assert(second@.stones =~= view.stones(PlayerId::Second));
        }
        let first_won: bool = first.joins_sides();
        let second_won: bool = second.joins_sides();
        let status: GameStatus = if first_won {
            GameStatus::Finished { winner: PlayerId::First }
        } else if second_won {
            GameStatus::Finished { winner: PlayerId::Second }
        } else {
            GameStatus::Ongoing { next_player: PlayerId::for_ply(turn) }
        };
        Ok(GameY { board, turn, players, status, first, second })
    }

    /// The game as a YEN.
    pub fn to_yen(&self) -> (yen: YEN)
        requires
            self.wf(),
        ensures
            yen@ == self@.yen(),
    {
        YEN::from_board(&self.board, self.turn, self.players.clone())
    }

    /// The board.
    pub fn board(&self) -> (b: &Board)
        ensures
            b@ == self@.board,
    {
        &self.board
    }

    /// The number of placements made.
    pub fn turn(&self) -> (n: u32)
        ensures
            n == self@.turn,
    {
        self.turn
    }

    /// The status of the game.
    pub fn status(&self) -> (s: GameStatus)
        requires
            self.wf(),
        ensures
            s == self@.status(),
    {
        self.status
    }

    /// The player to move, or `None` when the game is finished.
    pub fn next_player(&self) -> (p: Option<PlayerId>)
        requires
            self.wf(),
        ensures
            p == self@.next_player(),
    {
        match self.status {
            GameStatus::Ongoing { next_player } => Some(next_player),
            GameStatus::Finished { .. } => None,
        }
    }

    /// Whether the move would be made, or the first reason why not.
    pub fn check_move(&self, movement: &Movement) -> (r: Result<(), MoveError>)
        requires
            self.wf(),
        ensures
            r == self@.check(*movement),
    {
        let Movement::Placement { player, coords } = *movement;
        match self.status {
            GameStatus::Finished { .. } => {
                return Err(MoveError::GameOver);
            },
            GameStatus::Ongoing { next_player } => {
                if player != next_player {
                    return Err(MoveError::WrongPlayer);
                }
            },
        }
        if !self.board.contains(&coords) {
            return Err(MoveError::OutOfBounds);
        }
        match self.board.get(&coords) {
            Cell::Owned(_) => Err(MoveError::CellOccupied),
            Cell::Empty => Ok(()),
        }
    }

    /// Makes the move, or refuses it and leaves the game as it is. The ply
    /// count must have room for one more placement.
    pub fn add_move(&mut self, movement: Movement) -> (r: Result<(), MoveError>)
        requires
            old(self).wf(),
            old(self)@.turn < u32::MAX,
        ensures
            final(self).wf(),
            r == old(self)@.check(movement),
            r is Err ==> *final(self) == *old(self),
            r is Ok ==> final(self)@ == old(self)@.after(movement),
    {
        let Movement::Placement { player, coords } = movement;
        match self.check_move(&movement) {
            Err(e) => {
                return Err(e);
            },
            Ok(()) => {},
        }
        proof {
            self@.lemma_after_stones(player, coords);
        }
        self.board.set(&coords, Cell::Owned(player));
        self.turn = self.turn + 1;
        let won: bool = match player {
            PlayerId::First => self.first.place(&coords),
            PlayerId::Second => self.second.place(&coords),
        };
        self.status = if won {
            GameStatus::Finished { winner: player }
        } else {
            GameStatus::Ongoing { next_player: player.other() }
        };
        Ok(())
    }
}

} // verus!

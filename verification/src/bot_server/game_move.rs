//! One move of a game that arrives as a YEN and leaves as a YEN.

use vstd::prelude::*;
use vstd::string::*;
use crate::coordinates::Coordinates;
use crate::game::{GameStatus, GameView, GameY, MoveError, Movement};
use crate::yen::{YenError, YEN};

verus! {

/// A position and the cell on which the player to move puts a stone.
pub struct GameMoveRequest {
    /// The position before the move.
    pub yen: YEN,
    /// The first component of the cell's coordinates.
    pub x: u32,
    /// The second component of the cell's coordinates.
    pub y: u32,
    /// The third component of the cell's coordinates.
    pub z: u32,
}

/// The position after a move, and how the game stands.
pub struct GameMoveResponse {
    /// The position after the move.
    pub yen: YEN,
    /// Either `"ongoing"` or `"finished"`.
    pub status: String,
    /// The number of the player who has won, when the game is finished.
    pub winner: Option<u32>,
    /// The number of the player to move, while the game goes on.
    pub next_player: Option<u32>,
}

/// Why a request was not answered with a new position.
#[derive(Clone, Copy, Debug, PartialEq, Eq, Structural)]
pub enum GameMoveError {
    /// The YEN describes no position.
    InvalidYen(YenError),
    /// The game is finished: no player is to move.
    GameFinished,
    /// The move is not legal.
    IllegalMove(MoveError),
    /// The ply count of the YEN is the largest that a YEN can hold.
    TurnLimit,
}

impl GameMoveRequest {
    /// The move that the request asks for in the game `game`: a placement by
    /// `player` on the cell named.
    pub open spec fn movement(&self, player: crate::player::PlayerId) -> Movement {
        Movement::Placement { player, coords: Coordinates { x: self.x, y: self.y, z: self.z } }
    }
}

impl GameMoveResponse {
    /// The response tells how the game `game` stands.
    pub open spec fn tells(&self, game: GameView) -> bool {
        &&& self.yen@ == game.yen()
        &&& match game.status() {
            GameStatus::Finished { winner } => {
                &&& self.status@ == "finished"@
                &&& self.winner == Some(winner.index() as u32)
                &&& self.next_player.is_none()
            },
            GameStatus::Ongoing { next_player } => {
                &&& self.status@ == "ongoing"@
                &&& self.winner.is_none()
                &&& self.next_player == Some(next_player.index() as u32)
            },
        }
    }
}

/// Makes the move that `req` asks for: reads the game from the YEN, places a
/// stone of the player to move on the cell named, and answers with the YEN
/// of the game after the move and with its status.
///
/// The request is refused, in this order: where the YEN describes no
/// position; where the game is finished; where the move is not legal; where
/// the ply count has no room for one more placement.
pub fn make_move(req: GameMoveRequest) -> (r: Result<GameMoveResponse, GameMoveError>)
    ensures
        match r {
            Err(GameMoveError::InvalidYen(e)) => req.yen@.rejected_with(e),
            Err(GameMoveError::GameFinished) => {
                &&& req.yen@.well_formed()
                &&& GameView::of(req.yen@).next_player().is_none()
            },
            Err(GameMoveError::IllegalMove(e)) => {
                &&& req.yen@.well_formed()
                &&& GameView::of(req.yen@).next_player() matches Some(player)
                &&& GameView::of(req.yen@).check(req.movement(player)) == Err::<(), MoveError>(e)
            },
            Err(GameMoveError::TurnLimit) => {
                &&& req.yen@.well_formed()
                &&& GameView::of(req.yen@).next_player() matches Some(player)
                &&& GameView::of(req.yen@).check(req.movement(player)) is Ok
                &&& req.yen@.turn == u32::MAX
            },
            Ok(response) => {
                &&& req.yen@.well_formed()
                &&& GameView::of(req.yen@).next_player() matches Some(player)
                &&& GameView::of(req.yen@).check(req.movement(player)) is Ok
                &&& req.yen@.turn < u32::MAX
                &&& response.tells(GameView::of(req.yen@).after(req.movement(player)))
            },
        },
{
    let GameMoveRequest { yen, x, y, z } = req;
    let mut game: GameY = match GameY::try_from(yen) {
        Ok(game) => game,
        Err(e) => {
            return Err(GameMoveError::InvalidYen(e));
        },
    };
    let player = match game.next_player() {
        Some(player) => player,
        None => {
            return Err(GameMoveError::GameFinished);
        },
    };
    let coords = Coordinates::new(x, y, z);
    let movement = Movement::Placement { player, coords };
    match game.check_move(&movement) {
        Err(e) => {
            return Err(GameMoveError::IllegalMove(e));
        },
        Ok(()) => {},
    }
    if game.turn() == u32::MAX {
        return Err(GameMoveError::TurnLimit);
    }
    match game.add_move(movement) {
        Err(e) => {
            return Err(GameMoveError::IllegalMove(e));
        },
        Ok(()) => {},
    }
    let new_yen: YEN = game.to_yen();
    let response = match game.status() {
        GameStatus::Finished { winner } => GameMoveResponse {
            yen: new_yen,
            status: String::from_str("finished"),
            winner: Some(winner.id()),
            next_player: None,
        },
        GameStatus::Ongoing { next_player } => GameMoveResponse {
            yen: new_yen,
            status: String::from_str("ongoing"),
            winner: None,
            next_player: Some(next_player.id()),
        },
    };
    Ok(response)
}

} // verus!

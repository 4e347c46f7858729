//! The record of a game, as it is kept once the game is over.

use vstd::prelude::*;
use vstd::string::*;
use crate::game::{GameStatus, GameY};
use crate::player::PlayerId;

verus! {

/// What is kept of a game.
#[derive(Debug)]
pub struct GameRecord {
    /// `"Player 1"` or `"Player 2"`, or `None` where nobody has won.
    pub winner: Option<String>,
    /// The side length of the board.
    pub board_size: u32,
    /// The number of placements made.
    pub moves_count: usize,
    /// When the game ended, in seconds since the Unix epoch.
    pub timestamp: i64,
    /// How long the game took, in seconds.
    pub duration_seconds: u64,
}

impl GameRecord {
    /// The name under which `player` is recorded as the winner.
    pub open spec fn winner_name(player: PlayerId) -> Seq<char> {
        match player {
            PlayerId::First => "Player 1"@,
            PlayerId::Second => "Player 2"@,
        }
    }

    /// The record of `game`, which ended at `timestamp` after
    /// `duration_seconds` seconds.
    pub fn of_game(game: &GameY, timestamp: i64, duration_seconds: u64) -> (record: GameRecord)
        requires
            game.wf(),
        ensures
            match game@.status() {
                GameStatus::Finished { winner } => record.winner matches Some(name) && name@
                    == GameRecord::winner_name(winner),
                GameStatus::Ongoing { .. } => record.winner is None,
            },
            record.board_size == game@.board.size,
            record.moves_count == game@.turn,
            record.timestamp == timestamp,
            record.duration_seconds == duration_seconds,
    {
        let winner: Option<String> = match game.status() {
            GameStatus::Finished { winner: PlayerId::First } => Some(String::from_str("Player 1")),
            GameStatus::Finished { winner: PlayerId::Second } => Some(
                String::from_str("Player 2"),
            ),
            GameStatus::Ongoing { .. } => None,
        };
        GameRecord {
            winner,
            board_size: game.board().size(),
            moves_count: game.turn() as usize,
            timestamp,
            duration_seconds,
        }
    }
}

} // verus!

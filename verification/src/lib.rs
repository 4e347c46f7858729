//! Engine for the Y game: a two-player connection game on a triangular grid.
//!
//! The crate holds the board model (`coordinates`, `board`), the YEN text
//! encoding of a position (`text`, `yen`), the per-player connectivity
//! tracker that detects a win (`disjoint_sets`, `connectivity`), and the move
//! engine that ties them together (`game`). Around the engine stand what a
//! game server computes from it: the answer to a move request and the bots
//! that it offers (`bot_server`, `bot`), and the record of a game (`db`).
//!
//! Every function carries a contract that Verus proves. The contracts speak
//! of the views `BoardView`, `YenView` and `GameView`, which are plain
//! mathematical values; the laws that relate the functions to each other are
//! proof functions on these views.

pub mod board;
pub mod bot;
pub mod bot_server;
pub mod connectivity;
pub mod coordinates;
pub mod db;
pub mod disjoint_sets;
pub mod game;
pub mod player;
pub mod text;
pub mod yen;

pub use board::{Board, BoardError, BoardView, Cell};
pub use bot::{RandomBot, YBot, YBotRegistry};
pub use bot_server::{
    create_default_state, make_move, AppState, GameMoveError, GameMoveRequest, GameMoveResponse,
};
pub use connectivity::{Connectivity, ConnectivityView, Node};
pub use coordinates::{Coordinates, Side};
pub use db::GameRecord;
pub use disjoint_sets::DisjointSets;
pub use game::{GameStatus, GameView, GameY, MoveError, Movement};
pub use player::PlayerId;
pub use yen::{YenError, YenView, YEN};

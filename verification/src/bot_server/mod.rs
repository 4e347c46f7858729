//! What the game server computes: the answer to a move request, and the
//! state that it starts with.

pub mod game_move;
pub mod state;

use vstd::prelude::*;
use crate::bot::{RandomBot, YBot, YBotRegistry};

pub use game_move::{make_move, GameMoveError, GameMoveRequest, GameMoveResponse};
pub use state::AppState;

verus! {

/// The state of a server with the standard bots: the random bot alone.
pub fn create_default_state() -> (s: AppState)
    ensures
        s.registry()@ == seq![YBot::Random(RandomBot)],
{
    let bots = YBotRegistry::new().with_bot(YBot::Random(RandomBot));
    AppState::new(bots)
}

} // verus!

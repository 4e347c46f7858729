//! What the handlers of a server share.

use vstd::prelude::*;
use crate::bot::YBotRegistry;

verus! {

/// The state of a server: the bots that it offers.
pub struct AppState {
    bots: YBotRegistry,
}

impl AppState {
    /// The bots of the state.
    pub closed spec fn registry(&self) -> YBotRegistry {
        self.bots
    }

    /// The state of a server that offers `bots`.
    pub fn new(bots: YBotRegistry) -> (s: AppState)
        ensures
            s.registry() == bots,
    {
        AppState { bots }
    }

    /// The bots that the server offers.
    pub fn bots(&self) -> (b: &YBotRegistry)
        ensures
            *b == self.registry(),
    {
        &self.bots
    }
}

} // verus!

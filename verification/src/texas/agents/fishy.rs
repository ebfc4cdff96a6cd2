//! A 'fishy' strategy: always call whatever is asked, never fold and never raise.
//!
//! Its actions are deterministic and independent of the cards and banks; it is the cheapest
//! agent that always goes to showdown.

use vstd::prelude::*;
use crate::texas::{PlayerID, TexasEvent, TexasStateHidden, TexasStateShared};
use crate::texas::agents::{TexasAgent, TexasAgentAction, TexasAgentState};

verus! {

/// An agent that always checks when it can and calls any bet.
#[derive(Debug)]
pub struct FishyTexasAgent {}

impl FishyTexasAgent {
    pub fn new() -> (r: FishyTexasAgent) {
        FishyTexasAgent {  }
    }
}

impl TexasAgent for FishyTexasAgent {
    /// Exactly what is asked.
    open spec fn decides(
        &self,
        id: PlayerID,
        hidden: TexasStateHidden,
        shared: TexasStateShared,
        log: Seq<TexasEvent>,
        action: TexasAgentAction,
    ) -> bool {
        action.amount == shared.bet
    }

    /// Puts in exactly what is asked.
    fn decide(&self, state: &TexasAgentState) -> (r: TexasAgentAction)
        ensures
            r.amount == state.shared.bet,
    {
        TexasAgentAction::new(state.shared.bet)
    }
}

} // verus!

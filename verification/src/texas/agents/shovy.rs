//! A 'shovy' strategy: go all-in at every opportunity.
//!
//! Its actions are deterministic and independent of the cards and of what is asked; it is the
//! most expensive agent that always goes to showdown.

use vstd::prelude::*;
use crate::betting::Chips;
use crate::texas::{PlayerID, TexasEvent, TexasStateHidden, TexasStateShared};
use crate::texas::agents::{TexasAgent, TexasAgentAction, TexasAgentState};

verus! {

/// An agent that always puts in its whole bank.
#[derive(Debug)]
pub struct ShovyTexasAgent {}

impl ShovyTexasAgent {
    pub fn new() -> (r: ShovyTexasAgent) {
        ShovyTexasAgent {  }
    }
}

impl TexasAgent for ShovyTexasAgent {
    /// The whole bank of its seat, or nothing when its seat is unknown.
    open spec fn decides(
        &self,
        id: PlayerID,
        hidden: TexasStateHidden,
        shared: TexasStateShared,
        log: Seq<TexasEvent>,
        action: TexasAgentAction,
    ) -> bool {
        if (id as int) < shared.agents@.len() {
            action.amount == shared.agents@[id as int].bank
        } else {
            action.amount.0 == 0
        }
    }

    /// Puts in its whole bank (nothing when its seat is unknown).
    fn decide(&self, state: &TexasAgentState) -> (r: TexasAgentAction)
        ensures
            (state.id as int) < state.shared.agents@.len() ==> r.amount == state.shared.agents@[state.id as int].bank,
    {
        if state.id < state.shared.agents.len() as u64 {
            TexasAgentAction::new(state.shared.agents[state.id as usize].bank)
        } else {
            TexasAgentAction::new(Chips::new(0))
        }
    }
}

} // verus!

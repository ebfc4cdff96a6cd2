//! A 'nitty' strategy: check when possible, fold against any bet.

use vstd::prelude::*;
use crate::betting::Chips;
use crate::texas::{PlayerID, TexasEvent, TexasStateHidden, TexasStateShared};
use crate::texas::agents::{TexasAgent, TexasAgentAction, TexasAgentState};

verus! {

/// An agent that always checks or folds.
#[derive(Debug)]
pub struct NittyTexasAgent {}

impl NittyTexasAgent {
    pub fn new() -> (r: NittyTexasAgent) {
        NittyTexasAgent {  }
    }
}

impl TexasAgent for NittyTexasAgent {
    /// Nothing.
    open spec fn decides(
        &self,
        id: PlayerID,
        hidden: TexasStateHidden,
        shared: TexasStateShared,
        log: Seq<TexasEvent>,
        action: TexasAgentAction,
    ) -> bool {
        action.amount.0 == 0
    }

    /// Puts in nothing: a check when nothing is asked, a fold otherwise.
    fn decide(&self, state: &TexasAgentState) -> (r: TexasAgentAction)
        ensures
            r.amount.0 == 0,
    {
        TexasAgentAction::new(Chips::new(0))
    }
}

} // verus!

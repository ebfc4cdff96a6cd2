//! Agents that play Texas Holdem: what an agent sees when deciding, what it decides, and a few
//! simple reference strategies.

use vstd::prelude::*;
use crate::betting::Chips;
use crate::texas::{PlayerID, TexasEvent, TexasStateHidden, TexasStateShared};

pub mod fishy;
pub mod nitty;
pub mod shovy;

verus! {

/// The state visible to a single agent when it decides.
pub struct TexasAgentState<'a> {
    /// Your own identifier at the table.
    pub id: PlayerID,
    /// Your own private state, visible to you only.
    pub hidden: &'a TexasStateHidden,
    /// The public shared state of the game, visible to all agents and spectators.
    pub shared: &'a TexasStateShared,
    /// What has happened at the table so far.
    pub log: &'a [TexasEvent],
}

/// A decision: how many chips to add to the pot.
///
/// This covers every action: 0 checks when nothing is asked and folds otherwise; exactly what
/// is asked calls; more raises. The engine sanitizes it: a positive amount below what is asked
/// counts as a fold, and no agent puts in more than it holds.
#[derive(Debug, Clone, Copy)]
pub struct TexasAgentAction {
    /// How many chips to add to the pot.
    pub amount: Chips,
}

impl TexasAgentAction {
    pub fn new(amount: Chips) -> (r: TexasAgentAction)
        ensures
            r.amount == amount,
    {
        TexasAgentAction { amount }
    }
}

/// A strategy for playing Texas Holdem.
pub trait TexasAgent {
    /// Whether this agent answers `action` when shown its seat `id`, its private state `hidden`,
    /// the public state `shared` and what has happened so far, `log`. A strategy that states
    /// nothing of its answers may answer anything.
    open spec fn decides(
        &self,
        id: PlayerID,
        hidden: TexasStateHidden,
        shared: TexasStateShared,
        log: Seq<TexasEvent>,
        action: TexasAgentAction,
    ) -> bool {
        true
    }

    /// Decide how many chips to add to the pot, given what this agent sees.
    fn decide(&self, state: &TexasAgentState) -> (r: TexasAgentAction)
        ensures
            self.decides(state.id, *state.hidden, *state.shared, state.log@, r),
    ;
}

} // verus!

//! Choosing the players of a game of Texas Holdem by name.

use vstd::prelude::*;
use crate::betting::Chips;
use crate::random::rng_from_seed;
use crate::bits::count_below;
use crate::texas::{PlayerID, TexasEngine, TexasEvent, TexasStateHidden, TexasStateShared, banks_sum, disjoint_cards, forced_of};
use crate::texas::agents::{TexasAgent, TexasAgentAction, TexasAgentState};
use crate::texas::agents::fishy::FishyTexasAgent;
use crate::texas::agents::nitty::NittyTexasAgent;
use crate::texas::agents::shovy::ShovyTexasAgent;

verus! {

/// The kinds of players that can sit at the table.
#[derive(Debug, Clone, Copy, PartialEq, Eq, Structural)]
pub enum AgentKind {
    /// A human, asked for every decision on the command line.
    SimpleCli,
    /// Always calls (see [FishyTexasAgent](crate::texas::agents::fishy::FishyTexasAgent)).
    Fishy,
    /// Always checks or folds (see [NittyTexasAgent](crate::texas::agents::nitty::NittyTexasAgent)).
    Nitty,
    /// Always goes all-in (see [ShovyTexasAgent](crate::texas::agents::shovy::ShovyTexasAgent)).
    Shovy,
}

/// The kind of player a name stands for.
pub open spec fn agent_of_name(s: Seq<char>) -> Option<AgentKind> {
    if s == "simplecli"@ {
        Some(AgentKind::SimpleCli)
    } else if s == "fishy"@ {
        Some(AgentKind::Fishy)
    } else if s == "nitty"@ {
        Some(AgentKind::Nitty)
    } else if s == "shovy"@ {
        Some(AgentKind::Shovy)
    } else {
        None
    }
}

/// Parse the name of a kind of player: `simplecli`, `fishy`, `nitty` or `shovy`; any other
/// name is refused with a message naming it.
pub fn parse_agent(s: &str) -> (r: Result<AgentKind, String>)
    ensures
        r matches Ok(k) ==> agent_of_name(s@) == Some(k),
        r matches Err(e) ==> agent_of_name(s@) is None && e@ == "unknown player type: "@ + s@,
{
    if str_eq(s, "simplecli") {
        Ok(AgentKind::SimpleCli)
    } else if str_eq(s, "fishy") {
        Ok(AgentKind::Fishy)
    } else if str_eq(s, "nitty") {
        Ok(AgentKind::Nitty)
    } else if str_eq(s, "shovy") {
        Ok(AgentKind::Shovy)
    } else {
        let mut e = String::new();
        e.append("unknown player type: ");
        e.append(s);
        Err(e)
    }
}

/// Whether two texts are the same, character by character.
fn str_eq(a: &str, b: &str) -> (r: bool)
    ensures
        r == (a@ == b@),
{
    let n = a.unicode_len();
    if n != b.unicode_len() {
        return false;
    }
    let mut i: usize = 0;
    while i < n
        invariant
            i <= n,
            n == a@.len(),
            n == b@.len(),
            forall|j: int| 0 <= j < i ==> a@[j] == b@[j],
        decreases n - i,
    {
        if a.get_char(i) != b.get_char(i) {
            return false;
        }
        i = i + 1;
    }
    proof {
        assert(a@ =~= b@);
    }
    true
}

/// A player of one of the standard kinds, the interactive kind being supplied by the caller.
pub enum StandardAgent<C: TexasAgent> {
    /// An interactive player.
    SimpleCli(C),
    /// See [FishyTexasAgent].
    Fishy(FishyTexasAgent),
    /// See [NittyTexasAgent].
    Nitty(NittyTexasAgent),
    /// See [ShovyTexasAgent].
    Shovy(ShovyTexasAgent),
}

impl<C: TexasAgent> TexasAgent for StandardAgent<C> {
    /// As the player it stands for.
    open spec fn decides(
        &self,
        id: PlayerID,
        hidden: TexasStateHidden,
        shared: TexasStateShared,
        log: Seq<TexasEvent>,
        action: TexasAgentAction,
    ) -> bool {
        match self {
            StandardAgent::SimpleCli(a) => a.decides(id, hidden, shared, log, action),
            StandardAgent::Fishy(a) => a.decides(id, hidden, shared, log, action),
            StandardAgent::Nitty(a) => a.decides(id, hidden, shared, log, action),
            StandardAgent::Shovy(a) => a.decides(id, hidden, shared, log, action),
        }
    }

    /// Decides as the player it stands for.
    fn decide(&self, state: &TexasAgentState) -> (r: TexasAgentAction)
        ensures
            self matches StandardAgent::Fishy(_) ==> r.amount == state.shared.bet,
            self matches StandardAgent::Nitty(_) ==> r.amount.0 == 0,
            self matches StandardAgent::Shovy(_) && (state.id as int) < state.shared.agents@.len()
                ==> r.amount == state.shared.agents@[state.id as int].bank,
    {
        match self {
            StandardAgent::SimpleCli(a) => a.decide(state),
            StandardAgent::Fishy(a) => a.decide(state),
            StandardAgent::Nitty(a) => a.decide(state),
            StandardAgent::Shovy(a) => a.decide(state),
        }
    }
}

/// The configuration of a game of Texas Holdem.
pub struct Args {
    /// Starting bankroll for all players, in chips.
    pub roll: Chips,
    /// Forced ante bet size, in chips.
    pub ante: Chips,
    /// Forced blind bet sizes, in chips, in order of payment from the player after the button.
    pub blinds: Vec<Chips>,
    /// The players, by kind, in order of their seats, starting with the button.
    pub players: Vec<String>,
    /// A seed text for a repeatable game; without one the game is seeded from the system.
    pub seed: Option<String>,
}

/// Whether every seat's forced bet fits in a chip count.
fn forced_fits(ante: Chips, blinds: &Vec<Chips>, n: usize) -> (r: bool)
    requires
        n >= 1,
        blinds@.len() < usize::MAX,
    ensures
        r == forall|j: int| 0 <= j < n ==> #[trigger] forced_of(ante, blinds@, n as nat, blinds@.len())[j] <= u64::MAX,
{
    let mut forced: Vec<u64> = Vec::new();
    let mut k: usize = 0;
    while k < n
        invariant
            k <= n,
            forced@.len() == k,
            forall|j: int| 0 <= j < k ==> (#[trigger] forced@[j]) == ante.0,
        decreases n - k,
    {
        forced.push(ante.0);
        k = k + 1;
    }
    let mut idx: usize = 0;
    proof {
        crate::texas::lemma_forced_grows(ante, blinds@, n as nat, 0, blinds@.len());
    }
    while idx < blinds.len()
        invariant
            n >= 1,
            idx <= blinds@.len(),
            blinds@.len() < usize::MAX,
            forced@.len() == n,
            forall|j: int| 0 <= j < n ==> (#[trigger] forced@[j]) == forced_of(ante, blinds@, n as nat, idx as nat)[j],
        decreases blinds@.len() - idx,
    {
        let j = (idx + 1) % n;
        let ghost prev = forced_of(ante, blinds@, n as nat, idx as nat);
        let ghost next = forced_of(ante, blinds@, n as nat, (idx + 1) as nat);
        proof {
            crate::texas::lemma_forced_grows(ante, blinds@, n as nat, (idx + 1) as nat, blinds@.len());
            crate::texas::lemma_forced_grows(ante, blinds@, n as nat, idx as nat, blinds@.len());
            assert(next == prev.update(j as int, (prev[j as int] + blinds@[idx as int].0) as nat));
        }
        match forced[j].checked_add(blinds[idx].0) {
            Some(v) => {
                forced.set(j, v);
            },
            None => {
                proof {
                    assert(next[j as int] <= forced_of(ante, blinds@, n as nat, blinds@.len())[j as int]);
                }
                return false;
            },
        }
        idx = idx + 1;
    }
    proof {
        assert forall|j: int| 0 <= j < n implies #[trigger] forced_of(ante, blinds@, n as nat, blinds@.len())[j] <= u64::MAX by {
            assert(forced@[j] == forced_of(ante, blinds@, n as nat, blinds@.len())[j]);
        }
    }
    true
}

/// The kind of player a standard agent stands for.
pub open spec fn kind_of<C: TexasAgent>(a: StandardAgent<C>) -> AgentKind {
    match a {
        StandardAgent::SimpleCli(_) => AgentKind::SimpleCli,
        StandardAgent::Fishy(_) => AgentKind::Fishy,
        StandardAgent::Nitty(_) => AgentKind::Nitty,
        StandardAgent::Shovy(_) => AgentKind::Shovy,
    }
}

/// Seat `i` is the first whose player's kind is unknown.
pub open spec fn first_unknown(players: Seq<String>, i: int) -> bool {
    &&& 0 <= i < players.len()
    &&& agent_of_name(players[i]@) is None
    &&& forall|t: int| 0 <= t < i ==> (#[trigger] agent_of_name(players[t]@)) is Some
}

/// Why a game with this configuration cannot be played, if it cannot: the message given.
pub open spec fn refusal(roll: Chips, ante: Chips, blinds: Seq<Chips>, players: Seq<String>) -> Option<Seq<char>> {
    let n = players.len();
    if exists|i: int| first_unknown(players, i) {
        Some("unknown player type: "@ + players[choose|i: int| first_unknown(players, i)]@)
    } else if n == 0 {
        Some("no players"@)
    } else if roll.0 == 0 {
        Some("a player has 0 chips, which is not allowed"@)
    } else if n > 23 {
        Some("not enough cards for every player"@)
    } else if n * roll.0 > u64::MAX {
        Some("too many chips at the table"@)
    } else if blinds.len() == usize::MAX || exists|j: int| 0 <= j < n && #[trigger] forced_of(ante, blinds, n, blinds.len())[j] > u64::MAX {
        Some("a forced bet is too large"@)
    } else {
        None
    }
}

impl Args {
    /// Plays one hand with this configuration, the interactive players being copies of `cli`,
    /// and gives back the table with everything that happened. Fails with a message, where a
    /// player's kind is unknown, a player has no chips, there are too many players for one deck,
    /// the chips or a forced bet overflow a chip count; otherwise it plays the hand.
    pub fn run<C: TexasAgent + Clone>(self, cli: C) -> (r: Result<TexasEngine<StandardAgent<C>>, String>)
        ensures
            refusal(self.roll, self.ante, self.blinds@, self.players@) matches Some(m) ==> r matches Err(e) && e@ == m,
            refusal(self.roll, self.ante, self.blinds@, self.players@) is None ==> r is Ok,
            r matches Ok(e) ==> {
                &&& e.wf()
                &&& e.shared.agents@.len() == self.players@.len()
                &&& forall|t: int| 0 <= t < e.agents@.len() ==> Some(kind_of(#[trigger] e.agents@[t])) == agent_of_name(self.players@[t]@)
                &&& e.ante == self.ante
                &&& e.blinds@ == self.blinds@
                &&& e.chips() == self.players@.len() * self.roll.0
                &&& forall|t: int| 0 <= t < e.hiddens@.len() ==> count_below((#[trigger] e.hiddens@[t]).hole.0, 64) == 2
                &&& forall|t: int, u: int| 0 <= t < u < e.hiddens@.len() ==> disjoint_cards(#[trigger] e.hiddens@[t].hole.0, #[trigger] e.hiddens@[u].hole.0)
                &&& forall|t: int| 0 <= t < e.hiddens@.len() ==> disjoint_cards(#[trigger] e.hiddens@[t].hole.0, e.shared.shared.0)
                &&& count_below(e.shared.shared.0, 64) == 5
            },
    {
        let mut rng = match &self.seed {
            Some(s) => rng_from_seed(Some(s.as_str())),
            None => rng_from_seed(None),
        };
        let mut eng: TexasEngine<StandardAgent<C>> = TexasEngine::new(self.ante, self.blinds);
        let mut i: usize = 0;
        while i < self.players.len()
            invariant
                i <= self.players@.len(),
                eng.wf(),
                eng.shared.agents@.len() == i,
                forall|t: int| 0 <= t < i ==> (#[trigger] eng.shared.agents@[t]).bank == self.roll,
                eng.ante == self.ante,
                eng.blinds@ == self.blinds@,
                eng.agents@.len() == i,
                forall|t: int| 0 <= t < i ==> (#[trigger] agent_of_name(self.players@[t]@)) is Some,
                forall|t: int| 0 <= t < i ==> Some(kind_of(#[trigger] eng.agents@[t])) == agent_of_name(self.players@[t]@),
            decreases self.players@.len() - i,
        {
            let agent = match parse_agent(self.players[i].as_str()) {
                Ok(AgentKind::SimpleCli) => StandardAgent::SimpleCli(cli.clone()),
                Ok(AgentKind::Fishy) => StandardAgent::Fishy(FishyTexasAgent::new()),
                Ok(AgentKind::Nitty) => StandardAgent::Nitty(NittyTexasAgent::new()),
                Ok(AgentKind::Shovy) => StandardAgent::Shovy(ShovyTexasAgent::new()),
                Err(e) => {
                    proof {
                        lemma_first_unknown(self.players@, i as int);
                    }
                    return Err(e);
                },
            };
            let ghost seated = agent;
            eng.add_agent(agent, self.roll);
            proof {
                assert(eng.agents@[i as int] == seated);
                assert(agent_of_name(self.players@[i as int]@) is Some);
            }
            i = i + 1;
        }
        let n = eng.shared.agents.len();
        proof {
            assert forall|k: int| !first_unknown(self.players@, k) by {
                if 0 <= k < self.players@.len() {
                    assert(agent_of_name(self.players@[k]@) is Some);
                }
            }
        }
        if n == 0 {
            return Err(String::from_str("no players"));
        }
        if self.roll.0 == 0 {
            return Err(String::from_str("a player has 0 chips, which is not allowed"));
        }
        if n > 23 {
            return Err(String::from_str("not enough cards for every player"));
        }
        // all banks together must fit in a chip count
        let total = (n as u64).checked_mul(self.roll.0);
        if total.is_none() {
            return Err(String::from_str("too many chips at the table"));
        }
        if eng.blinds.len() == usize::MAX || !forced_fits(eng.ante, &eng.blinds, n) {
            return Err(String::from_str("a forced bet is too large"));
        }
        proof {
            lemma_equal_banks(eng.shared.agents@, self.roll.0 as int);
        }
        eng.execute(&mut rng);
        Ok(eng)
    }
}

/// The first seat whose player's kind is unknown is the one the configuration is refused for.
proof fn lemma_first_unknown(players: Seq<String>, i: int)
    requires
        first_unknown(players, i),
    ensures
        exists|k: int| first_unknown(players, k),
        (choose|k: int| first_unknown(players, k)) == i,
{
    let k = choose|k: int| first_unknown(players, k);
    if k < i {
        assert(agent_of_name(players[k]@) is Some);
    } else if k > i {
        assert(agent_of_name(players[i]@) is Some);
    }
}

/// Banks all equal to `roll` add up to `roll` per player.
proof fn lemma_equal_banks(s: Seq<crate::texas::TexasStateSharedAgent>, roll: int)
    requires
        forall|t: int| 0 <= t < s.len() ==> (#[trigger] s[t]).bank.0 == roll,
    ensures
        banks_sum(s) == s.len() * roll,
    decreases s.len(),
{
    if s.len() > 0 {
        lemma_equal_banks(s.drop_last(), roll);
        assert(banks_sum(s) == banks_sum(s.drop_last()) + roll);
        assert((s.len() - 1) * roll + roll == s.len() * roll) by (nonlinear_arith);
    }
}

} // verus!

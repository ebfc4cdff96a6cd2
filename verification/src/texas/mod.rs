//! Game engine for Texas Holdem poker, and the interface of the agents that play it.
//!
//! ## Game flow
//!
//! Each player is dealt two hidden hole cards. Forced bets (an ante from everyone, and blinds
//! from the players after the button) are collected, and a round of betting follows, where every
//! player still in the hand must match the largest bet or fold. Then three shared cards (the
//! flop), one (the turn) and one (the river) are dealt, each followed by a round of betting
//! without forced bets. At the showdown, every player's best hand of five cards out of their
//! hole cards and the shared cards is found, and the players are ranked by it.
//!
//! What happens at the table is recorded as a list of events, for a front end to show.

use vstd::prelude::*;
use rand_chacha::ChaCha20Rng;
use crate::betting::{Chips, transfer_capped};
use crate::bits::{bit, count_below};
use crate::deck::{CardMask, sample_cards, lemma_count_remove, lemma_count_union, lemma_remove_bits, lemma_full_bits};
use crate::hand::{Hand, Hand5, hand_code};
use crate::hand::refhand5::{RefHand5, ref_hand5};
use crate::texas::agents::{TexasAgent, TexasAgentAction, TexasAgentState};

pub mod agents;
pub mod cli;

verus! {

/// The identifier of a player: its seat at the table.
pub type PlayerID = u64;

/// The public state of one player.
#[derive(Debug, Clone, Copy)]
pub struct TexasStateSharedAgent {
    /// Whether the player is still in the hand, i.e. has not folded.
    pub active: bool,
    /// The player's stack of chips.
    pub bank: Chips,
}

/// The public state of the game, visible to all agents and spectators.
#[derive(Debug, Clone)]
pub struct TexasStateShared {
    /// The public state of every player, by seat.
    pub agents: Vec<TexasStateSharedAgent>,
    /// The shared cards on the board.
    pub shared: CardMask,
    /// The chips in the pot.
    pub pot: Chips,
    /// What the player to act is asked to put in.
    pub bet: Chips,
}

/// The private state of one player, visible to it only.
#[derive(Debug, Clone, Copy)]
pub struct TexasStateHidden {
    /// The player's hole cards.
    pub hole: CardMask,
}

/// Something that happened at the table.
#[derive(Debug, Clone)]
pub enum TexasEvent {
    /// A round of betting starts, with these banks.
    Banks { banks: Vec<Chips> },
    /// What every player must have put in to stay in the hand.
    AskTotal { amount: Chips },
    /// A player asked for `ask` chips decided to offer `offer`.
    Decision { id: PlayerID, ask: Chips, offer: Chips },
    /// A player offered less than asked but more than nothing, which counts as a fold.
    TooSmall { id: PlayerID, ask: Chips },
    /// A player folded.
    Fold { id: PlayerID },
    /// A player checked.
    Check { id: PlayerID },
    /// A player called, possibly going all-in.
    Call { id: PlayerID, amount: Chips, allin: bool },
    /// A player raised, possibly going all-in.
    Raise { id: PlayerID, amount: Chips, allin: bool },
    /// The showdown starts, with this pot and these shared cards.
    Showdown { pot: Chips, shared: CardMask },
    /// A player still in the hand shows its hole cards and its hand.
    Holding { id: PlayerID, hole: CardMask, hand: Hand },
    /// A player had folded.
    Folded { id: PlayerID },
    /// The players follow from the best hand down.
    WinOrder,
    /// A new group of equal hands starts.
    WinGroup { group: u64 },
    /// A player, and its hand, in the order of hands.
    Ranked { id: PlayerID, hand: Hand },
    /// A player with the strongest hand still in takes its share of the pot.
    Award { id: PlayerID, amount: Chips },
}

/// What a player's chips amount to, given what it is asked.
#[derive(Debug, Clone, Copy, PartialEq, Eq, Structural)]
pub enum Move {
    /// Nothing put in while something is asked.
    Fold,
    /// Nothing put in, nothing asked.
    Check,
    /// Exactly what is asked.
    Call,
    /// More than asked.
    Raise,
    /// Something, but less than asked.
    Short,
}

/// The move that putting in `actual` chips makes when `ask` is asked.
pub open spec fn move_of(ask: nat, actual: nat) -> Move {
    if actual == 0 {
        if ask > 0 {
            Move::Fold
        } else {
            Move::Check
        }
    } else if actual == ask {
        Move::Call
    } else if actual > ask {
        Move::Raise
    } else {
        Move::Short
    }
}

/// The move that putting in `actual` chips makes when `ask` is asked.
pub fn classify(ask: Chips, actual: Chips) -> (r: Move)
    ensures
        r == move_of(ask.0 as nat, actual.0 as nat),
{
    if actual.0 == 0 {
        if ask.0 > 0 {
            Move::Fold
        } else {
            Move::Check
        }
    } else if actual.0 == ask.0 {
        Move::Call
    } else if actual.0 > ask.0 {
        Move::Raise
    } else {
        Move::Short
    }
}

/// An offer below what is asked, but not nothing, counts as nothing.
pub open spec fn sanitized(ask: nat, amount: nat) -> nat {
    if 0 < amount < ask {
        0
    } else {
        amount
    }
}

/// An offer below what is asked, but not nothing, counts as nothing: the amount kept, and
/// whether the offer was too small.
pub fn sanitize(ask: Chips, amount: Chips) -> (r: (Chips, bool))
    ensures
        r.0.0 == sanitized(ask.0 as nat, amount.0 as nat),
        r.1 == (0 < amount.0 < ask.0),
{
    if amount.0 > 0 && amount.0 < ask.0 {
        (Chips::new(0), true)
    } else {
        (amount, false)
    }
}

/// The chips in the players' banks.
pub open spec fn banks_sum(s: Seq<TexasStateSharedAgent>) -> int
    decreases s.len(),
{
    if s.len() == 0 {
        0
    } else {
        banks_sum(s.drop_last()) + s.last().bank.0
    }
}

/// Changing one bank changes the sum by the difference.
pub proof fn lemma_banks_sum_update(s: Seq<TexasStateSharedAgent>, i: int, a: TexasStateSharedAgent)
    requires
        0 <= i < s.len(),
    ensures
        banks_sum(s.update(i, a)) == banks_sum(s) - s[i].bank.0 + a.bank.0,
    decreases s.len(),
{
    if i < s.len() - 1 {
        assert(s.update(i, a).drop_last() =~= s.drop_last().update(i, a));
        lemma_banks_sum_update(s.drop_last(), i, a);
    } else {
        assert(s.update(i, a).drop_last() =~= s.drop_last());
    }
}

/// Every bank is at most the sum of the banks.
pub proof fn lemma_bank_below_sum(s: Seq<TexasStateSharedAgent>, i: int)
    requires
        0 <= i < s.len(),
    ensures
        s[i].bank.0 <= banks_sum(s),
        banks_sum(s) >= 0,
    decreases s.len(),
{
    lemma_banks_sum_nonneg(s.drop_last());
    if i < s.len() - 1 {
        lemma_bank_below_sum(s.drop_last(), i);
    }
}

proof fn lemma_banks_sum_nonneg(s: Seq<TexasStateSharedAgent>)
    ensures
        banks_sum(s) >= 0,
    decreases s.len(),
{
    if s.len() > 0 {
        lemma_banks_sum_nonneg(s.drop_last());
    }
}


/// The largest amount among `s`, or 0.
pub open spec fn seq_max(s: Seq<Chips>) -> nat
    decreases s.len(),
{
    if s.len() == 0 {
        0
    } else {
        let m = seq_max(s.drop_last());
        if s.last().0 > m {
            s.last().0 as nat
        } else {
            m
        }
    }
}

/// Every amount of `s` is at most its largest.
proof fn lemma_seq_max(s: Seq<Chips>)
    ensures
        forall|i: int| 0 <= i < s.len() ==> (#[trigger] s[i]).0 <= seq_max(s),
        s.len() > 0 ==> exists|i: int| 0 <= i < s.len() && s[i].0 == seq_max(s),
    decreases s.len(),
{
    if s.len() > 0 {
        lemma_seq_max(s.drop_last());
        assert forall|i: int| 0 <= i < s.len() implies (#[trigger] s[i]).0 <= seq_max(s) by {
            if i < s.len() - 1 {
                assert(s[i] == s.drop_last()[i]);
            }
        }
        if s.len() > 1 && s.last().0 <= seq_max(s.drop_last()) {
            let i = choose|i: int| 0 <= i < s.len() - 1 && s.drop_last()[i].0 == seq_max(s.drop_last());
            assert(s[i] == s.drop_last()[i]);
        } else {
            assert(s[s.len() - 1].0 == seq_max(s));
        }
    }
}

/// The chips each player is asked to put in, given that each has put in `paid` and every player
/// must have put in `ask_total`.
pub open spec fn lesser(a: nat, b: nat) -> nat {
    if a <= b {
        a
    } else {
        b
    }
}


/// `x % n` for `-n <= x < n`.
proof fn lemma_wrap(x: int, n: int)
    requires
        0 < n,
        -n <= x < n,
    ensures
        x % n == if x >= 0 { x } else { x + n },
{
    if x >= 0 {
        vstd::arithmetic::div_mod::lemma_small_mod(x as nat, n as nat);
    } else {
        vstd::arithmetic::div_mod::lemma_mod_add_multiples_vanish(x, n);
        vstd::arithmetic::div_mod::lemma_small_mod((x + n) as nat, n as nat);
    }
}

/// Whether a player is done with a round of betting: out of the hand, out of chips, or having
/// put in `ask`, all that is asked.
pub open spec fn settled(a: TexasStateSharedAgent, paid: int, ask: int) -> bool {
    !a.active || a.bank.0 == 0 || paid == ask
}

/// Whether a round of betting that took the banks `before` to `after` is complete: every player
/// still in the hand with chips left has put in the same amount, the most that any player put in.
pub open spec fn round_complete(before: Seq<TexasStateSharedAgent>, after: Seq<TexasStateSharedAgent>) -> bool {
    forall|i: int, j: int|
        0 <= i < before.len() && 0 <= j < before.len() && (#[trigger] after[j]).active && after[j].bank.0 > 0
            ==> before[i].bank.0 - (#[trigger] after[i]).bank.0 <= before[j].bank.0 - after[j].bank.0
}

/// What one event of a round of betting does to the players: a fold takes the player out of
/// the hand, and a call or a raise takes its amount from the player's bank; the other events
/// change nothing.
pub open spec fn apply_event(a: Seq<TexasStateSharedAgent>, e: TexasEvent) -> Seq<TexasStateSharedAgent> {
    match e {
        TexasEvent::Fold { id } => if id < a.len() {
            a.update(id as int, TexasStateSharedAgent { active: false, bank: a[id as int].bank })
        } else {
            a
        },
        TexasEvent::Call { id, amount, .. } => if id < a.len() {
            a.update(id as int, TexasStateSharedAgent { active: a[id as int].active, bank: Chips((a[id as int].bank.0 - amount.0) as u64) })
        } else {
            a
        },
        TexasEvent::Raise { id, amount, .. } => if id < a.len() {
            a.update(id as int, TexasStateSharedAgent { active: a[id as int].active, bank: Chips((a[id as int].bank.0 - amount.0) as u64) })
        } else {
            a
        },
        _ => a,
    }
}

/// The event that a decision gives: the offer, sanitized against what is asked and capped by the
/// player's bank, is what the player puts in, and that amount makes a fold, a check, a call
/// (all-in when it is the whole bank, or less than asked) or a raise.
pub open spec fn decision_event(a: Seq<TexasStateSharedAgent>, id: PlayerID, ask: Chips, offer: Chips) -> TexasEvent {
    let bank = a[id as int].bank.0 as nat;
    let actual = lesser(sanitized(ask.0 as nat, offer.0 as nat), bank);
    let allin = bank - actual == 0;
    match move_of(ask.0 as nat, actual) {
        Move::Fold => TexasEvent::Fold { id },
        Move::Check => TexasEvent::Check { id },
        Move::Raise => TexasEvent::Raise { id, amount: Chips(actual as u64), allin },
        _ => TexasEvent::Call { id, amount: Chips(actual as u64), allin },
    }
}

/// Whether every decision among the events `ev` of a round, starting from the players `a`, is
/// followed by what it gives: a note that an offer below what was asked counts as nothing, where
/// it was, and then the decision's event, taken with the players as the events before it left
/// them.
#[verifier::opaque]
pub open spec fn decisions_followed(a: Seq<TexasStateSharedAgent>, ev: Seq<TexasEvent>) -> bool {
    forall|t: int| 0 <= t < ev.len() ==> match #[trigger] ev[t] {
        TexasEvent::Decision { id, ask, offer } => {
            let short = 0 < offer.0 < ask.0;
            let u = if short { t + 2 } else { t + 1 };
            &&& u < ev.len()
            &&& short ==> ev[t + 1] == (TexasEvent::TooSmall { id, ask })
            &&& ev[u] == decision_event(apply_events(a, ev.take(t)), id, ask, offer)
        },
        _ => true,
    }
}

/// Whether every decision among the events `ev` of a round is what the agent of its seat answers
/// when shown its private state, the shared cards `cards`, the players as the events before it
/// left them (starting from `a`), what it was asked, and the events so far (`head`, then those
/// before it).
/// Whether the event at position `t` of the events `ev` of a round, if a decision, is what the
/// agent of its seat answers when shown its private state, the shared cards `cards`, the players
/// as the events before it left them (starting from `a`), what it was asked, and the events so
/// far (`head`, then those before it).
pub open spec fn made_at<A: TexasAgent>(
    agents: Seq<A>,
    hiddens: Seq<TexasStateHidden>,
    cards: CardMask,
    a: Seq<TexasStateSharedAgent>,
    head: Seq<TexasEvent>,
    ev: Seq<TexasEvent>,
    t: int,
) -> bool {
    match ev[t] {
        TexasEvent::Decision { id, ask, offer } => decision_ok(agents, hiddens, cards, a, head, ev.take(t), id, ask, offer),
        _ => true,
    }
}

/// Whether offering `offer` is what the agent of seat `id` answers when asked `ask` after the
/// events `head` and then `prior` (the players as `prior` left them, starting from `a`).
pub open spec fn decision_ok<A: TexasAgent>(
    agents: Seq<A>,
    hiddens: Seq<TexasStateHidden>,
    cards: CardMask,
    a: Seq<TexasStateSharedAgent>,
    head: Seq<TexasEvent>,
    prior: Seq<TexasEvent>,
    id: PlayerID,
    ask: Chips,
    offer: Chips,
) -> bool {
    &&& (id as int) < agents.len()
    &&& exists|shared: TexasStateShared|
        #[trigger] agents[id as int].decides(id, hiddens[id as int], shared, head + prior, TexasAgentAction { amount: offer })
        && shared.agents@ == apply_events(a, prior) && shared.bet == ask && shared.shared == cards
}

/// Whether every decision among the events `ev` of a round is what the agent of its seat answers
/// (see [made_at]).
#[verifier::opaque]
pub open spec fn decisions_made<A: TexasAgent>(
    agents: Seq<A>,
    hiddens: Seq<TexasStateHidden>,
    cards: CardMask,
    a: Seq<TexasStateSharedAgent>,
    head: Seq<TexasEvent>,
    ev: Seq<TexasEvent>,
) -> bool {
    forall|t: int| 0 <= t < ev.len() ==> #[trigger] made_at(agents, hiddens, cards, a, head, ev, t)
}

/// Events added at the end keep what holds of the earlier ones.
proof fn lemma_made_prefix<A: TexasAgent>(
    agents: Seq<A>,
    hiddens: Seq<TexasStateHidden>,
    cards: CardMask,
    a: Seq<TexasStateSharedAgent>,
    head: Seq<TexasEvent>,
    ev: Seq<TexasEvent>,
    e: TexasEvent,
    t: int,
)
    requires
        0 <= t < ev.len(),
        made_at(agents, hiddens, cards, a, head, ev, t),
    ensures
        made_at(agents, hiddens, cards, a, head, ev.push(e), t),
{
    let n = ev.push(e);
    assert(n[t] == ev[t]);
    assert(n.take(t) =~= ev.take(t));
}

/// Events added after a decision keep every earlier decision made.
proof fn lemma_made_push<A: TexasAgent>(
    agents: Seq<A>,
    hiddens: Seq<TexasStateHidden>,
    cards: CardMask,
    a: Seq<TexasStateSharedAgent>,
    head: Seq<TexasEvent>,
    ev: Seq<TexasEvent>,
    e: TexasEvent,
)
    requires
        decisions_made(agents, hiddens, cards, a, head, ev),
        !(e is Decision),
    ensures
        decisions_made(agents, hiddens, cards, a, head, ev.push(e)),
{
    reveal(decisions_made);
    let n = ev.push(e);
    assert forall|t: int| 0 <= t < n.len() implies #[trigger] made_at(agents, hiddens, cards, a, head, n, t) by {
        if t < ev.len() {
            lemma_made_prefix(agents, hiddens, cards, a, head, ev, e, t);
        } else {
            assert(n[t] == e);
        }
    }
}

/// A decision that the agent of its seat answers when shown the state `shared`, added to
/// events whose decisions are all made, keeps every decision made.
proof fn lemma_made_decision<A: TexasAgent>(
    agents: Seq<A>,
    hiddens: Seq<TexasStateHidden>,
    cards: CardMask,
    a: Seq<TexasStateSharedAgent>,
    head: Seq<TexasEvent>,
    ev: Seq<TexasEvent>,
    id: PlayerID,
    ask: Chips,
    offer: Chips,
    shared: TexasStateShared,
)
    requires
        decisions_made(agents, hiddens, cards, a, head, ev),
        (id as int) < agents.len(),
        agents[id as int].decides(id, hiddens[id as int], shared, head + ev, TexasAgentAction { amount: offer }),
        shared.agents@ == apply_events(a, ev),
        shared.bet == ask,
        shared.shared == cards,
    ensures
        decisions_made(agents, hiddens, cards, a, head, ev.push(TexasEvent::Decision { id, ask, offer })),
{
    reveal(decisions_made);
    let d = TexasEvent::Decision { id, ask, offer };
    let n = ev.push(d);
    assert(n.take(ev.len() as int) =~= ev);
    assert(n[ev.len() as int] == d);
    let tk = n.take(ev.len() as int);
    assert(head + tk == head + ev);
    assert(agents[id as int].decides(id, hiddens[id as int], shared, head + tk, TexasAgentAction { amount: offer }));
    assert(shared.agents@ == apply_events(a, tk));
    assert(decision_ok(agents, hiddens, cards, a, head, tk, id, ask, offer));
    assert(made_at(agents, hiddens, cards, a, head, n, ev.len() as int));
    assert forall|t: int| 0 <= t < n.len() implies #[trigger] made_at(agents, hiddens, cards, a, head, n, t) by {
        if t < ev.len() {
            lemma_made_prefix(agents, hiddens, cards, a, head, ev, d, t);
        }
    }
}

/// Whether offering `offer` is what the agent of seat `id` answers when asked `ask` after the
/// events `head` and then `prior`, with the players as `prior` left them (starting from `a`),
/// whatever the shared cards.
pub open spec fn decision_seen<A: TexasAgent>(
    agents: Seq<A>,
    hiddens: Seq<TexasStateHidden>,
    a: Seq<TexasStateSharedAgent>,
    head: Seq<TexasEvent>,
    prior: Seq<TexasEvent>,
    id: PlayerID,
    ask: Chips,
    offer: Chips,
) -> bool {
    &&& (id as int) < agents.len()
    &&& exists|shared: TexasStateShared|
        #[trigger] agents[id as int].decides(id, hiddens[id as int], shared, head + prior, TexasAgentAction { amount: offer })
        && shared.agents@ == apply_events(a, prior) && shared.bet == ask
}

/// Whether the event at position `t` of `ev`, if a decision, is what the agent of its seat
/// answers (see [decision_seen]).
pub open spec fn seen_at<A: TexasAgent>(
    agents: Seq<A>,
    hiddens: Seq<TexasStateHidden>,
    a: Seq<TexasStateSharedAgent>,
    head: Seq<TexasEvent>,
    ev: Seq<TexasEvent>,
    t: int,
) -> bool {
    match ev[t] {
        TexasEvent::Decision { id, ask, offer } => decision_seen(agents, hiddens, a, head, ev.take(t), id, ask, offer),
        _ => true,
    }
}

/// Whether every decision among the events `ev`, over several rounds, is what the agent of its
/// seat answers when shown the players as the events before it left them and what it was asked.
#[verifier::opaque]
pub open spec fn decisions_seen<A: TexasAgent>(
    agents: Seq<A>,
    hiddens: Seq<TexasStateHidden>,
    a: Seq<TexasStateSharedAgent>,
    head: Seq<TexasEvent>,
    ev: Seq<TexasEvent>,
) -> bool {
    forall|t: int| 0 <= t < ev.len() ==> #[trigger] seen_at(agents, hiddens, a, head, ev, t)
}

/// The players with their banks, all in the hand.
pub open spec fn seated(a: Seq<TexasStateSharedAgent>) -> Seq<TexasStateSharedAgent> {
    Seq::new(a.len(), |i: int| TexasStateSharedAgent { active: true, bank: a[i].bank })
}

/// How many rounds of betting start among the events `ev`: the events listing the banks.
pub open spec fn count_banks(ev: Seq<TexasEvent>) -> nat
    decreases ev.len(),
{
    if ev.len() == 0 {
        0
    } else {
        count_banks(ev.drop_last()) + if ev.last() is Banks { 1nat } else { 0nat }
    }
}

/// Counting the rounds of two runs of events adds up.
proof fn lemma_count_banks_concat(x: Seq<TexasEvent>, y: Seq<TexasEvent>)
    ensures
        count_banks(x + y) == count_banks(x) + count_banks(y),
    decreases y.len(),
{
    if y.len() == 0 {
        assert(x + y =~= x);
    } else {
        lemma_count_banks_concat(x, y.drop_last());
        assert((x + y).drop_last() =~= x + y.drop_last());
    }
}

/// The events that start a round and change no player: its banks and what it asks.
pub open spec fn quiet(e: TexasEvent) -> bool {
    e is Banks || e is AskTotal
}

/// The events `x`, then `y`, leave the players as `y` leaves those that `x` left.
pub proof fn lemma_apply_concat(a: Seq<TexasStateSharedAgent>, x: Seq<TexasEvent>, y: Seq<TexasEvent>)
    ensures
        apply_events(a, x + y) == apply_events(apply_events(a, x), y),
    decreases y.len(),
{
    if y.len() == 0 {
        assert(x + y =~= x);
    } else {
        lemma_apply_concat(a, x, y.drop_last());
        assert((x + y).drop_last() =~= x + y.drop_last());
        assert((x + y).last() == y.last());
    }
}

/// Two quiet events change no player.
proof fn lemma_quiet_pair(a: Seq<TexasStateSharedAgent>, x: Seq<TexasEvent>, b: TexasEvent, k: TexasEvent)
    requires
        quiet(b),
        quiet(k),
    ensures
        apply_events(a, x + seq![b, k]) == apply_events(a, x),
{
    let m = x + seq![b, k];
    let xb = x.push(b);
    assert(m.drop_last() =~= xb);
    assert(m.last() == k);
    assert(xb.drop_last() =~= x);
    assert(xb.last() == b);
    assert(apply_events(a, xb) == apply_event(apply_events(a, x), b));
    assert(apply_event(apply_events(a, x), b) == apply_events(a, x));
    assert(apply_events(a, m) == apply_event(apply_events(a, xb), k));
}

/// A round that follows earlier rounds and the two quiet events that start it, with its
/// decisions followed from where those left the players, keeps every decision of the whole
/// followed.
#[verifier::spinoff_prover]
proof fn lemma_followed_concat(a: Seq<TexasStateSharedAgent>, x: Seq<TexasEvent>, b: TexasEvent, k: TexasEvent, y: Seq<TexasEvent>)
    requires
        quiet(b),
        quiet(k),
        decisions_followed(a, x),
        decisions_followed(apply_events(a, x), y),
    ensures
        decisions_followed(a, x + seq![b, k] + y),
        apply_events(a, x + seq![b, k] + y) == apply_events(apply_events(a, x), y),
{
    reveal(decisions_followed);
    let m = x + seq![b, k];
    let n = m + y;
    lemma_quiet_pair(a, x, b, k);
    lemma_apply_concat(a, m, y);
    assert forall|t: int| 0 <= t < n.len() implies match #[trigger] n[t] {
        TexasEvent::Decision { id, ask, offer } => {
            let short = 0 < offer.0 < ask.0;
            let u = if short { t + 2 } else { t + 1 };
            &&& u < n.len()
            &&& short ==> n[t + 1] == (TexasEvent::TooSmall { id, ask })
            &&& n[u] == decision_event(apply_events(a, n.take(t)), id, ask, offer)
        },
        _ => true,
    } by {
        if t < x.len() {
            assert(n[t] == x[t]);
            assert(n.take(t) =~= x.take(t));
            if let TexasEvent::Decision { id, ask, offer } = x[t] {
                let u = if 0 < offer.0 < ask.0 { t + 2 } else { t + 1 };
                assert(n[u] == x[u]);
                if 0 < offer.0 < ask.0 {
                    assert(n[t + 1] == x[t + 1]);
                }
            }
        } else if t < m.len() {
            assert(n[t] == m[t]);
        } else {
            let t2 = t - m.len();
            assert(n[t] == y[t2]);
            assert(n.take(t) =~= m + y.take(t2));
            lemma_apply_concat(a, m, y.take(t2));
            if let TexasEvent::Decision { id, ask, offer } = y[t2] {
                let u2 = if 0 < offer.0 < ask.0 { t2 + 2 } else { t2 + 1 };
                assert(n[u2 + m.len()] == y[u2]);
                if 0 < offer.0 < ask.0 {
                    assert(n[t + 1] == y[t2 + 1]);
                }
            }
        }
    }
}

/// One decision of a later round, made from where the earlier rounds left the players, is seen
/// in the whole.
proof fn lemma_seen_shift<A: TexasAgent>(
    agents: Seq<A>,
    hiddens: Seq<TexasStateHidden>,
    cards: CardMask,
    a: Seq<TexasStateSharedAgent>,
    head: Seq<TexasEvent>,
    m: Seq<TexasEvent>,
    y: Seq<TexasEvent>,
    t2: int,
)
    requires
        0 <= t2 < y.len(),
        apply_events(a, m) == apply_events(a, m.take(m.len() as int)),
        made_at(agents, hiddens, cards, apply_events(a, m), head + m, y, t2),
    ensures
        seen_at(agents, hiddens, a, head, m + y, m.len() + t2),
{
    let n = m + y;
    let t = m.len() + t2;
    assert(n[t] == y[t2]);
    assert(n.take(t) =~= m + y.take(t2));
    lemma_apply_concat(a, m, y.take(t2));
    if let TexasEvent::Decision { id, ask, offer } = y[t2] {
        assert(decision_ok(agents, hiddens, cards, apply_events(a, m), head + m, y.take(t2), id, ask, offer));
        let h2 = head + m + y.take(t2);
        let sh = choose|sh: TexasStateShared|
            #[trigger] agents[id as int].decides(id, hiddens[id as int], sh, h2, TexasAgentAction { amount: offer })
            && sh.agents@ == apply_events(apply_events(a, m), y.take(t2)) && sh.bet == ask && sh.shared == cards;
        assert(h2 =~= head + n.take(t));
        assert(agents[id as int].decides(id, hiddens[id as int], sh, head + n.take(t), TexasAgentAction { amount: offer }));
        assert(decision_seen(agents, hiddens, a, head, n.take(t), id, ask, offer));
    }
}

/// A round that follows earlier rounds and the two quiet events that start it, with its
/// decisions made from where those left the players, keeps every decision of the whole seen.
#[verifier::spinoff_prover]
proof fn lemma_seen_concat<A: TexasAgent>(
    agents: Seq<A>,
    hiddens: Seq<TexasStateHidden>,
    cards: CardMask,
    a: Seq<TexasStateSharedAgent>,
    head: Seq<TexasEvent>,
    x: Seq<TexasEvent>,
    b: TexasEvent,
    k: TexasEvent,
    y: Seq<TexasEvent>,
)
    requires
        quiet(b),
        quiet(k),
        decisions_seen(agents, hiddens, a, head, x),
        decisions_made(agents, hiddens, cards, apply_events(a, x), head + x + seq![b, k], y),
    ensures
        decisions_seen(agents, hiddens, a, head, x + seq![b, k] + y),
{
    reveal(decisions_seen);
    reveal(decisions_made);
    let m = x + seq![b, k];
    let n = m + y;
    lemma_quiet_pair(a, x, b, k);
    assert(m.take(m.len() as int) =~= m);
    assert(head + x + seq![b, k] =~= head + m);
    assert forall|t: int| 0 <= t < n.len() implies #[trigger] seen_at(agents, hiddens, a, head, n, t) by {
        if t < x.len() {
            assert(n[t] == x[t]);
            assert(n.take(t) =~= x.take(t));
            assert(seen_at(agents, hiddens, a, head, x, t));
        } else if t < m.len() {
            assert(n[t] == m[t]);
        } else {
            let t2 = t - m.len();
            assert(made_at(agents, hiddens, cards, apply_events(a, x), head + x + seq![b, k], y, t2));
            lemma_seen_shift(agents, hiddens, cards, a, head, m, y, t2);
        }
    }
}

/// A round of betting played after the events `h` and then `e`, which start from the players
/// `a`, extends them: the decisions of all are followed and seen, the players are as the round
/// left them, and one more round has started.
proof fn lemma_street_round<A: TexasAgent>(
    agents: Seq<A>,
    hiddens: Seq<TexasStateHidden>,
    cards: CardMask,
    a: Seq<TexasStateSharedAgent>,
    h: Seq<TexasEvent>,
    e: Seq<TexasEvent>,
    after: Seq<TexasEvent>,
)
    requires
        decisions_followed(a, e),
        decisions_seen(agents, hiddens, a, h, e),
        after.len() >= (h.len() + e.len()) as int + 2,
        after.subrange(0, (h.len() + e.len()) as int) == h + e,
        after[(h.len() + e.len()) as int] is Banks,
        after[(h.len() + e.len()) as int + 1] is AskTotal,
        decisions_followed(apply_events(a, e), after.subrange((h.len() + e.len()) as int + 2, after.len() as int)),
        decisions_made(
            agents,
            hiddens,
            cards,
            apply_events(a, e),
            after.take((h.len() + e.len()) as int + 2),
            after.subrange((h.len() + e.len()) as int + 2, after.len() as int),
        ),
    ensures
        after.take(h.len() as int) == h,
        decisions_followed(a, after.subrange(h.len() as int, after.len() as int)),
        decisions_seen(agents, hiddens, a, h, after.subrange(h.len() as int, after.len() as int)),
        apply_events(a, after.subrange(h.len() as int, after.len() as int)) == apply_events(
            apply_events(a, e),
            after.subrange((h.len() + e.len()) as int + 2, after.len() as int),
        ),
        count_banks(after.subrange(h.len() as int, after.len() as int)) >= count_banks(e) + 1,
{
    let g = (h.len() + e.len()) as int;
    let b = after[g];
    let k = after[g + 1];
    let t = after.subrange(g + 2, after.len() as int);
    let e2 = after.subrange(h.len() as int, after.len() as int);
    assert forall|i: int| 0 <= i < (h.len() + e.len()) as int implies after[i] == (h + e)[i] by {
        assert(after.subrange(0, g)[i] == after[i]);
    }
    assert(after.take(h.len() as int) =~= h) by {
        assert forall|i: int| 0 <= i < h.len() implies after.take(h.len() as int)[i] == h[i] by {
            assert(after[i] == (h + e)[i]);
        }
    }
    assert(e2 =~= e + seq![b, k] + t) by {
        assert forall|i: int| 0 <= i < e2.len() implies e2[i] == (e + seq![b, k] + t)[i] by {
            if i < e.len() {
                assert(after[h.len() + i] == (h + e)[h.len() + i]);
            }
        }
    }
    assert(after.take(g + 2) =~= h + e + seq![b, k]) by {
        assert forall|i: int| 0 <= i < g + 2 implies after.take(g + 2)[i] == (h + e + seq![b, k])[i] by {
            if i < g {
                assert(after[i] == (h + e)[i]);
            }
        }
    }
    lemma_followed_concat(a, e, b, k, t);
    lemma_seen_concat(agents, hiddens, cards, a, h, e, b, k, t);
    lemma_count_banks_concat(e + seq![b, k], t);
    lemma_count_banks_concat(e, seq![b, k]);
    let bk = seq![b, k];
    let b1 = seq![b];
    assert(bk.drop_last() =~= b1);
    assert(b1.drop_last() =~= Seq::<TexasEvent>::empty());
    assert(count_banks(Seq::<TexasEvent>::empty()) == 0);
    assert(b1.last() == b);
    assert(count_banks(b1) == 1);
    assert(count_banks(bk) >= count_banks(b1));
}

/// A round's decisions made with the shared cards pinned are made whatever the cards.
proof fn lemma_made_seen<A: TexasAgent>(
    agents: Seq<A>,
    hiddens: Seq<TexasStateHidden>,
    cards: CardMask,
    a: Seq<TexasStateSharedAgent>,
    head: Seq<TexasEvent>,
    ev: Seq<TexasEvent>,
)
    requires
        decisions_made(agents, hiddens, cards, a, head, ev),
    ensures
        decisions_seen(agents, hiddens, a, head, ev),
{
    reveal(decisions_made);
    reveal(decisions_seen);
    assert forall|t: int| 0 <= t < ev.len() implies #[trigger] seen_at(agents, hiddens, a, head, ev, t) by {
        assert(made_at(agents, hiddens, cards, a, head, ev, t));
        if let TexasEvent::Decision { id, ask, offer } = ev[t] {
            assert(decision_ok(agents, hiddens, cards, a, head, ev.take(t), id, ask, offer));
            let sh = choose|sh: TexasStateShared|
                #[trigger] agents[id as int].decides(id, hiddens[id as int], sh, head + ev.take(t), TexasAgentAction { amount: offer })
                && sh.agents@ == apply_events(a, ev.take(t)) && sh.bet == ask && sh.shared == cards;
            assert(decision_seen(agents, hiddens, a, head, ev.take(t), id, ask, offer));
        }
    }
}

/// A decision already made, then what follows it, keep every decision made.
proof fn lemma_made_end<A: TexasAgent>(
    agents: Seq<A>,
    hiddens: Seq<TexasStateHidden>,
    cards: CardMask,
    a: Seq<TexasStateSharedAgent>,
    head: Seq<TexasEvent>,
    ev: Seq<TexasEvent>,
    id: PlayerID,
    ask: Chips,
    offer: Chips,
    e: TexasEvent,
)
    requires
        decisions_made(agents, hiddens, cards, a, head, ev.push(TexasEvent::Decision { id, ask, offer })),
        !(e is Decision),
    ensures
        decisions_made(
            agents,
            hiddens,
            cards,
            a,
            head,
            ev + seq![TexasEvent::Decision { id, ask, offer }] + (if 0 < offer.0 < ask.0 {
                seq![TexasEvent::TooSmall { id, ask }]
            } else {
                Seq::empty()
            }) + seq![e],
        ),
{
    let d = ev.push(TexasEvent::Decision { id, ask, offer });
    if 0 < offer.0 < ask.0 {
        let ts = TexasEvent::TooSmall { id, ask };
        lemma_made_push(agents, hiddens, cards, a, head, d, ts);
        lemma_made_push(agents, hiddens, cards, a, head, d.push(ts), e);
        assert(d.push(ts).push(e) =~= ev + seq![TexasEvent::Decision { id, ask, offer }] + seq![ts] + seq![e]);
    } else {
        lemma_made_push(agents, hiddens, cards, a, head, d, e);
        assert(d.push(e) =~= ev + seq![TexasEvent::Decision { id, ask, offer }] + Seq::<TexasEvent>::empty() + seq![e]);
    }
}

/// A decision and what follows it, added to events whose decisions are all followed, keep every
/// decision followed.
proof fn lemma_followed_push(a: Seq<TexasStateSharedAgent>, ev: Seq<TexasEvent>, id: PlayerID, ask: Chips, offer: Chips, e: TexasEvent)
    requires
        decisions_followed(a, ev),
        !(e is Decision),
        e == decision_event(apply_events(a, ev), id, ask, offer),
    ensures
        decisions_followed(
            a,
            ev + seq![TexasEvent::Decision { id, ask, offer }] + (if 0 < offer.0 < ask.0 {
                seq![TexasEvent::TooSmall { id, ask }]
            } else {
                Seq::empty()
            }) + seq![e],
        ),
{
    reveal(decisions_followed);
    let d = TexasEvent::Decision { id, ask, offer };
    let mid: Seq<TexasEvent> = if 0 < offer.0 < ask.0 { seq![TexasEvent::TooSmall { id, ask }] } else { Seq::empty() };
    let n = ev + seq![d] + mid + seq![e];
    assert forall|t: int| 0 <= t < n.len() implies match #[trigger] n[t] {
        TexasEvent::Decision { id, ask, offer } => {
            let short = 0 < offer.0 < ask.0;
            let u = if short { t + 2 } else { t + 1 };
            &&& u < n.len()
            &&& short ==> n[t + 1] == (TexasEvent::TooSmall { id, ask })
            &&& n[u] == decision_event(apply_events(a, n.take(t)), id, ask, offer)
        },
        _ => true,
    } by {
        if t < ev.len() {
            assert(n[t] == ev[t]);
            assert(n.take(t) =~= ev.take(t));
            if let TexasEvent::Decision { id: i2, ask: a2, offer: o2 } = ev[t] {
                let u = if 0 < o2.0 < a2.0 { t + 2 } else { t + 1 };
                assert(n[u] == ev[u]);
                if 0 < o2.0 < a2.0 {
                    assert(n[t + 1] == ev[t + 1]);
                }
            }
        } else if t == ev.len() {
            assert(n[t] == d);
            assert(n.take(t) =~= ev);
            if 0 < offer.0 < ask.0 {
                assert(n[t + 1] == TexasEvent::TooSmall { id, ask });
                assert(n[t + 2] == e);
            } else {
                assert(n[t + 1] == e);
            }
        } else if t == n.len() - 1 {
            assert(n[t] == e);
        } else {
            assert(n[t] == TexasEvent::TooSmall { id, ask });
        }
    }
}

/// The players after the events `ev`, one after the other.
pub open spec fn apply_events(a: Seq<TexasStateSharedAgent>, ev: Seq<TexasEvent>) -> Seq<TexasStateSharedAgent>
    decreases ev.len(),
{
    if ev.len() == 0 {
        a
    } else {
        apply_event(apply_events(a, ev.drop_last()), ev.last())
    }
}

/// The players after each of the first ones has paid its forced bet, or all its bank if less.
pub open spec fn after_forced(a: Seq<TexasStateSharedAgent>, forced: Seq<Chips>) -> Seq<TexasStateSharedAgent> {
    Seq::new(a.len(), |i: int| if i < forced.len() {
        TexasStateSharedAgent { active: a[i].active, bank: Chips((a[i].bank.0 - lesser(forced[i].0 as nat, a[i].bank.0 as nat)) as u64) }
    } else {
        a[i]
    })
}

/// The events logged after position `start`, one more having been pushed, and what they do.
proof fn lemma_events_push(a: Seq<TexasStateSharedAgent>, prev: Seq<TexasEvent>, start: int, sub: Seq<TexasEvent>, e: TexasEvent)
    requires
        0 <= start <= prev.len(),
        prev.subrange(start, prev.len() as int) == sub,
    ensures
        prev.push(e).subrange(start, prev.len() as int + 1) == sub.push(e),
        apply_events(a, sub.push(e)) == apply_event(apply_events(a, sub), e),
{
    assert(prev.push(e).subrange(start, prev.len() as int + 1) =~= sub.push(e));
    assert(sub.push(e).drop_last() =~= sub);
}

/// The forced bets of a table of `n` players, by seat, as chip counts.
pub open spec fn forced_chips(ante: Chips, blinds: Seq<Chips>, n: nat) -> Seq<Chips> {
    Seq::new(n, |j: int| Chips(forced_of(ante, blinds, n, blinds.len())[j] as u64))
}

/// Whether the player at seat `i` can act in a round of betting: still in the hand, with chips.
pub open spec fn can_act(a: Seq<TexasStateSharedAgent>, i: int) -> bool {
    a[i].active && a[i].bank.0 > 0
}

/// The first seat that can act, going round the table from seat `start`, `d` seats on and after.
pub open spec fn first_actor(a: Seq<TexasStateSharedAgent>, start: int, d: nat) -> Option<int>
    decreases a.len() - d,
{
    if d >= a.len() {
        None
    } else if can_act(a, (start + d) % (a.len() as int)) {
        Some((start + d) % (a.len() as int))
    } else {
        first_actor(a, start, d + 1)
    }
}

/// Seat `s + k` around a table of `n`.
proof fn lemma_seat_at(s: int, k: int, n: int)
    requires
        0 <= s < n,
        0 <= k <= n,
    ensures
        (s + k) % n == if s + k < n { s + k } else { s + k - n },
{
    if s + k < n {
        vstd::arithmetic::div_mod::lemma_small_mod((s + k) as nat, n as nat);
    } else {
        vstd::arithmetic::div_mod::lemma_mod_add_multiples_vanish(s + k - n, n);
        vstd::arithmetic::div_mod::lemma_small_mod((s + k - n) as nat, n as nat);
    }
}

/// Moving to the next seat around a table of `n` brings the action one seat closer to seat `s`,
/// and the distance to any seat is less than `n`.
proof fn lemma_next_seat(s: int, id: int, n: int)
    requires
        0 <= s < n,
        0 <= id < n,
    ensures
        s != id ==> (s - (id + 1) % n) % n == (s - id) % n - 1,
        (s - id) % n < n,
        (id - (id + 1) % n) % n < n,
        0 <= (id + 1) % n < n,
{
    lemma_wrap(s - id, n);
    if id + 1 < n {
        lemma_wrap(id + 1, n);
        lemma_wrap(s - (id + 1), n);
        lemma_wrap(-1, n);
    } else {
        lemma_wrap(id + 1 - n, n);
        vstd::arithmetic::div_mod::lemma_mod_add_multiples_vanish(0, n);
        assert((id + 1) % n == 0);
        lemma_wrap(s, n);
        lemma_wrap(id, n);
    }
}


/// The number of true flags among the first `k`.
pub open spec fn count_true(s: Seq<bool>, k: nat) -> nat
    decreases k,
{
    if k == 0 {
        0
    } else {
        count_true(s, (k - 1) as nat) + if s[k - 1] { 1nat } else { 0nat }
    }
}

proof fn lemma_count_true_bound(s: Seq<bool>, k: nat)
    ensures
        count_true(s, k) <= k,
        count_true(s, k) < k ==> exists|j: int| 0 <= j < k && !s[j],
    decreases k,
{
    if k > 0 {
        lemma_count_true_bound(s, (k - 1) as nat);
    }
}

proof fn lemma_count_true_set(s: Seq<bool>, k: nat, j: int)
    requires
        0 <= j < s.len(),
        k <= s.len(),
        !s[j],
    ensures
        count_true(s.update(j, true), k) == count_true(s, k) + if j < k { 1nat } else { 0nat },
    decreases k,
{
    if k > 0 {
        lemma_count_true_set(s, (k - 1) as nat, j);
    }
}

/// Whether player `a` with strength `ca` comes before player `b` with strength `cb` in the
/// order of the showdown: a stronger hand first, and on equal hands the later seat first.
pub open spec fn ranks_before(ca: nat, a: nat, cb: nat, b: nat) -> bool {
    ca > cb || (ca == cb && a > b)
}

/// The hand of player `id` at the showdown: its best hand of its hole cards and the shared cards.
pub open spec fn showdown_hand(hiddens: Seq<TexasStateHidden>, shared: CardMask, id: int) -> Hand {
    ref_hand5(hiddens[id].hole.0 | shared.0)
}

/// The events showing each player's hand, or that it folded, from seat 0 up to `k`.
pub open spec fn holding_events(agents: Seq<TexasStateSharedAgent>, hiddens: Seq<TexasStateHidden>, shared: CardMask, k: nat) -> Seq<TexasEvent>
    decreases k,
{
    if k == 0 {
        Seq::empty()
    } else {
        let id = (k - 1) as int;
        holding_events(agents, hiddens, shared, (k - 1) as nat).push(
            if agents[id].active {
                TexasEvent::Holding { id: id as u64, hole: hiddens[id].hole, hand: showdown_hand(hiddens, shared, id) }
            } else {
                TexasEvent::Folded { id: id as u64 }
            },
        )
    }
}

/// The number of groups of equal hands among the first `k` players of the order `r`.
pub open spec fn groups(r: Seq<usize>, hands: Seq<Hand>, k: nat) -> nat
    decreases k,
{
    if k == 0 {
        0
    } else {
        groups(r, hands, (k - 1) as nat) + if k == 1 || hands[r[k - 1] as int] != hands[r[k - 2] as int] { 1nat } else { 0nat }
    }
}

/// The events of the order of hands for the first `k` players of the order `r`: a new group
/// starts whenever the hand differs from the one before.
pub open spec fn win_events(r: Seq<usize>, hands: Seq<Hand>, k: nat) -> Seq<TexasEvent>
    decreases k,
{
    if k == 0 {
        Seq::empty()
    } else {
        let id = r[k - 1];
        let start = k == 1 || hands[id as int] != hands[r[k - 2] as int];
        win_events(r, hands, (k - 1) as nat) + (if start {
            seq![TexasEvent::WinGroup { group: groups(r, hands, k) as u64 }]
        } else {
            Seq::empty()
        }) + seq![TexasEvent::Ranked { id: id as u64, hand: hands[id as int] }]
    }
}


/// Whether seat `id` appears in `r`.
pub open spec fn seat_in(r: Seq<usize>, id: int) -> bool {
    exists|i: int| 0 <= i < r.len() && r[i] == id
}

/// The players in the order of the showdown: every seat once, a stronger hand first, and on
/// equal hands the later seat first.
fn rank_players(codes: &Vec<u64>) -> (r: Vec<usize>)
    ensures
        r@.len() == codes@.len(),
        forall|i: int| 0 <= i < r@.len() ==> (#[trigger] r@[i]) < codes@.len(),
        forall|i: int, j: int| 0 <= i < j < r@.len() ==> ranks_before(codes@[r@[i] as int] as nat, r@[i] as nat, codes@[r@[j] as int] as nat, r@[j] as nat),
        forall|id: int| 0 <= id < codes@.len() ==> #[trigger] seat_in(r@, id),
{
    let n = codes.len();
    let mut taken: Vec<bool> = Vec::new();
    let mut k: usize = 0;
    while k < n
        invariant
            k <= n,
            taken@.len() == k,
            forall|j: int| 0 <= j < k ==> !(#[trigger] taken@[j]),
        decreases n - k,
    {
        taken.push(false);
        k = k + 1;
    }
    proof {
        assert forall|m: nat| m <= n implies count_true(taken@, m) == 0 by {
            lemma_count_zero(taken@, m);
        }
    }
    let mut out: Vec<usize> = Vec::new();
    while out.len() < n
        invariant
            n == codes@.len(),
            taken@.len() == n,
            out@.len() <= n,
            count_true(taken@, n as nat) == out@.len(),
            forall|j: int| 0 <= j < n ==> (#[trigger] taken@[j] <==> seat_in(out@, j)),
            forall|i: int| 0 <= i < out@.len() ==> (#[trigger] out@[i]) < n,
            forall|i: int, j: int| 0 <= i < j < out@.len() ==> ranks_before(codes@[out@[i] as int] as nat, out@[i] as nat, codes@[out@[j] as int] as nat, out@[j] as nat),
            forall|i: int, j: int| 0 <= i < out@.len() && 0 <= j < n && !taken@[j] ==> ranks_before(codes@[out@[i] as int] as nat, out@[i] as nat, codes@[j] as nat, j as nat),
        decreases n - out@.len(),
    {
        proof {
            lemma_count_true_bound(taken@, n as nat);
        }
        // the first of the players left
        let mut best: usize = n;
        let mut j: usize = 0;
        while j < n
            invariant
                j <= n,
                n == codes@.len(),
                taken@.len() == n,
                best == n || (best < j && !taken@[best as int]),
                best < n ==> forall|t: int| 0 <= t < j && !taken@[t] && t != best ==> ranks_before(codes@[best as int] as nat, best as nat, codes@[t] as nat, t as nat),
                best == n ==> forall|t: int| 0 <= t < j ==> taken@[t],
            decreases n - j,
        {
            if !taken[j] {
                if best == n || codes[j] >= codes[best] {
                    best = j;
                }
            }
            j = j + 1;
        }
        proof {
            if best == n {
                let t = choose|t: int| 0 <= t < n && !taken@[t];
                assert(taken@[t]);
            }
        }
        let ghost taken0 = taken@;
        let ghost out0 = out@;
        proof {
            lemma_count_true_set(taken@, n as nat, best as int);
        }
        taken.set(best, true);
        out.push(best);
        proof {
            assert forall|t: int| 0 <= t < n implies (#[trigger] taken@[t] <==> seat_in(out@, t)) by {
                if t == best as int {
                    assert(out@[out0.len() as int] == t);
                } else {
                    if taken0[t] {
                        let i = choose|i: int| 0 <= i < out0.len() && out0[i] == t;
                        assert(out@[i] == t);
                    }
                    if exists|i: int| 0 <= i < out@.len() && out@[i] == t {
                        let i = choose|i: int| 0 <= i < out@.len() && out@[i] == t;
                        assert(i < out0.len());
                        assert(out0[i] == t);
                    }
                }
            }
        }
    }
    proof {
        assert forall|id: int| 0 <= id < n implies #[trigger] seat_in(out@, id) by {
            if !taken@[id] {
                lemma_count_true_all(taken@, n as nat);
            }
        }
    }
    out
}

proof fn lemma_count_zero(s: Seq<bool>, m: nat)
    requires
        m <= s.len(),
        forall|j: int| 0 <= j < m ==> !(#[trigger] s[j]),
    ensures
        count_true(s, m) == 0,
    decreases m,
{
    if m > 0 {
        lemma_count_zero(s, (m - 1) as nat);
    }
}

proof fn lemma_count_true_all(s: Seq<bool>, m: nat)
    requires
        count_true(s, m) == m,
    ensures
        forall|j: int| 0 <= j < m ==> #[trigger] s[j],
    decreases m,
{
    if m > 0 {
        lemma_count_true_bound(s, (m - 1) as nat);
        lemma_count_true_all(s, (m - 1) as nat);
    }
}


/// The strongest hand, as its code, among the players still in the hand below seat `k`.
pub open spec fn best_below(agents: Seq<TexasStateSharedAgent>, hands: Seq<Hand>, k: nat) -> Option<nat>
    decreases k,
{
    if k == 0 {
        None
    } else {
        let id = (k - 1) as int;
        let prev = best_below(agents, hands, (k - 1) as nat);
        if agents[id].active {
            match prev {
                Some(b) => Some(if hand_code(hands[id]) > b { hand_code(hands[id]) } else { b }),
                None => Some(hand_code(hands[id])),
            }
        } else {
            prev
        }
    }
}

/// Whether player `id` is still in the hand and holds a hand of strength `b`.
pub open spec fn holds_best(agents: Seq<TexasStateSharedAgent>, hands: Seq<Hand>, b: nat, id: int) -> bool {
    agents[id].active && hand_code(hands[id]) == b
}

/// How many players below seat `k` are still in the hand with a hand of strength `b`.
pub open spec fn winners_below(agents: Seq<TexasStateSharedAgent>, hands: Seq<Hand>, b: nat, k: nat) -> nat
    decreases k,
{
    if k == 0 {
        0
    } else {
        winners_below(agents, hands, b, (k - 1) as nat) + if holds_best(agents, hands, b, k - 1) { 1nat } else { 0nat }
    }
}

/// The lowest seat below `k` still in the hand with a hand of strength `b`.
pub open spec fn first_winner(agents: Seq<TexasStateSharedAgent>, hands: Seq<Hand>, b: nat, k: nat) -> Option<nat>
    decreases k,
{
    if k == 0 {
        None
    } else {
        match first_winner(agents, hands, b, (k - 1) as nat) {
            Some(v) => Some(v),
            None => if holds_best(agents, hands, b, k - 1) { Some((k - 1) as nat) } else { None },
        }
    }
}

/// What player `id` wins at the showdown out of `pot`: the players still in the hand with the
/// strongest hand share the pot evenly, the lowest seat among them also taking what is left of
/// an uneven split; the others win nothing.
pub open spec fn payout(agents: Seq<TexasStateSharedAgent>, hands: Seq<Hand>, pot: nat, id: int) -> nat {
    match best_below(agents, hands, agents.len()) {
        None => 0,
        Some(b) => if holds_best(agents, hands, b, id) {
            let c = winners_below(agents, hands, b, agents.len());
            pot / c + if first_winner(agents, hands, b, agents.len()) == Some(id as nat) { pot % c } else { 0 }
        } else {
            0
        },
    }
}

/// The best strength, when there is one, is held by some player, and the lowest seat holding
/// it is found.
proof fn lemma_best_held(agents: Seq<TexasStateSharedAgent>, hands: Seq<Hand>, k: nat)
    requires
        k <= agents.len(),
    ensures
        best_below(agents, hands, k) matches Some(b) ==> first_winner(agents, hands, b, k) is Some,
        best_below(agents, hands, k) matches Some(b) ==> winners_below(agents, hands, b, k) >= 1,
    decreases k,
{
    if k > 0 {
        lemma_best_held(agents, hands, (k - 1) as nat);
        let id = (k - 1) as int;
        match best_below(agents, hands, k) {
            Some(b) => {
                if agents[id].active && hand_code(hands[id]) == b {
                    lemma_winner_count(agents, hands, b, k);
                } else {
                    let prev = best_below(agents, hands, (k - 1) as nat);
                    assert(prev == Some(b));
                    lemma_winner_count(agents, hands, b, (k - 1) as nat);
                }
            },
            None => {},
        }
    }
}

/// A seat found first is counted.
proof fn lemma_winner_count(agents: Seq<TexasStateSharedAgent>, hands: Seq<Hand>, b: nat, k: nat)
    ensures
        first_winner(agents, hands, b, k) is Some <==> winners_below(agents, hands, b, k) >= 1,
    decreases k,
{
    if k > 0 {
        lemma_winner_count(agents, hands, b, (k - 1) as nat);
    }
}

/// The count only grows with the seats looked at, and the first seat found stays first.
proof fn lemma_winners_grow(agents: Seq<TexasStateSharedAgent>, hands: Seq<Hand>, b: nat, k: nat, m: nat)
    requires
        k <= m,
    ensures
        winners_below(agents, hands, b, k) <= winners_below(agents, hands, b, m),
        first_winner(agents, hands, b, k) matches Some(v) ==> first_winner(agents, hands, b, m) == Some(v) && v < k,
    decreases m - k,
{
    if k < m {
        lemma_winners_grow(agents, hands, b, k, (m - 1) as nat);
    } else {
        lemma_first_below(agents, hands, b, k);
    }
}

proof fn lemma_first_below(agents: Seq<TexasStateSharedAgent>, hands: Seq<Hand>, b: nat, k: nat)
    ensures
        first_winner(agents, hands, b, k) matches Some(v) ==> v < k && holds_best(agents, hands, b, v as int),
    decreases k,
{
    if k > 0 {
        lemma_first_below(agents, hands, b, (k - 1) as nat);
    }
}

/// The events of the pot being shared out among the seats below `k`.
pub open spec fn award_events(agents: Seq<TexasStateSharedAgent>, hands: Seq<Hand>, pot: nat, k: nat) -> Seq<TexasEvent>
    decreases k,
{
    if k == 0 {
        Seq::empty()
    } else {
        let id = (k - 1) as int;
        award_events(agents, hands, pot, (k - 1) as nat) + match best_below(agents, hands, agents.len()) {
            Some(b) => if holds_best(agents, hands, b, id) {
                seq![TexasEvent::Award { id: id as u64, amount: Chips(payout(agents, hands, pot, id) as u64) }]
            } else {
                Seq::empty()
            },
            None => Seq::empty(),
        }
    }
}

/// With a player in the hand, there is a strongest hand.
proof fn lemma_best_some(agents: Seq<TexasStateSharedAgent>, hands: Seq<Hand>, k: nat, i: int)
    requires
        0 <= i < k,
        agents[i].active,
    ensures
        best_below(agents, hands, k) is Some,
    decreases k,
{
    if i < k - 1 {
        lemma_best_some(agents, hands, (k - 1) as nat, i);
    }
}

/// With no player in the hand, nobody is awarded anything.
proof fn lemma_no_awards(agents: Seq<TexasStateSharedAgent>, hands: Seq<Hand>, pot: nat, k: nat)
    requires
        best_below(agents, hands, agents.len()) is None,
    ensures
        award_events(agents, hands, pot, k) == Seq::<TexasEvent>::empty(),
    decreases k,
{
    if k > 0 {
        lemma_no_awards(agents, hands, pot, (k - 1) as nat);
        assert(award_events(agents, hands, pot, k) =~= Seq::<TexasEvent>::empty());
    }
}

/// The hands of the players at the showdown, by seat.
pub open spec fn showdown_hands(hiddens: Seq<TexasStateHidden>, shared: CardMask) -> Seq<Hand> {
    Seq::new(hiddens.len(), |id: int| showdown_hand(hiddens, shared, id))
}

/// Whether `r` orders the seats for the showdown: every seat once, a stronger hand first, and
/// on equal hands the later seat first.
pub open spec fn showdown_order(r: Seq<usize>, hands: Seq<Hand>) -> bool {
    &&& r.len() == hands.len()
    &&& forall|i: int| 0 <= i < r.len() ==> (#[trigger] r[i]) < hands.len()
    &&& forall|i: int, j: int| 0 <= i < j < r.len() ==> ranks_before(hand_code(hands[r[i] as int]), r[i] as nat, hand_code(hands[r[j] as int]), r[j] as nat)
    &&& forall|id: int| 0 <= id < hands.len() ==> #[trigger] seat_in(r, id)
}


/// The forced bets by seat around a table of `n` once the first `k` blinds are paid: the ante
/// from everyone, and blind `i` from the seat `i + 1` after the button (seat 0), wrapping around.
pub open spec fn forced_of(ante: Chips, blinds: Seq<Chips>, n: nat, k: nat) -> Seq<nat>
    decreases k,
{
    if k == 0 {
        Seq::new(n, |j: int| ante.0 as nat)
    } else {
        let prev = forced_of(ante, blinds, n, (k - 1) as nat);
        let j = (k as int) % (n as int);
        prev.update(j, (prev[j] + blinds[k - 1].0) as nat)
    }
}

/// Forced bets only grow as blinds are paid.
pub proof fn lemma_forced_grows(ante: Chips, blinds: Seq<Chips>, n: nat, k: nat, m: nat)
    requires
        n >= 1,
        k <= m,
    ensures
        forced_of(ante, blinds, n, k).len() == n,
        forced_of(ante, blinds, n, m).len() == n,
        forall|j: int| 0 <= j < n ==> forced_of(ante, blinds, n, k)[j] <= forced_of(ante, blinds, n, m)[j],
    decreases m,
{
    if m > k {
        lemma_forced_grows(ante, blinds, n, k, (m - 1) as nat);
        vstd::arithmetic::div_mod::lemma_mod_bound(m as int, n as int);
    } else if m > 0 {
        lemma_forced_grows(ante, blinds, n, 0, (m - 1) as nat);
        vstd::arithmetic::div_mod::lemma_mod_bound(m as int, n as int);
    }
}

/// Two sets of cards with no card in common.
pub open spec fn disjoint_cards(a: u64, b: u64) -> bool {
    forall|k: nat| !(#[trigger] bit(a, k) && bit(b, k))
}

/// The state of the deal: the deck holds only real cards; the first `upto` players each hold
/// two cards out of the deck and none in common; the shared cards are out of the deck and held
/// by no player; and the cards add up to 52.
pub open spec fn dealt(deck: u64, hiddens: Seq<TexasStateHidden>, upto: nat, shared: u64, nshared: nat) -> bool {
    &&& forall|b: nat| #[trigger] bit(deck, b) ==> b < 52
    &&& forall|i: int| 0 <= i < upto ==> count_below((#[trigger] hiddens[i]).hole.0, 64) == 2
    &&& forall|i: int, b: nat| 0 <= i < upto && #[trigger] bit(hiddens[i].hole.0, b) ==> !bit(deck, b) && b < 52
    &&& forall|i: int, j: int| 0 <= i < j < upto ==> disjoint_cards(#[trigger] hiddens[i].hole.0, #[trigger] hiddens[j].hole.0)
    &&& forall|b: nat| #[trigger] bit(shared, b) ==> !bit(deck, b) && b < 52
    &&& forall|i: int| 0 <= i < upto ==> disjoint_cards(#[trigger] hiddens[i].hole.0, shared)
    &&& count_below(shared, 64) == nshared
    &&& count_below(deck, 52) + 2 * upto + nshared == 52
}


/// All 52 cards are counted in the full mask.
proof fn lemma_count_full(n: nat)
    requires
        n <= 52,
    ensures
        count_below(0xf_ffff_ffff_ffffu64, n) == n,
    decreases n,
{
    if n > 0 {
        lemma_count_full((n - 1) as nat);
        lemma_full_bits((n - 1) as nat);
    }
}

/// Cards drawn from the deck are in the deck.
proof fn lemma_take_cards(deck: u64, drawn: u64)
    requires
        drawn & deck == drawn,
    ensures
        forall|b: nat| #[trigger] bit(drawn, b) ==> bit(deck, b),
{
    assert forall|b: nat| #[trigger] bit(drawn, b) implies bit(deck, b) by {
        crate::bits::lemma_bit_ops(drawn, deck, b);
    }
}

/// A game engine for Texas Holdem: the betting structure, the players, and the state of the
/// table.
pub struct TexasEngine<A: TexasAgent> {
    /// The forced bet paid by every player before the first round of betting.
    pub ante: Chips,
    /// The forced blinds, in order of payment from the player after the button; when there are
    /// more blinds than players they wrap around the table, a player paying the sum of its own.
    pub blinds: Vec<Chips>,
    /// The players' strategies, by seat.
    pub agents: Vec<A>,
    /// The public state of the game.
    pub shared: TexasStateShared,
    /// The private state of each player, by seat.
    pub hiddens: Vec<TexasStateHidden>,
    /// What has happened at the table.
    pub log: Vec<TexasEvent>,
}

impl<A: TexasAgent> TexasEngine<A> {
    /// Every seat has a strategy, a public state and a private state.
    pub open spec fn wf(&self) -> bool {
        &&& self.agents.len() == self.shared.agents.len()
        &&& self.hiddens.len() == self.shared.agents.len()
    }

    /// The chips at the table: the pot and every bank.
    pub open spec fn chips(&self) -> int {
        self.shared.pot.0 + banks_sum(self.shared.agents@)
    }

    /// A table with the given ante and blinds and no players.
    pub fn new(ante: Chips, blinds: Vec<Chips>) -> (r: TexasEngine<A>)
        ensures
            r.wf(),
            r.ante == ante,
            r.blinds@ == blinds@,
            r.agents.len() == 0,
            r.shared.shared.0 == 0,
            r.shared.pot.0 == 0,
            r.shared.bet.0 == 0,
            r.log@.len() == 0,
    {
        TexasEngine {
            ante,
            blinds,
            agents: Vec::new(),
            shared: TexasStateShared {
                agents: Vec::new(),
                shared: CardMask::none(),
                pot: Chips::new(0),
                bet: Chips::new(0),
            },
            hiddens: Vec::new(),
            log: Vec::new(),
        }
    }

    /// Seats a new player at the end of the table with the given bank; the bet shown becomes
    /// that bank.
    pub fn add_agent(&mut self, agent: A, bank: Chips)
        requires
            old(self).wf(),
        ensures
            final(self).wf(),
            final(self).agents@ == old(self).agents@.push(agent),
            final(self).shared.agents@ == old(self).shared.agents@.push(
                TexasStateSharedAgent { active: true, bank },
            ),
            final(self).hiddens@ == old(self).hiddens@.push(TexasStateHidden { hole: CardMask(0) }),
            final(self).shared.bet == bank,
            final(self).shared.pot == old(self).shared.pot,
            final(self).shared.shared == old(self).shared.shared,
            final(self).ante == old(self).ante,
            final(self).blinds@ == old(self).blinds@,
            final(self).log@ == old(self).log@,
    {
        self.agents.push(agent);
        self.hiddens.push(TexasStateHidden { hole: CardMask::none() });
        self.shared.agents.push(TexasStateSharedAgent { active: true, bank });
        self.shared.bet = bank;
    }

    /// The banks of the players, by seat.
    pub fn banks(&self) -> (r: Vec<Chips>)
        ensures
            r@.len() == self.shared.agents@.len(),
            forall|i: int| 0 <= i < r@.len() ==> r@[i] == self.shared.agents@[i].bank,
    {
        let mut out: Vec<Chips> = Vec::new();
        let mut i: usize = 0;
        while i < self.shared.agents.len()
            invariant
                i <= self.shared.agents@.len(),
                out@.len() == i,
                forall|j: int| 0 <= j < i ==> out@[j] == self.shared.agents@[j].bank,
            decreases self.shared.agents@.len() - i,
        {
            out.push(self.shared.agents[i].bank);
            i = i + 1;
        }
        out
    }

    /// Moves up to `amount` chips from the bank of player `id` to the pot.
    fn pay(&mut self, id: usize, amount: Chips) -> (r: (Chips, bool))
        requires
            old(self).wf(),
            id < old(self).shared.agents@.len(),
            old(self).chips() <= u64::MAX,
        ensures
            final(self).wf(),
            r.0.0 == lesser(amount.0 as nat, old(self).shared.agents@[id as int].bank.0 as nat),
            r.1 == (final(self).shared.agents@[id as int].bank.0 == 0),
            final(self).shared.agents@ == old(self).shared.agents@.update(
                id as int,
                TexasStateSharedAgent {
                    active: old(self).shared.agents@[id as int].active,
                    bank: Chips((old(self).shared.agents@[id as int].bank.0 - r.0.0) as u64),
                },
            ),
            final(self).shared.pot.0 == old(self).shared.pot.0 + r.0.0,
            final(self).chips() == old(self).chips(),
            banks_sum(final(self).shared.agents@) == banks_sum(old(self).shared.agents@) - r.0.0,
            final(self).shared.shared == old(self).shared.shared,
            final(self).shared.bet == old(self).shared.bet,
            final(self).hiddens@ == old(self).hiddens@,
            final(self).agents@ == old(self).agents@,
            final(self).log@ == old(self).log@,
            final(self).ante == old(self).ante,
            final(self).blinds@ == old(self).blinds@,
    {
        let old_agent = self.shared.agents[id];
        proof {
            lemma_bank_below_sum(self.shared.agents@, id as int);
        }
        let mut bank = old_agent.bank;
        let r = transfer_capped(&mut self.shared.pot, &mut bank, amount);
        let ghost before = self.shared.agents@;
        self.shared.agents.set(id, TexasStateSharedAgent { active: old_agent.active, bank });
        proof {
            lemma_banks_sum_update(before, id as int, TexasStateSharedAgent { active: old_agent.active, bank });
        }
        r
    }

    /// Marks player `id` as folded.
    fn fold(&mut self, id: usize)
        requires
            old(self).wf(),
            id < old(self).shared.agents@.len(),
        ensures
            final(self).wf(),
            final(self).shared.agents@ == old(self).shared.agents@.update(
                id as int,
                TexasStateSharedAgent { active: false, bank: old(self).shared.agents@[id as int].bank },
            ),
            final(self).chips() == old(self).chips(),
            banks_sum(final(self).shared.agents@) == banks_sum(old(self).shared.agents@),
            final(self).shared.pot == old(self).shared.pot,
            final(self).shared.shared == old(self).shared.shared,
            final(self).shared.bet == old(self).shared.bet,
            final(self).hiddens@ == old(self).hiddens@,
            final(self).agents@ == old(self).agents@,
            final(self).log@ == old(self).log@,
            final(self).ante == old(self).ante,
            final(self).blinds@ == old(self).blinds@,
    {
        let bank = self.shared.agents[id].bank;
        let ghost before = self.shared.agents@;
        self.shared.agents.set(id, TexasStateSharedAgent { active: false, bank });
        proof {
            lemma_banks_sum_update(before, id as int, TexasStateSharedAgent { active: false, bank });
        }
    }

    /// A round of betting that starts with forced bets: each player pays its forced bet (all it
    /// has if less), and must then have put in as much as the largest forced bet to stay in the
    /// hand. Action starts at seat `start` and goes around the table until it comes back to the
    /// last player who raised (or to `start`, if nobody did). A player asked for chips decides;
    /// an offer below what is asked counts as a fold, a player puts in no more than its bank,
    /// and a player putting in more than asked raises. Folded players and players with no chips
    /// left are skipped. A player whose whole bank is less than what is asked may still call
    /// with all of it. The round always completes. Each decision is logged, then what it gives.
    #[verifier::rlimit(100)]
    #[verifier::spinoff_prover]
    pub fn round_forced(&mut self, start: PlayerID, forced: &[Chips])
        requires
            old(self).wf(),
            old(self).shared.agents@.len() >= 1,
            (start as int) < old(self).shared.agents@.len(),
            1 <= forced@.len() <= old(self).shared.agents@.len(),
            old(self).chips() <= u64::MAX,
        ensures
            final(self).wf(),
            final(self).shared.agents@.len() == old(self).shared.agents@.len(),
            final(self).chips() == old(self).chips(),
            final(self).hiddens@ == old(self).hiddens@,
            final(self).shared.shared == old(self).shared.shared,
            final(self).agents@ == old(self).agents@,
            final(self).ante == old(self).ante,
            final(self).blinds@ == old(self).blinds@,
            forall|i: int| 0 <= i < old(self).shared.agents@.len() ==> {
                &&& final(self).shared.agents@[i].bank.0 <= old(self).shared.agents@[i].bank.0
                &&& final(self).shared.agents@[i].active ==> old(self).shared.agents@[i].active
            },
            forall|i: int| 0 <= i < forced@.len() ==> final(self).shared.agents@[i].bank.0 + lesser(
                forced@[i].0 as nat,
                old(self).shared.agents@[i].bank.0 as nat,
            ) <= old(self).shared.agents@[i].bank.0,
            final(self).shared.agents@ == apply_events(
                after_forced(old(self).shared.agents@, forced@),
                final(self).log@.subrange(old(self).log@.len() as int + 2, final(self).log@.len() as int),
            ),
            decisions_followed(
                after_forced(old(self).shared.agents@, forced@),
                final(self).log@.subrange(old(self).log@.len() as int + 2, final(self).log@.len() as int),
            ),
            decisions_made(
                old(self).agents@,
                old(self).hiddens@,
                old(self).shared.shared,
                after_forced(old(self).shared.agents@, forced@),
                final(self).log@.take(old(self).log@.len() as int + 2),
                final(self).log@.subrange(old(self).log@.len() as int + 2, final(self).log@.len() as int),
            ),
            first_actor(after_forced(old(self).shared.agents@, forced@), start as int, 0) matches Some(f) ==> {
                &&& final(self).log@.len() > old(self).log@.len() + 2
                &&& final(self).log@[old(self).log@.len() as int + 2] matches TexasEvent::Decision { id, .. }
                &&& id as int == f
            },
            round_complete(old(self).shared.agents@, final(self).shared.agents@),
            final(self).log@.len() >= old(self).log@.len() + 2,
            final(self).log@.subrange(0, old(self).log@.len() as int) == old(self).log@,
            final(self).log@[old(self).log@.len() as int] matches TexasEvent::Banks { banks } && banks@
                == old(self).shared.agents@.map_values(|a: TexasStateSharedAgent| a.bank),
            final(self).log@[old(self).log@.len() as int + 1] matches TexasEvent::AskTotal { amount } && amount.0
                == seq_max(forced@),
    {
        let n = self.shared.agents.len();
        let ghost old_agents = self.shared.agents@;
        let ghost old_log = self.log@;
        let ghost chips0 = self.chips();
        let banks = self.banks();
        proof {
            assert(banks@ =~= old_agents.map_values(|a: TexasStateSharedAgent| a.bank));
        }
        self.log.push(TexasEvent::Banks { banks });
        // what each player has put in during this round
        let mut paid: Vec<Chips> = Vec::new();
        let mut k: usize = 0;
        while k < n
            invariant
                k <= n,
                paid@.len() == k,
                forall|i: int| 0 <= i < k ==> (#[trigger] paid@[i]).0 == 0,
            decreases n - k,
        {
            paid.push(Chips::new(0));
            k = k + 1;
        }
        // the forced bets are collected first, so a player that folds still pays them
        let mut k: usize = 0;
        while k < forced.len()
            invariant
                self.wf(),
                n == self.shared.agents@.len(),
                n == old_agents.len(),
                k <= forced@.len() <= n,
                paid@.len() == n,
                self.chips() == chips0,
                chips0 <= u64::MAX,
                forall|i: int| 0 <= i < n ==> (#[trigger] paid@[i]).0 + self.shared.agents@[i].bank.0 == old_agents[i].bank.0,
                forall|i: int| 0 <= i < n ==> self.shared.agents@[i].active == (#[trigger] old_agents[i]).active,
                forall|i: int| 0 <= i < k ==> (#[trigger] paid@[i]).0 == lesser(forced@[i].0 as nat, old_agents[i].bank.0 as nat),
                forall|i: int| k <= i < n ==> (#[trigger] paid@[i]).0 == 0,
                self.hiddens@ == old(self).hiddens@,
                self.shared.shared == old(self).shared.shared,
                self.agents@ == old(self).agents@,
                self.ante == old(self).ante,
                self.blinds@ == old(self).blinds@,
                self.log@ == old_log.push(TexasEvent::Banks { banks }),
            decreases forced@.len() - k,
        {
            assert(paid@[k as int].0 == 0);
            let ghost bank_k = self.shared.agents@[k as int].bank.0;
            assert(bank_k == old_agents[k as int].bank.0);
            let (actual, _) = self.pay(k, forced[k]);
            paid.set(k, actual);
            proof {
                assert forall|i: int| 0 <= i < n implies (#[trigger] paid@[i]).0 + self.shared.agents@[i].bank.0 == old_agents[i].bank.0 by {
                    if i != k {
                    }
                }
            }
            k = k + 1;
        }
        // to stay in the hand, every player must put in as much as the largest forced bet
        let mut ask_total = Chips::new(0);
        let mut k: usize = 0;
        while k < forced.len()
            invariant
                k <= forced@.len(),
                ask_total.0 == seq_max(forced@.take(k as int)),
            decreases forced@.len() - k,
        {
            proof {
                assert(forced@.take(k + 1).drop_last() =~= forced@.take(k as int));
            }
            if forced[k].0 > ask_total.0 {
                ask_total = forced[k];
            }
            k = k + 1;
        }
        proof {
            assert(forced@.take(forced@.len() as int) =~= forced@);
            lemma_seq_max(forced@);
        }
        self.log.push(TexasEvent::AskTotal { amount: ask_total });
        let ghost log2 = self.log@;
        proof {
            assert(log2.subrange(0, old(self).log@.len() as int) =~= old(self).log@);
            assert(self.log@.subrange(log2.len() as int, self.log@.len() as int) =~= Seq::<TexasEvent>::empty());
            reveal(decisions_followed);
            reveal(decisions_made);
            assert(self.shared.agents@ =~= after_forced(old_agents, forced@)) by {
                assert forall|j: int| 0 <= j < n implies self.shared.agents@[j] == after_forced(old_agents, forced@)[j] by {
                    assert(paid@[j].0 + self.shared.agents@[j].bank.0 == old_agents[j].bank.0);
                }
            }
        }
        let mut id_when_stop: Option<PlayerID> = None;
        let mut id: PlayerID = start;
        // the seats visited since the last raise (or since the start): `c` of them, from the seat
        // where the action stops
        let ghost mut c: int = 0;
        loop
            invariant
                self.wf(),
                n == self.shared.agents@.len(),
                n == old_agents.len(),
                n >= 1,
                (id as int) < n,
                forced@.len() <= n,
                paid@.len() == n,
                self.chips() == chips0,
                chips0 <= u64::MAX,
                forall|i: int| 0 <= i < n ==> (#[trigger] paid@[i]).0 + self.shared.agents@[i].bank.0 == old_agents[i].bank.0,
                forall|i: int| 0 <= i < n ==> (#[trigger] paid@[i]).0 <= ask_total.0,
                forall|i: int| 0 <= i < forced@.len() ==> (#[trigger] paid@[i]).0 >= lesser(forced@[i].0 as nat, old_agents[i].bank.0 as nat),
                forall|i: int| 0 <= i < n ==> self.shared.agents@[i].active ==> (#[trigger] old_agents[i]).active,
                id_when_stop matches Some(s) ==> (s as int) < n,
                self.hiddens@ == old(self).hiddens@,
                self.shared.shared == old(self).shared.shared,
                self.agents@ == old(self).agents@,
                self.ante == old(self).ante,
                self.blinds@ == old(self).blinds@,
                self.log@.len() >= log2.len(),
                self.log@.subrange(0, log2.len() as int) == log2,
                old_agents == old(self).shared.agents@,
                chips0 == old(self).chips(),
                log2.len() == old(self).log@.len() + 2,
                log2.subrange(0, old(self).log@.len() as int) == old(self).log@,
                log2[old(self).log@.len() as int] matches TexasEvent::Banks { banks } && banks@
                    == old(self).shared.agents@.map_values(|a: TexasStateSharedAgent| a.bank),
                log2[old(self).log@.len() as int + 1] matches TexasEvent::AskTotal { amount } && amount.0
                    == seq_max(forced@),
                (start as int) < n,
                self.shared.agents@ == apply_events(
                    after_forced(old_agents, forced@),
                    self.log@.subrange(log2.len() as int, self.log@.len() as int),
                ),
                decisions_followed(after_forced(old_agents, forced@), self.log@.subrange(log2.len() as int, self.log@.len() as int)),
                self.log@.len() == log2.len() ==> self.shared.agents@ == after_forced(old_agents, forced@) && match id_when_stop {
                    None => id == start,
                    Some(st) => st == start && first_actor(after_forced(old_agents, forced@), start as int, 0) == first_actor(after_forced(old_agents, forced@), start as int, c as nat),
                },
                self.log@.len() > log2.len() ==> (self.log@[log2.len() as int] matches TexasEvent::Decision { id: i0, .. }
                    && first_actor(after_forced(old_agents, forced@), start as int, 0) == Some(i0 as int)),
                decisions_made(self.agents@, self.hiddens@, self.shared.shared, after_forced(old_agents, forced@), log2, self.log@.subrange(log2.len() as int, self.log@.len() as int)),
                match id_when_stop {
                    Some(s) => 1 <= c <= n && id as int == (s as int + c) % (n as int) && forall|k: int| 0 <= k < c
                        ==> #[trigger] settled(
                            self.shared.agents@[(s as int + k) % (n as int)],
                            paid@[(s as int + k) % (n as int)].0 as int,
                            ask_total.0 as int,
                        ),
                    None => id == start,
                },
            ensures
                id_when_stop matches Some(s) && id == s,
            decreases
                banks_sum(self.shared.agents@),
                match id_when_stop {
                    Some(s) => (s as int - id as int) % (n as int),
                    None => n as int,
                },
        {
            if let Some(s) = id_when_stop {
                if id == s {
                    break;
                }
            }
            let ghost sum_before = banks_sum(self.shared.agents@);
            let ghost agents_b = self.shared.agents@;
            let ghost paid_b = paid@;
            let ghost ask_b = ask_total.0 as int;
            let ghost stop_b = id_when_stop;
            let ghost empty_b = self.log@.len() == log2.len();
            let ghost c_b = c;
            let ghost log_b = self.log@;
            let mut raised = false;
            let i = id as usize;
            if self.shared.agents[i].active && self.shared.agents[i].bank.0 > 0 {
                let ask = Chips::new(ask_total.0 - paid[i].0);
                self.shared.bet = ask;
                let action = {
                    let state = TexasAgentState {
                        id,
                        hidden: &self.hiddens[i],
                        shared: &self.shared,
                        log: self.log.as_slice(),
                    };
                    self.agents[i].decide(&state)
                };
                let offer = action.amount;
                let ghost sub_d = self.log@.subrange(log2.len() as int, self.log@.len() as int);
                let ghost state_d = self.shared.agents@;
                let ghost log_d = self.log@;
                let ghost shown = self.shared;
                proof {
                    assert(log_d =~= log2 + sub_d) by {
                        assert forall|t: int| 0 <= t < log2.len() implies log_d[t] == log2[t] by {
                            assert(log_d.subrange(0, log2.len() as int)[t] == log2[t]);
                        }
                    }
                    assert(action == (TexasAgentAction { amount: offer }));
                    assert(self.agents@[i as int].decides(id, self.hiddens@[i as int], shown, log2 + sub_d, TexasAgentAction { amount: offer }));
                    assert(shown.agents@ == apply_events(after_forced(old_agents, forced@), sub_d));
                    assert(shown.bet == ask);
                    assert(shown.shared == self.shared.shared);
                    assert((id as int) < self.agents@.len());
                    assert(self.hiddens@[id as int] == self.hiddens@[i as int]);
                    assert(self.agents@[id as int].decides(id, self.hiddens@[id as int], shown, log2 + sub_d, TexasAgentAction { amount: offer }));
                    lemma_made_decision(self.agents@, self.hiddens@, self.shared.shared, after_forced(old_agents, forced@), log2, sub_d, id, ask, offer, shown);
                }
                self.log.push(TexasEvent::Decision { id, ask, offer });
                proof {
                    lemma_events_push(after_forced(old_agents, forced@), log_d, log2.len() as int, sub_d, TexasEvent::Decision { id, ask, offer });
                }
                let ghost mut e_out: TexasEvent = TexasEvent::WinOrder;
                let (amount, too_small) = sanitize(ask, offer);
                if too_small {
                    let ghost sub0 = self.log@.subrange(log2.len() as int, self.log@.len() as int);
                    let ghost log0 = self.log@;
                    self.log.push(TexasEvent::TooSmall { id, ask });
                    proof {
                        lemma_events_push(after_forced(old_agents, forced@), log0, log2.len() as int, sub0, TexasEvent::TooSmall { id, ask });
                    }
                }
                let ghost state_mid = self.shared.agents@;
                let ghost sub_mid = self.log@.subrange(log2.len() as int, self.log@.len() as int);
                let ghost log_mid = self.log@;
                proof {
                    lemma_bank_below_sum(self.shared.agents@, i as int);
                }
                let ghost paid_before = paid@;
                let (actual, allin) = self.pay(i, amount);
                paid.set(i, Chips::new(paid[i].0 + actual.0));
                match classify(ask, actual) {
                    Move::Fold => {
                        self.fold(i);
                        self.log.push(TexasEvent::Fold { id });
                        proof {
                            let e = TexasEvent::Fold { id };
                            assert(self.shared.agents@ =~= apply_event(state_mid, e));
                            lemma_events_push(after_forced(old_agents, forced@), log_mid, log2.len() as int, sub_mid, e);
                            assert(e == decision_event(state_d, id, ask, offer));
                            e_out = e;
                        }
                    },
                    Move::Check => {
                        self.log.push(TexasEvent::Check { id });
                        proof {
                            let e = TexasEvent::Check { id };
                            assert(self.shared.agents@ =~= apply_event(state_mid, e));
                            lemma_events_push(after_forced(old_agents, forced@), log_mid, log2.len() as int, sub_mid, e);
                            assert(e == decision_event(state_d, id, ask, offer));
                            e_out = e;
                        }
                    },
                    Move::Call => {
                        self.log.push(TexasEvent::Call { id, amount: actual, allin });
                        proof {
                            let e = TexasEvent::Call { id, amount: actual, allin };
                            assert(self.shared.agents@ =~= apply_event(state_mid, e));
                            lemma_events_push(after_forced(old_agents, forced@), log_mid, log2.len() as int, sub_mid, e);
                            assert(e == decision_event(state_d, id, ask, offer));
                            e_out = e;
                        }
                    },
                    Move::Raise => {
                        // wait for the action to come back to this player
                        id_when_stop = Some(id);
                        ask_total = Chips::new(ask_total.0 + (actual.0 - ask.0));
                        raised = true;
                        self.log.push(TexasEvent::Raise { id, amount: actual, allin });
                        proof {
                            let e = TexasEvent::Raise { id, amount: actual, allin };
                            assert(self.shared.agents@ =~= apply_event(state_mid, e));
                            lemma_events_push(after_forced(old_agents, forced@), log_mid, log2.len() as int, sub_mid, e);
                            assert(e == decision_event(state_d, id, ask, offer));
                            e_out = e;
                        }
                    },
                    Move::Short => {
                        // less than asked only when the player's whole bank was less: an all-in call
                        self.log.push(TexasEvent::Call { id, amount: actual, allin });
                        proof {
                            let e = TexasEvent::Call { id, amount: actual, allin };
                            assert(self.shared.agents@ =~= apply_event(state_mid, e));
                            lemma_events_push(after_forced(old_agents, forced@), log_mid, log2.len() as int, sub_mid, e);
                            assert(e == decision_event(state_d, id, ask, offer));
                            e_out = e;
                        }
                    },
                }
                proof {
                    let mid: Seq<TexasEvent> = if 0 < offer.0 < ask.0 { seq![TexasEvent::TooSmall { id, ask }] } else { Seq::empty() };
                    assert(apply_events(after_forced(old_agents, forced@), sub_d) == state_d);
                    lemma_followed_push(after_forced(old_agents, forced@), sub_d, id, ask, offer, e_out);
                    lemma_made_end(self.agents@, self.hiddens@, self.shared.shared, after_forced(old_agents, forced@), log2, sub_d, id, ask, offer, e_out);
                    assert(self.log@.subrange(log2.len() as int, self.log@.len() as int) =~= sub_d + seq![TexasEvent::Decision { id, ask, offer }]
                        + mid + seq![e_out]);
                    if empty_b {
                        assert(sub_d.len() == 0);
                        assert(self.log@[log2.len() as int] == self.log@.subrange(log2.len() as int, self.log@.len() as int)[0]);
                        assert(self.log@[log2.len() as int] == TexasEvent::Decision { id, ask, offer });
                    }
                }
            }
            proof {
                let ii = id as int;
                let af = after_forced(old_agents, forced@);
                if empty_b {
                    let v: nat = if stop_b is None { 0 } else { c_b as nat };
                    assert(agents_b == af);
                    if stop_b is Some {
                        assert(c_b < n) by {
                            lemma_seat_at(start as int, c_b, n as int);
                        }
                    }
                    assert((start as int + v) % (n as int) == ii) by {
                        lemma_seat_at(start as int, 0, n as int);
                    }
                    assert(v < n);
                    assert(first_actor(af, start as int, v) == if can_act(af, ii) { Some(ii) } else { first_actor(af, start as int, v + 1) });
                    if can_act(af, ii) {
                        assert(self.log@.len() > log2.len());
                        assert(self.log@[log2.len() as int] is Decision && self.log@[log2.len() as int]->Decision_id == id);
                    } else {
                        assert(self.log@ == log_b);
                    }
                }
                assert forall|j: int| 0 <= j < n && j != ii implies self.shared.agents@[j] == agents_b[j] && paid@[j] == paid_b[j] by {
                }
                assert(settled(self.shared.agents@[ii], paid@[ii].0 as int, ask_total.0 as int));
                assert(!raised ==> ask_total.0 == ask_b);
            }
            let ghost stop_before = id_when_stop;
            if id_when_stop.is_none() {
                id_when_stop = Some(id);
            }
            proof {
                let nn = n as int;
                let ii = id as int;
                lemma_seat_at(ii, 1, nn);
                if raised || stop_b is None {
                    c = 1;
                    lemma_seat_at(ii, 0, nn);
                    assert(id_when_stop == Some(id));
                    assert forall|k: int| 0 <= k < c implies #[trigger] settled(
                        self.shared.agents@[(ii + k) % nn],
                        paid@[(ii + k) % nn].0 as int,
                        ask_total.0 as int,
                    ) by {
                        assert(k == 0);
                    }
                } else {
                    let sb = stop_b.unwrap() as int;
                    let c0 = c;
                    lemma_seat_at(sb, c0, nn);
                    assert(c0 < nn);
                    assert forall|k: int| 0 <= k < c0 + 1 implies #[trigger] settled(
                        self.shared.agents@[(sb + k) % nn],
                        paid@[(sb + k) % nn].0 as int,
                        ask_total.0 as int,
                    ) by {
                        lemma_seat_at(sb, k, nn);
                        if k < c0 {
                            assert(settled(agents_b[(sb + k) % nn], paid_b[(sb + k) % nn].0 as int, ask_b));
                        }
                    }
                    c = c0 + 1;
                    lemma_seat_at(sb, c, nn);
                }
            }
            proof {
                lemma_next_seat(id_when_stop.unwrap() as int, id as int, n as int);
                if let Some(sb) = stop_before {
                    lemma_next_seat(sb as int, id as int, n as int);
                }
            }
            id = ((id as usize + 1) % n) as PlayerID;
            proof {
                lemma_next_seat(id_when_stop.unwrap() as int, (id as int + n - 1) % (n as int), n as int);
            }
        }
        proof {
            let nn = n as int;
            let sb = id_when_stop.unwrap() as int;
            lemma_seat_at(sb, c, nn);
            assert(c == nn);
            if self.log@.len() == log2.len() {
                assert(first_actor(after_forced(old_agents, forced@), start as int, c as nat) is None);
            }
            assert forall|j: int| 0 <= j < nn implies #[trigger] settled(self.shared.agents@[j], paid@[j].0 as int, ask_total.0 as int) by {
                let k = if j >= sb { j - sb } else { j - sb + nn };
                lemma_seat_at(sb, k, nn);
                assert((sb + k) % nn == j);
            }
            assert(round_complete(old(self).shared.agents@, self.shared.agents@)) by {
                let a = ask_total.0 as int;
                assert forall|i: int, j: int| 0 <= i < nn && 0 <= j < nn && (#[trigger] self.shared.agents@[j]).active
                    && self.shared.agents@[j].bank.0 > 0
                    implies old_agents[i].bank.0 - (#[trigger] self.shared.agents@[i]).bank.0 <= old_agents[j].bank.0
                    - self.shared.agents@[j].bank.0 by {
                    assert(paid@[i].0 + self.shared.agents@[i].bank.0 == old_agents[i].bank.0);
                    assert(paid@[j].0 + self.shared.agents@[j].bank.0 == old_agents[j].bank.0);
                    assert(settled(self.shared.agents@[j], paid@[j].0 as int, a));
                }
            }
        }
        proof {
            assert forall|j: int| 0 <= j < old(self).shared.agents@.len() implies {
                &&& self.shared.agents@[j].bank.0 <= old(self).shared.agents@[j].bank.0
                &&& self.shared.agents@[j].active ==> old(self).shared.agents@[j].active
            } by {
                assert(paid@[j].0 + self.shared.agents@[j].bank.0 == old_agents[j].bank.0);
            }
            assert forall|j: int| 0 <= j < forced@.len() implies self.shared.agents@[j].bank.0 + lesser(
                forced@[j].0 as nat,
                old(self).shared.agents@[j].bank.0 as nat,
            ) <= old(self).shared.agents@[j].bank.0 by {
                assert(paid@[j].0 + self.shared.agents@[j].bank.0 == old_agents[j].bank.0);
            }
            assert(self.log@.subrange(0, old(self).log@.len() as int) =~= old(self).log@) by {
                assert forall|t: int| 0 <= t < old(self).log@.len() implies self.log@[t] == old(self).log@[t] by {
                    assert(self.log@[t] == self.log@.subrange(0, log2.len() as int)[t]);
                    assert(log2[t] == log2.subrange(0, old(self).log@.len() as int)[t]);
                }
            }
            assert(self.log@[old(self).log@.len() as int] == self.log@.subrange(0, log2.len() as int)[old(self).log@.len() as int]);
            assert(self.log@[old(self).log@.len() as int + 1] == self.log@.subrange(0, log2.len() as int)[old(self).log@.len() as int + 1]);
        }
    }


    /// The showdown: every player's best hand of its hole cards and the shared cards is found;
    /// the players still in the hand show it, and then all players are listed from the best hand
    /// down, in groups of equal hands. The pot then goes to the players still in the hand with
    /// the strongest hand, shared evenly, the lowest seat among them taking what is left of an
    /// uneven split.
    #[verifier::spinoff_prover]
    pub fn showdown(&mut self)
        requires
            old(self).wf(),
            old(self).chips() <= u64::MAX,
        ensures
            final(self).wf(),
            final(self).shared.agents@.len() == old(self).shared.agents@.len(),
            forall|t: int| 0 <= t < old(self).shared.agents@.len() ==> #[trigger] final(self).shared.agents@[t] == (TexasStateSharedAgent {
                active: old(self).shared.agents@[t].active,
                bank: Chips((old(self).shared.agents@[t].bank.0 + payout(
                    old(self).shared.agents@,
                    showdown_hands(old(self).hiddens@, old(self).shared.shared),
                    old(self).shared.pot.0 as nat,
                    t,
                )) as u64),
            }),
            best_below(old(self).shared.agents@, showdown_hands(old(self).hiddens@, old(self).shared.shared), old(self).shared.agents@.len()) is Some
                ==> final(self).shared.pot.0 == 0,
            best_below(old(self).shared.agents@, showdown_hands(old(self).hiddens@, old(self).shared.shared), old(self).shared.agents@.len()) is None
                ==> final(self).shared.pot == old(self).shared.pot,
            final(self).chips() == old(self).chips(),
            final(self).shared.shared == old(self).shared.shared,
            final(self).hiddens@ == old(self).hiddens@,
            final(self).agents@ == old(self).agents@,
            final(self).ante == old(self).ante,
            final(self).blinds@ == old(self).blinds@,
            exists|r: Seq<usize>|
                #[trigger] showdown_order(r, showdown_hands(old(self).hiddens@, old(self).shared.shared))
                && final(self).log@ == old(self).log@ + seq![TexasEvent::Showdown { pot: old(self).shared.pot, shared: old(self).shared.shared }]
                    + holding_events(old(self).shared.agents@, old(self).hiddens@, old(self).shared.shared, old(self).hiddens@.len())
                    + seq![TexasEvent::WinOrder] + win_events(r, showdown_hands(old(self).hiddens@, old(self).shared.shared), r.len())
                    + award_events(old(self).shared.agents@, showdown_hands(old(self).hiddens@, old(self).shared.shared), old(self).shared.pot.0 as nat, old(self).shared.agents@.len()),
    {
        let n = self.hiddens.len();
        let engine = RefHand5::new();
        let ghost base = self.log@;
        self.log.push(TexasEvent::Showdown { pot: self.shared.pot, shared: self.shared.shared });
        let ghost spec_hands = showdown_hands(self.hiddens@, self.shared.shared);
        let mut hands: Vec<Hand> = Vec::new();
        let mut codes: Vec<u64> = Vec::new();
        let mut id: usize = 0;
        while id < n
            invariant
                self.wf(),
                n == self.hiddens@.len(),
                id <= n,
                hands@.len() == id,
                codes@.len() == id,
                spec_hands == showdown_hands(self.hiddens@, self.shared.shared),
                forall|t: int| 0 <= t < id ==> (#[trigger] hands@[t]) == spec_hands[t] && codes@[t] == hand_code(spec_hands[t]),
                self.log@ == base + seq![TexasEvent::Showdown { pot: self.shared.pot, shared: self.shared.shared }]
                    + holding_events(self.shared.agents@, self.hiddens@, self.shared.shared, id as nat),
                self.shared.agents@ == old(self).shared.agents@,
                self.shared.shared == old(self).shared.shared,
                self.shared.pot == old(self).shared.pot,
                self.hiddens@ == old(self).hiddens@,
                self.agents@ == old(self).agents@,
                self.ante == old(self).ante,
                self.blinds@ == old(self).blinds@,
                base == old(self).log@,
            decreases n - id,
        {
            let hole = self.hiddens[id].hole;
            let hand = engine.hand5(hole.union(self.shared.shared));
            proof {
                hand.lemma_fields_bound();
            }
            hands.push(hand);
            codes.push(hand.strength());
            if self.shared.agents[id].active {
                self.log.push(TexasEvent::Holding { id: id as u64, hole, hand });
            } else {
                self.log.push(TexasEvent::Folded { id: id as u64 });
            }
            proof {
                assert(self.log@ =~= base + seq![TexasEvent::Showdown { pot: self.shared.pot, shared: self.shared.shared }]
                    + holding_events(self.shared.agents@, self.hiddens@, self.shared.shared, (id + 1) as nat));
            }
            id = id + 1;
        }
        self.log.push(TexasEvent::WinOrder);
        let ghost head = self.log@;
        let r = rank_players(&codes);
        proof {
            assert(hands@ =~= spec_hands);
        }
        let mut last: Option<Hand> = None;
        let mut g: u64 = 0;
        let mut k: usize = 0;
        while k < n
            invariant
                self.wf(),
                n == self.hiddens@.len(),
                k <= n,
                r@.len() == n,
                hands@ == spec_hands,
                hands@.len() == n,
                forall|i: int| 0 <= i < r@.len() ==> (#[trigger] r@[i]) < n,
                g == groups(r@, hands@, k as nat),
                g <= k,
                k == 0 ==> last is None,
                k > 0 ==> last == Some(hands@[r@[k - 1] as int]),
                self.log@ == head + win_events(r@, hands@, k as nat),
                self.shared.agents@ == old(self).shared.agents@,
                self.shared.shared == old(self).shared.shared,
                self.shared.pot == old(self).shared.pot,
                self.hiddens@ == old(self).hiddens@,
                self.agents@ == old(self).agents@,
                self.ante == old(self).ante,
                self.blinds@ == old(self).blinds@,
            decreases n - k,
        {
            let who = r[k];
            let hand = hands[who];
            let start = match last {
                None => true,
                Some(h) => h != hand,
            };
            if start {
                last = Some(hand);
                g = g + 1;
                self.log.push(TexasEvent::WinGroup { group: g });
            }
            self.log.push(TexasEvent::Ranked { id: who as u64, hand });
            proof {
                assert(self.log@ =~= head + win_events(r@, hands@, (k + 1) as nat));
            }
            k = k + 1;
        }
        let ghost before_award = self.log@;
        self.award_pot(&codes, Ghost(spec_hands));
        proof {
            let hands_s = showdown_hands(old(self).hiddens@, old(self).shared.shared);
            assert(self.log@ == before_award + award_events(old(self).shared.agents@, hands_s, old(self).shared.pot.0 as nat, old(self).shared.agents@.len()));
            assert(showdown_order(r@, hands_s)) by {
                assert forall|i: int, j: int| 0 <= i < j < r@.len() implies ranks_before(hand_code(hands_s[r@[i] as int]), r@[i] as nat, hand_code(hands_s[r@[j] as int]), r@[j] as nat) by {
                    assert(codes@[r@[i] as int] == hand_code(hands_s[r@[i] as int]));
                    assert(codes@[r@[j] as int] == hand_code(hands_s[r@[j] as int]));
                }
            }
        }
    }


    /// Shares the pot out among the players still in the hand with the strongest hand, `codes`
    /// being the strengths of the hands by seat.
    fn award_pot(&mut self, codes: &Vec<u64>, hands: Ghost<Seq<Hand>>)
        requires
            old(self).wf(),
            old(self).chips() <= u64::MAX,
            codes@.len() == old(self).shared.agents@.len(),
            hands@.len() == codes@.len(),
            forall|t: int| 0 <= t < codes@.len() ==> codes@[t] == hand_code(#[trigger] hands@[t]),
        ensures
            final(self).wf(),
            final(self).shared.agents@.len() == old(self).shared.agents@.len(),
            forall|t: int| 0 <= t < old(self).shared.agents@.len() ==> #[trigger] final(self).shared.agents@[t] == (TexasStateSharedAgent {
                active: old(self).shared.agents@[t].active,
                bank: Chips((old(self).shared.agents@[t].bank.0 + payout(old(self).shared.agents@, hands@, old(self).shared.pot.0 as nat, t)) as u64),
            }),
            best_below(old(self).shared.agents@, hands@, old(self).shared.agents@.len()) is Some ==> final(self).shared.pot.0 == 0,
            best_below(old(self).shared.agents@, hands@, old(self).shared.agents@.len()) is None ==> final(self).shared.pot == old(self).shared.pot,
            final(self).chips() == old(self).chips(),
            final(self).shared.shared == old(self).shared.shared,
            final(self).hiddens@ == old(self).hiddens@,
            final(self).agents@ == old(self).agents@,
            final(self).ante == old(self).ante,
            final(self).blinds@ == old(self).blinds@,
            final(self).log@ == old(self).log@ + award_events(old(self).shared.agents@, hands@, old(self).shared.pot.0 as nat, old(self).shared.agents@.len()),
    {
        let n = codes.len();
        let ghost agents0 = self.shared.agents@;
        let ghost pot0 = self.shared.pot.0 as nat;
        let ghost log0 = self.log@;
        // the strongest hand still in
        let mut best: Option<u64> = None;
        let mut id: usize = 0;
        while id < n
            invariant
                id <= n,
                n == agents0.len(),
                self.shared.agents@ == agents0,
                codes@.len() == n,
                hands@.len() == n,
                forall|t: int| 0 <= t < n ==> codes@[t] == hand_code(#[trigger] hands@[t]),
                match best {
                    Some(v) => best_below(agents0, hands@, id as nat) == Some(v as nat),
                    None => best_below(agents0, hands@, id as nat) is None,
                },
            decreases n - id,
        {
            if self.shared.agents[id].active {
                let c = codes[id];
                best = match best {
                    Some(v) => if c > v { Some(c) } else { Some(v) },
                    None => Some(c),
                };
            }
            id = id + 1;
        }
        let b = match best {
            Some(v) => v,
            None => {
                proof {
                    assert(award_events(agents0, hands@, pot0, n as nat) =~= Seq::empty()) by {
                        lemma_no_awards(agents0, hands@, pot0, n as nat);
                    }
                    assert(self.log@ =~= log0 + Seq::empty());
                }
                return;
            },
        };
        // how many hold it, and the lowest seat among them
        let mut count: u64 = 0;
        let mut first: Option<usize> = None;
        let mut id: usize = 0;
        while id < n
            invariant
                id <= n,
                n == agents0.len(),
                self.shared.agents@ == agents0,
                codes@.len() == n,
                hands@.len() == n,
                forall|t: int| 0 <= t < n ==> codes@[t] == hand_code(#[trigger] hands@[t]),
                count as nat == winners_below(agents0, hands@, b as nat, id as nat),
                count <= id,
                match first {
                    Some(v) => first_winner(agents0, hands@, b as nat, id as nat) == Some(v as nat),
                    None => first_winner(agents0, hands@, b as nat, id as nat) is None,
                },
            decreases n - id,
        {
            if self.shared.agents[id].active && codes[id] == b {
                count = count + 1;
                if first.is_none() {
                    first = Some(id);
                }
            }
            id = id + 1;
        }
        proof {
            lemma_best_held(agents0, hands@, n as nat);
        }
        let pot = self.shared.pot.0;
        let share = pot / count;
        let rest = pot % count;
        proof {
            assert(share * count + rest == pot) by (nonlinear_arith)
                requires share == pot / count, rest == pot % count, count > 0;
            assert(winners_below(agents0, hands@, b as nat, 0) == 0);
            assert(first_winner(agents0, hands@, b as nat, 0) is None);
            assert(share * 0nat == 0);
            assert(self.shared.pot.0 == pot0);
        }
        let mut id: usize = 0;
        while id < n
            invariant
                id <= n,
                n == agents0.len(),
                self.wf(),
                self.shared.agents@.len() == n,
                codes@.len() == n,
                hands@.len() == n,
                forall|t: int| 0 <= t < n ==> codes@[t] == hand_code(#[trigger] hands@[t]),
                best_below(agents0, hands@, n as nat) == Some(b as nat),
                count as nat == winners_below(agents0, hands@, b as nat, n as nat),
                count > 0,
                share == pot0 / (count as nat),
                rest == pot0 % (count as nat),
                share * count + rest == pot0,
                match first {
                    Some(v) => first_winner(agents0, hands@, b as nat, n as nat) == Some(v as nat),
                    None => false,
                },
                self.shared.pot.0 + share * winners_below(agents0, hands@, b as nat, id as nat) + (if first_winner(agents0, hands@, b as nat, id as nat) is Some { rest as int } else { 0 }) == pot0,
                forall|t: int| 0 <= t < id ==> #[trigger] self.shared.agents@[t] == (TexasStateSharedAgent {
                    active: agents0[t].active,
                    bank: Chips((agents0[t].bank.0 + payout(agents0, hands@, pot0, t)) as u64),
                }),
                forall|t: int| id <= t < n ==> #[trigger] self.shared.agents@[t] == agents0[t],
                self.chips() == old(self).chips(),
                old(self).chips() <= u64::MAX,
                self.shared.shared == old(self).shared.shared,
                self.hiddens@ == old(self).hiddens@,
                self.agents@ == old(self).agents@,
                self.ante == old(self).ante,
                self.blinds@ == old(self).blinds@,
                self.log@ == log0 + award_events(agents0, hands@, pot0, id as nat),
            decreases n - id,
        {
            let ghost pot_before = self.shared.pot.0;
            let ghost log_before = self.log@;
            proof {
                lemma_winners_grow(agents0, hands@, b as nat, (id + 1) as nat, n as nat);
                lemma_winners_grow(agents0, hands@, b as nat, id as nat, n as nat);
                lemma_winners_grow(agents0, hands@, b as nat, id as nat, (id + 1) as nat);
            }
            if self.shared.agents[id].active && codes[id] == b {
                let is_first = match first {
                    Some(f) => f == id,
                    None => false,
                };
                let ghost w = winners_below(agents0, hands@, b as nat, id as nat);
                proof {
                    assert(holds_best(agents0, hands@, b as nat, id as int));
                    assert(w + 1 <= count);
                    assert(share * (w + 1) <= share * count) by (nonlinear_arith)
                        requires w + 1 <= count;
                    if is_first {
                        assert(first_winner(agents0, hands@, b as nat, id as nat) is None) by {
                            if first_winner(agents0, hands@, b as nat, id as nat) is Some {
                                lemma_winners_grow(agents0, hands@, b as nat, id as nat, n as nat);
                            }
                        }
                    } else {
                        assert(first_winner(agents0, hands@, b as nat, id as nat) is Some) by {
                            if first_winner(agents0, hands@, b as nat, id as nat) is None {
                                assert(first_winner(agents0, hands@, b as nat, (id + 1) as nat) == Some(id as nat));
                            }
                        }
                    }
                    assert(share * (w + 1) == share * w + share) by (nonlinear_arith);
                }
                let amount: u64 = if is_first { share + rest } else { share };
                proof {
                    assert(payout(agents0, hands@, pot0, id as int) == amount);
                }
                self.take_from_pot(id, amount);
                self.log.push(TexasEvent::Award { id: id as u64, amount: Chips(amount) });
                proof {
                    assert(share * winners_below(agents0, hands@, b as nat, (id + 1) as nat) == share * w + share) by {
                        assert(winners_below(agents0, hands@, b as nat, (id + 1) as nat) == w + 1);
                    }
                }
            } else {
                proof {
                    assert(!holds_best(agents0, hands@, b as nat, id as int));
                    assert(payout(agents0, hands@, pot0, id as int) == 0);
                    assert(self.shared.agents@[id as int] == (TexasStateSharedAgent {
                        active: agents0[id as int].active,
                        bank: Chips((agents0[id as int].bank.0 + 0) as u64),
                    }));
                }
            }
            proof {
                assert(self.log@ =~= log0 + award_events(agents0, hands@, pot0, (id + 1) as nat));
            }
            id = id + 1;
        }
    }

    /// Moves `amount` chips from the pot to player `id`.
    fn take_from_pot(&mut self, id: usize, amount: u64)
        requires
            old(self).wf(),
            id < old(self).shared.agents@.len(),
            amount <= old(self).shared.pot.0,
            old(self).chips() <= u64::MAX,
        ensures
            final(self).wf(),
            final(self).shared.agents@ == old(self).shared.agents@.update(
                id as int,
                TexasStateSharedAgent {
                    active: old(self).shared.agents@[id as int].active,
                    bank: Chips((old(self).shared.agents@[id as int].bank.0 + amount) as u64),
                },
            ),
            final(self).shared.pot.0 == old(self).shared.pot.0 - amount,
            final(self).chips() == old(self).chips(),
            final(self).shared.shared == old(self).shared.shared,
            final(self).hiddens@ == old(self).hiddens@,
            final(self).agents@ == old(self).agents@,
            final(self).log@ == old(self).log@,
            final(self).ante == old(self).ante,
            final(self).blinds@ == old(self).blinds@,
    {
        let a = self.shared.agents[id];
        let ghost before = self.shared.agents@;
        proof {
            lemma_bank_below_sum(before, id as int);
        }
        let updated = TexasStateSharedAgent { active: a.active, bank: Chips(a.bank.0 + amount) };
        self.shared.agents.set(id, updated);
        self.shared.pot = Chips(self.shared.pot.0 - amount);
        proof {
            lemma_banks_sum_update(before, id as int, updated);
        }
    }

    /// Sets whether player `id` is in the hand.
    fn set_active(&mut self, id: usize, active: bool)
        requires
            old(self).wf(),
            id < old(self).shared.agents@.len(),
        ensures
            final(self).wf(),
            final(self).shared.agents@ == old(self).shared.agents@.update(
                id as int,
                TexasStateSharedAgent { active, bank: old(self).shared.agents@[id as int].bank },
            ),
            banks_sum(final(self).shared.agents@) == banks_sum(old(self).shared.agents@),
            final(self).shared.pot == old(self).shared.pot,
            final(self).shared.shared == old(self).shared.shared,
            final(self).hiddens@ == old(self).hiddens@,
            final(self).agents@ == old(self).agents@,
            final(self).log@ == old(self).log@,
            final(self).ante == old(self).ante,
            final(self).blinds@ == old(self).blinds@,
    {
        let bank = self.shared.agents[id].bank;
        let ghost before = self.shared.agents@;
        self.shared.agents.set(id, TexasStateSharedAgent { active, bank });
        proof {
            lemma_banks_sum_update(before, id as int, TexasStateSharedAgent { active, bank });
        }
    }

    /// Plays one hand: the hole cards are dealt, the forced bets collected and a round of betting
    /// played, then the flop, the turn and the river are dealt, each followed by a round of
    /// betting, and the showdown ends the hand. The pot starts empty; every player must have
    /// chips.
    #[verifier::rlimit(100)]
    #[verifier::spinoff_prover]
    pub fn execute(&mut self, rng: &mut ChaCha20Rng)
        requires
            old(self).wf(),
            old(self).shared.agents@.len() >= 1,
            2 * old(self).shared.agents@.len() + 5 <= 52,
            forall|i: int| 0 <= i < old(self).shared.agents@.len() ==> (#[trigger] old(self).shared.agents@[i]).bank.0 > 0,
            banks_sum(old(self).shared.agents@) <= u64::MAX,
            old(self).blinds@.len() < usize::MAX,
            forall|j: int| 0 <= j < old(self).shared.agents@.len() ==> #[trigger] forced_of(
                old(self).ante,
                old(self).blinds@,
                old(self).shared.agents@.len(),
                old(self).blinds@.len(),
            )[j] <= u64::MAX,
        ensures
            final(self).wf(),
            final(self).shared.agents@.len() == old(self).shared.agents@.len(),
            final(self).agents@ == old(self).agents@,
            final(self).ante == old(self).ante,
            final(self).blinds@ == old(self).blinds@,
            final(self).chips() == banks_sum(old(self).shared.agents@),
            (exists|i: int| 0 <= i < final(self).shared.agents@.len() && (#[trigger] final(self).shared.agents@[i]).active)
                ==> final(self).shared.pot.0 == 0,
            forall|i: int| 0 <= i < final(self).hiddens@.len() ==> count_below((#[trigger] final(self).hiddens@[i]).hole.0, 64) == 2,
            forall|i: int, j: int| 0 <= i < j < final(self).hiddens@.len() ==> disjoint_cards(#[trigger] final(self).hiddens@[i].hole.0, #[trigger] final(self).hiddens@[j].hole.0),
            forall|i: int| 0 <= i < final(self).hiddens@.len() ==> disjoint_cards(#[trigger] final(self).hiddens@[i].hole.0, final(self).shared.shared.0),
            count_below(final(self).shared.shared.0, 64) == 5,
            final(self).log@.len() >= old(self).log@.len() + 2,
            final(self).log@.subrange(0, old(self).log@.len() as int) == old(self).log@,
            final(self).log@[old(self).log@.len() as int] matches TexasEvent::Banks { banks } && banks@
                == old(self).shared.agents@.map_values(|a: TexasStateSharedAgent| a.bank),
            final(self).log@[old(self).log@.len() as int + 1] matches TexasEvent::AskTotal { amount } && amount.0
                == seq_max(forced_chips(old(self).ante, old(self).blinds@, old(self).shared.agents@.len())),
            first_actor(
                after_forced(seated(old(self).shared.agents@), forced_chips(old(self).ante, old(self).blinds@, old(self).shared.agents@.len())),
                (old(self).blinds@.len() as int + 1) % (old(self).shared.agents@.len() as int),
                0,
            ) matches Some(f) ==> {
                &&& final(self).log@.len() > old(self).log@.len() + 2
                &&& final(self).log@[old(self).log@.len() as int + 2] matches TexasEvent::Decision { id, .. }
                &&& id as int == f
            },
            exists|k: int|
                #![trigger final(self).log@[k]]
                old(self).log@.len() + 2 <= k < final(self).log@.len() && {
                    let ev = final(self).log@.subrange(old(self).log@.len() as int + 2, k);
                    let a0 = after_forced(
                        seated(old(self).shared.agents@),
                        forced_chips(old(self).ante, old(self).blinds@, old(self).shared.agents@.len()),
                    );
                    let pre = apply_events(a0, ev);
                    &&& count_banks(ev) >= 3
                    &&& decisions_followed(a0, ev)
                    &&& decisions_seen(old(self).agents@, final(self).hiddens@, a0, final(self).log@.take(old(self).log@.len() as int + 2), ev)
                    &&& final(self).log@[k] is Showdown
                    &&& forall|t: int| 0 <= t < pre.len() ==> #[trigger] final(self).shared.agents@[t] == (TexasStateSharedAgent {
                        active: pre[t].active,
                        bank: Chips((pre[t].bank.0 + payout(
                            pre,
                            showdown_hands(final(self).hiddens@, final(self).shared.shared),
                            (banks_sum(old(self).shared.agents@) - banks_sum(pre)) as nat,
                            t,
                        )) as u64),
                    })
                },
    {
        let n = self.shared.agents.len();
        let ghost banks0 = self.shared.agents@;
        self.shared.shared = CardMask::none();
        self.shared.pot = Chips::new(0);
        // every player with chips is in the hand
        let mut id: usize = 0;
        while id < n
            invariant
                self.wf(),
                n == self.shared.agents@.len(),
                id <= n,
                forall|i: int| 0 <= i < n ==> (#[trigger] self.shared.agents@[i]).bank == banks0[i].bank,
                banks_sum(self.shared.agents@) == banks_sum(banks0),
                self.shared.pot.0 == 0,
                self.shared.shared.0 == 0,
                self.agents@ == old(self).agents@,
                self.log@ == old(self).log@,
                self.ante == old(self).ante,
                self.blinds@ == old(self).blinds@,
                self.hiddens@ == old(self).hiddens@,
                banks0 == old(self).shared.agents@,
                forall|i: int| 0 <= i < n ==> (#[trigger] banks0[i]).bank.0 > 0,
                forall|i: int| 0 <= i < id ==> (#[trigger] self.shared.agents@[i]).active,
            decreases n - id,
        {
            let active = self.shared.agents[id].bank.0 > 0;
            self.set_active(id, active);
            id = id + 1;
        }
        // deal two hole cards to every player
        let mut deck = CardMask::full();
        proof {
            assert forall|b: nat| #[trigger] bit(deck.0, b) ==> b < 52 by {
                lemma_full_bits(b);
            }
            assert forall|b: nat| !#[trigger] bit(0u64, b) by {
                crate::bits::lemma_bit_ops(0, 0, b);
            }
            assert forall|b: nat| b < 52 implies #[trigger] bit(deck.0, b) by {
                lemma_full_bits(b);
            }
            crate::bits::lemma_count_below_zero(64);
            lemma_count_full(52);
        }
        let mut id: usize = 0;
        while id < n
            invariant
                self.wf(),
                n == self.shared.agents@.len(),
                2 * n + 5 <= 52,
                id <= n,
                forall|i: int| 0 <= i < n ==> (#[trigger] self.shared.agents@[i]).bank == banks0[i].bank,
                banks_sum(self.shared.agents@) == banks_sum(banks0),
                self.shared.pot.0 == 0,
                self.shared.shared.0 == 0,
                self.agents@ == old(self).agents@,
                self.log@ == old(self).log@,
                forall|i: int| 0 <= i < n ==> (#[trigger] self.shared.agents@[i]).active,
                self.ante == old(self).ante,
                self.blinds@ == old(self).blinds@,
                self.hiddens@.len() == n,
                dealt(deck.0, self.hiddens@, id as nat, 0, 0),
            decreases n - id,
        {
            let hole = sample_cards(deck, 2, rng);
            proof {
                lemma_take_cards(deck.0, hole.0);
            }
            let ghost hiddens0 = self.hiddens@;
            let ghost deck0 = deck.0;
            self.hiddens.set(id, TexasStateHidden { hole });
            deck = deck.intersect(hole.inverse());
            proof {
                lemma_count_remove(deck0, hole.0, 52);
                lemma_remove_bits(deck0, hole.0);
                crate::bits::lemma_count_below_full(hole.0, 52, 64);
                assert forall|i: int, j: int| 0 <= i < j < id + 1 implies disjoint_cards(#[trigger] self.hiddens@[i].hole.0, #[trigger] self.hiddens@[j].hole.0) by {
                    if j == id {
                        assert forall|k: nat| !(#[trigger] bit(self.hiddens@[i].hole.0, k) && bit(self.hiddens@[j].hole.0, k)) by {
                            if bit(self.hiddens@[i].hole.0, k) {
                                assert(!bit(deck0, k));
                            }
                        }
                    } else {
                        assert(self.hiddens@[i] == hiddens0[i]);
                        assert(self.hiddens@[j] == hiddens0[j]);
                    }
                }
                assert forall|i: int| 0 <= i < id + 1 implies disjoint_cards(#[trigger] self.hiddens@[i].hole.0, 0) by {
                    assert forall|k: nat| !(#[trigger] bit(self.hiddens@[i].hole.0, k) && bit(0u64, k)) by {
                        crate::bits::lemma_bit_ops(0, 0, k);
                    }
                }
                assert forall|i: int, b: nat| 0 <= i < id + 1 && #[trigger] bit(self.hiddens@[i].hole.0, b) implies !bit(deck.0, b) && b < 52 by {
                    if i < id {
                        assert(self.hiddens@[i] == hiddens0[i]);
                    }
                }
            }
            id = id + 1;
        }
        // the forced bets: the ante from everyone, and the blinds from the players after the button
        let mut forced: Vec<Chips> = Vec::new();
        let mut k: usize = 0;
        while k < n
            invariant
                k <= n,
                forced@.len() == k,
                forall|j: int| 0 <= j < k ==> (#[trigger] forced@[j]).0 == self.ante.0,
            decreases n - k,
        {
            forced.push(self.ante);
            k = k + 1;
        }
        proof {
            lemma_forced_grows(self.ante, self.blinds@, n as nat, 0, self.blinds@.len());
        }
        let mut idx: usize = 0;
        while idx < self.blinds.len()
            invariant
                n >= 1,
                idx <= self.blinds@.len(),
                self.blinds@.len() < usize::MAX,
                forced@.len() == n,
                forall|j: int| 0 <= j < n ==> (#[trigger] forced@[j]).0 == forced_of(self.ante, self.blinds@, n as nat, idx as nat)[j],
                forall|j: int| 0 <= j < n ==> #[trigger] forced_of(self.ante, self.blinds@, n as nat, self.blinds@.len())[j] <= u64::MAX,
            decreases self.blinds@.len() - idx,
        {
            let j = (idx + 1) % n;
            let ghost prev = forced_of(self.ante, self.blinds@, n as nat, idx as nat);
            let ghost next = forced_of(self.ante, self.blinds@, n as nat, (idx + 1) as nat);
            proof {
                lemma_forced_grows(self.ante, self.blinds@, n as nat, (idx + 1) as nat, self.blinds@.len());
                lemma_forced_grows(self.ante, self.blinds@, n as nat, idx as nat, self.blinds@.len());
                assert(next == prev.update(j as int, (prev[j as int] + self.blinds@[idx as int].0) as nat));
                assert(next[j as int] <= forced_of(self.ante, self.blinds@, n as nat, self.blinds@.len())[j as int]);
            }
            let add = Chips::new(forced[j].0 + self.blinds[idx].0);
            forced.set(j, add);
            idx = idx + 1;
        }
        proof {
            assert(forced@ =~= forced_chips(self.ante, self.blinds@, n as nat)) by {
                assert forall|j: int| 0 <= j < n implies forced@[j] == forced_chips(self.ante, self.blinds@, n as nat)[j] by {
                    assert(forced@[j].0 == forced_of(self.ante, self.blinds@, n as nat, self.blinds@.len())[j]);
                }
            }
            assert(self.shared.agents@.map_values(|a: TexasStateSharedAgent| a.bank) =~= old(self).shared.agents@.map_values(
                |a: TexasStateSharedAgent| a.bank,
            ));
        }
        let ghost log0 = self.log@;
        let ghost a0 = after_forced(seated(banks0), forced_chips(self.ante, self.blinds@, n as nat));
        proof {
            assert(self.shared.agents@ =~= seated(banks0)) by {
                assert forall|i: int| 0 <= i < n implies self.shared.agents@[i] == seated(banks0)[i] by {
                    assert(self.shared.agents@[i].active);
                    assert(self.shared.agents@[i].bank == banks0[i].bank);
                }
            }
        }
        let ghost cards0 = self.shared.shared;
        let id_after_forced = ((self.blinds.len() + 1) % n) as PlayerID;
        let id_after_button = (1 % n) as PlayerID;
        proof {
            lemma_banks_sum_nonneg(self.shared.agents@);
        }
        self.round_forced(id_after_forced, forced.as_slice());
        let ghost log1 = self.log@;
        let ghost lo = old(self).log@.len() as int;
        let ghost head = log1.take(lo + 2);
        let ghost hid = self.hiddens@;
        proof {
            let e0 = log1.subrange(lo + 2, log1.len() as int);
            lemma_made_seen(self.agents@, hid, cards0, a0, head, e0);
        }
        // the flop, the turn and the river, each followed by a round of betting
        let mut street: usize = 0;
        while street < 3
            invariant
                self.log@.len() >= log1.len(),
                log1.len() >= lo + 2,
                lo == old(self).log@.len(),
                head == log1.take(lo + 2),
                self.hiddens@ == hid,
                self.shared.agents@ == apply_events(a0, self.log@.subrange(lo + 2, self.log@.len() as int)),
                decisions_followed(a0, self.log@.subrange(lo + 2, self.log@.len() as int)),
                decisions_seen(old(self).agents@, hid, a0, head, self.log@.subrange(lo + 2, self.log@.len() as int)),
                count_banks(self.log@.subrange(lo + 2, self.log@.len() as int)) >= street,
                forall|t: int| 0 <= t < log1.len() ==> #[trigger] self.log@[t] == log1[t],
                self.wf(),
                n == self.shared.agents@.len(),
                n >= 1,
                2 * n + 5 <= 52,
                street <= 3,
                (id_after_button as int) < n,
                self.chips() == banks_sum(banks0),
                banks0 == old(self).shared.agents@,
                n == banks0.len(),
                banks_sum(banks0) <= u64::MAX,
                self.agents@ == old(self).agents@,
                self.ante == old(self).ante,
                self.blinds@ == old(self).blinds@,
                self.hiddens@.len() == n,
                forall|i: int| 0 <= i < n ==> (#[trigger] self.shared.agents@[i]).bank.0 <= banks0[i].bank.0,
                dealt(deck.0, self.hiddens@, n as nat, self.shared.shared.0, if street == 0 { 0nat } else { (street + 2) as nat }),
            decreases 3 - street,
        {
            let num: usize = if street == 0 { 3 } else { 1 };
            let cards = sample_cards(deck, num, rng);
            proof {
                lemma_take_cards(deck.0, cards.0);
            }
            let ghost deck0 = deck.0;
            let ghost shared0 = self.shared.shared.0;
            self.shared.shared = self.shared.shared.union(cards);
            deck = deck.intersect(cards.inverse());
            proof {
                lemma_count_remove(deck0, cards.0, 52);
                lemma_remove_bits(deck0, cards.0);
                assert forall|k: nat| k < 64 implies !(#[trigger] bit(shared0, k) && bit(cards.0, k)) by {
                    if bit(shared0, k) {
                        assert(!bit(deck0, k));
                    }
                }
                lemma_count_union(shared0, cards.0, 64);
                assert forall|k: nat| #[trigger] bit(self.shared.shared.0, k) == (bit(shared0, k) || bit(cards.0, k)) by {
                    crate::bits::lemma_bit_ops(shared0, cards.0, k);
                }
                assert forall|i: int| 0 <= i < n implies disjoint_cards(#[trigger] self.hiddens@[i].hole.0, self.shared.shared.0) by {
                    assert forall|k: nat| !(#[trigger] bit(self.hiddens@[i].hole.0, k) && bit(self.shared.shared.0, k)) by {
                        if bit(self.hiddens@[i].hole.0, k) && bit(cards.0, k) {
                            assert(!bit(deck0, k));
                        }
                    }
                }
            }
            let ghost before = self.shared.agents@;
            let ghost log_r = self.log@;
            let ghost e_r = log_r.subrange(lo + 2, log_r.len() as int);
            let ghost cards_r = self.shared.shared;
            let ghost agents_r = self.shared.agents@;
            self.round(id_after_button);
            proof {
                assert(log_r.take(lo + 2) == head) by {
                    assert forall|t: int| 0 <= t < lo + 2 implies log_r.take(lo + 2)[t] == head[t] by {
                        assert(log_r[t] == log1[t]);
                    }
                    assert(log_r.take(lo + 2) =~= head);
                }
                assert(log_r =~= head + e_r);
                assert(self.log@.take(log_r.len() as int) =~= self.log@.subrange(0, log_r.len() as int));
                assert(agents_r == apply_events(a0, e_r));
                lemma_street_round(old(self).agents@, hid, cards_r, a0, head, e_r, self.log@);
                assert(self.log@.subrange(lo + 2, self.log@.len() as int) =~= self.log@.subrange(head.len() as int, self.log@.len() as int));
                assert forall|t: int| 0 <= t < log1.len() implies #[trigger] self.log@[t] == log1[t] by {
                    assert(self.log@.subrange(0, log_r.len() as int)[t] == log_r[t]);
                }
            }
            proof {
                assert forall|i: int| 0 <= i < n implies (#[trigger] self.shared.agents@[i]).bank.0 <= banks0[i].bank.0 by {
                    assert(self.shared.agents@[i].bank.0 <= before[i].bank.0);
                    assert(before[i].bank.0 <= banks0[i].bank.0);
                }
            }
            street = street + 1;
        }
        let ghost log_s = self.log@;
        let ghost before_showdown = self.shared.agents@;
        let ghost hands_s = showdown_hands(self.hiddens@, self.shared.shared);
        self.showdown();
        proof {
            if exists|i: int| 0 <= i < n && (#[trigger] self.shared.agents@[i]).active {
                let i = choose|i: int| 0 <= i < n && (#[trigger] self.shared.agents@[i]).active;
                assert(before_showdown[i].active);
                lemma_best_some(before_showdown, hands_s, n as nat, i);
            }
            let lo = old(self).log@.len() as int;
            assert forall|t: int| 0 <= t < log1.len() implies #[trigger] self.log@[t] == log1[t] by {
                assert(self.log@[t] == log_s[t]);
            }
            assert(log0 == old(self).log@);
            assert(log1.subrange(0, lo) == old(self).log@);
            assert(self.log@.subrange(0, lo) =~= old(self).log@) by {
                assert forall|t: int| 0 <= t < lo implies self.log@.subrange(0, lo)[t] == old(self).log@[t] by {
                    assert(log1.subrange(0, lo)[t] == log1[t]);
                }
            }
            assert(self.log@[lo] == log1[lo]);
            assert(self.log@[lo + 1] == log1[lo + 1]);
            // the hand: the rounds, then the showdown
            let k = log_s.len() as int;
            let ev = log_s.subrange(lo + 2, k);
            assert(self.log@.subrange(lo + 2, k) =~= ev) by {
                assert forall|t: int| 0 <= t < ev.len() implies self.log@.subrange(lo + 2, k)[t] == ev[t] by {
                    assert(self.log@[lo + 2 + t] == log_s[lo + 2 + t]);
                }
            }
            assert(self.log@.take(lo + 2) =~= head) by {
                assert forall|t: int| 0 <= t < lo + 2 implies self.log@.take(lo + 2)[t] == head[t] by {
                    assert(self.log@[t] == log1[t]);
                }
            }
            assert(self.log@[k] is Showdown);
            let pre = apply_events(a0, ev);
            assert(before_showdown == pre);
            assert(a0 == after_forced(seated(old(self).shared.agents@), forced_chips(old(self).ante, old(self).blinds@, old(self).shared.agents@.len())));
            assert(exists|k2: int|
                #![trigger self.log@[k2]]
                old(self).log@.len() + 2 <= k2 < self.log@.len() && {
                    let ev = self.log@.subrange(old(self).log@.len() as int + 2, k2);
                    let a0 = after_forced(
                        seated(old(self).shared.agents@),
                        forced_chips(old(self).ante, old(self).blinds@, old(self).shared.agents@.len()),
                    );
                    let pre = apply_events(a0, ev);
                    &&& count_banks(ev) >= 3
                    &&& decisions_followed(a0, ev)
                    &&& decisions_seen(old(self).agents@, self.hiddens@, a0, self.log@.take(old(self).log@.len() as int + 2), ev)
                    &&& self.log@[k2] is Showdown
                    &&& forall|t: int| 0 <= t < pre.len() ==> #[trigger] self.shared.agents@[t] == (TexasStateSharedAgent {
                        active: pre[t].active,
                        bank: Chips((pre[t].bank.0 + payout(
                            pre,
                            showdown_hands(self.hiddens@, self.shared.shared),
                            (banks_sum(old(self).shared.agents@) - banks_sum(pre)) as nat,
                            t,
                        )) as u64),
                    })
                }) by {
                assert(self.log@[k] is Showdown);
            }
        }
    }

    /// A round of betting without forced bets (see [round_forced](Self::round_forced)).
    pub fn round(&mut self, start: PlayerID)
        requires
            old(self).wf(),
            old(self).shared.agents@.len() >= 1,
            (start as int) < old(self).shared.agents@.len(),
            old(self).chips() <= u64::MAX,
        ensures
            final(self).wf(),
            final(self).shared.agents@.len() == old(self).shared.agents@.len(),
            final(self).chips() == old(self).chips(),
            final(self).hiddens@ == old(self).hiddens@,
            final(self).shared.shared == old(self).shared.shared,
            final(self).agents@ == old(self).agents@,
            final(self).ante == old(self).ante,
            final(self).blinds@ == old(self).blinds@,
            forall|i: int| 0 <= i < old(self).shared.agents@.len() ==> {
                &&& final(self).shared.agents@[i].bank.0 <= old(self).shared.agents@[i].bank.0
                &&& final(self).shared.agents@[i].active ==> old(self).shared.agents@[i].active
            },
            final(self).shared.agents@ == apply_events(
                old(self).shared.agents@,
                final(self).log@.subrange(old(self).log@.len() as int + 2, final(self).log@.len() as int),
            ),
            decisions_followed(
                old(self).shared.agents@,
                final(self).log@.subrange(old(self).log@.len() as int + 2, final(self).log@.len() as int),
            ),
            decisions_made(
                old(self).agents@,
                old(self).hiddens@,
                old(self).shared.shared,
                old(self).shared.agents@,
                final(self).log@.take(old(self).log@.len() as int + 2),
                final(self).log@.subrange(old(self).log@.len() as int + 2, final(self).log@.len() as int),
            ),
            round_complete(old(self).shared.agents@, final(self).shared.agents@),
            final(self).log@[old(self).log@.len() as int] is Banks,
            final(self).log@[old(self).log@.len() as int + 1] is AskTotal,
            final(self).log@.len() >= old(self).log@.len() + 2,
            final(self).log@.subrange(0, old(self).log@.len() as int) == old(self).log@,
    {
        let n = self.shared.agents.len();
        let mut forced: Vec<Chips> = Vec::new();
        let mut k: usize = 0;
        while k < n
            invariant
                k <= n,
                forced@.len() == k,
                forall|j: int| 0 <= j < k ==> (#[trigger] forced@[j]).0 == 0,
            decreases n - k,
        {
            forced.push(Chips::new(0));
            k = k + 1;
        }
        proof {
            let a = self.shared.agents@;
            assert(after_forced(a, forced@) =~= a) by {
                assert forall|j: int| 0 <= j < a.len() implies after_forced(a, forced@)[j] == a[j] by {
                    assert(forced@[j].0 == 0);
                }
            }
        }
        self.round_forced(start, forced.as_slice())
    }

}

} // verus!

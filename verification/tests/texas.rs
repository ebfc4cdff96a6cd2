use dealrs::betting::Chips;
use dealrs::deck::{sample_cards, sample_cards_ordered, CardMask};
use dealrs::rng_from_seed;
use dealrs::texas::agents::fishy::FishyTexasAgent;
use dealrs::texas::agents::nitty::NittyTexasAgent;
use dealrs::texas::agents::shovy::ShovyTexasAgent;
use dealrs::texas::agents::{TexasAgent, TexasAgentAction, TexasAgentState};
use dealrs::texas::cli::{parse_agent, AgentKind, Args, StandardAgent};
use dealrs::texas::{classify, sanitize, Move, TexasEngine, TexasEvent};

#[derive(Clone)]
struct Caller;

impl TexasAgent for Caller {
    fn decide(&self, state: &TexasAgentState) -> TexasAgentAction {
        TexasAgentAction::new(state.shared.bet)
    }
}

#[test]
fn parse_agents() {
    assert_eq!(parse_agent("fishy"), Ok(AgentKind::Fishy));
    assert_eq!(parse_agent("nitty"), Ok(AgentKind::Nitty));
    assert_eq!(parse_agent("shovy"), Ok(AgentKind::Shovy));
    assert_eq!(parse_agent("simplecli"), Ok(AgentKind::SimpleCli));
    assert_eq!(parse_agent("bogus"), Err("unknown player type: bogus".to_string()));
}

#[test]
fn moves() {
    assert_eq!(classify(Chips::new(0), Chips::new(0)), Move::Check);
    assert_eq!(classify(Chips::new(5), Chips::new(0)), Move::Fold);
    assert_eq!(classify(Chips::new(5), Chips::new(5)), Move::Call);
    assert_eq!(classify(Chips::new(5), Chips::new(9)), Move::Raise);
    assert_eq!(classify(Chips::new(5), Chips::new(3)), Move::Short);
    assert_eq!(sanitize(Chips::new(5), Chips::new(3)), (Chips::new(0), true));
    assert_eq!(sanitize(Chips::new(5), Chips::new(7)), (Chips::new(7), false));
    assert_eq!(sanitize(Chips::new(5), Chips::new(0)), (Chips::new(0), false));
}

#[test]
fn seeded_sampling_repeats() {
    let mut a = rng_from_seed(Some("seed"));
    let mut b = rng_from_seed(Some("seed"));
    let full = CardMask::full();
    let x = sample_cards(full, 7, &mut a);
    let y = sample_cards(full, 7, &mut b);
    assert_eq!(x, y);
    assert_eq!(x.count(), 7);
    assert!(full.contains(x));
    // drawing from a few cards takes exactly those
    let few = CardMask::from_bits(0b1011);
    assert_eq!(sample_cards(few, 3, &mut a), few);
    let ordered = sample_cards_ordered(few, 3, &mut a);
    assert_eq!(ordered.len(), 3);
    assert_ne!(ordered[0], ordered[1]);
    assert_ne!(ordered[1], ordered[2]);
    assert_ne!(ordered[0], ordered[2]);
}

#[test]
fn fishy_hand_goes_to_showdown() {
    let mut eng: TexasEngine<FishyTexasAgent> = TexasEngine::new(Chips::new(1), vec![Chips::new(2), Chips::new(5)]);
    eng.add_agent(FishyTexasAgent::new(), Chips::new(100));
    eng.add_agent(FishyTexasAgent::new(), Chips::new(100));
    let mut rng = rng_from_seed(Some("table"));
    eng.execute(&mut rng);
    // no chips are made or lost
    let banks: u64 = eng.shared.agents.iter().map(|a| a.bank.value()).sum();
    assert_eq!(eng.shared.pot.value() + banks, 200);
    // heads-up, the blinds wrap around: seat 1 pays the ante and the small blind, seat 0 the
    // ante and the big blind, and seat 1 then calls up to 6; the pot of 12 is then shared out
    assert_eq!(eng.shared.pot.value(), 0);
    assert!(eng.log.iter().any(|e| matches!(e, TexasEvent::Showdown { pot, .. } if *pot == Chips::new(12))));
    assert_eq!(eng.shared.shared.count(), 5);
    for h in &eng.hiddens {
        assert_eq!(h.hole.count(), 2);
        assert!((h.hole & eng.shared.shared).empty());
    }
    assert!((eng.hiddens[0].hole & eng.hiddens[1].hole).empty());
    assert!(matches!(eng.log[0], TexasEvent::Banks { .. }));
    assert!(matches!(eng.log[1], TexasEvent::AskTotal { amount } if amount == Chips::new(6)));
    assert!(eng.log.iter().any(|e| matches!(e, TexasEvent::Showdown { .. })));
    assert!(matches!(eng.log.last(), Some(TexasEvent::Award { .. })));
}

#[test]
fn nitty_folds_and_shovy_raises() {
    let mut eng: TexasEngine<StandardAgent<Caller>> = TexasEngine::new(Chips::new(0), vec![Chips::new(1), Chips::new(2)]);
    eng.add_agent(StandardAgent::Nitty(NittyTexasAgent::new()), Chips::new(50));
    eng.add_agent(StandardAgent::Shovy(ShovyTexasAgent::new()), Chips::new(50));
    eng.add_agent(StandardAgent::Nitty(NittyTexasAgent::new()), Chips::new(50));
    let mut rng = rng_from_seed(Some("raise"));
    eng.execute(&mut rng);
    // the shovy player goes all-in, the nitty ones fold after paying their blinds, and the
    // shovy player takes the pot of its 50 chips and the blind of 2
    assert!(!eng.shared.agents[0].active);
    assert!(!eng.shared.agents[2].active);
    assert!(eng.log.iter().any(|e| matches!(e, TexasEvent::Showdown { pot, .. } if *pot == Chips::new(50 + 2))));
    assert_eq!(eng.shared.agents[1].bank.value(), 52);
    assert_eq!(eng.shared.pot.value(), 0);
    assert!(eng.log.iter().any(|e| matches!(e, TexasEvent::Raise { id: 1, allin: true, .. })));
}

#[test]
fn run_plays_a_hand() {
    let args = Args {
        roll: Chips::new(100),
        ante: Chips::new(1),
        blinds: vec![Chips::new(2), Chips::new(5)],
        players: vec!["simplecli".to_string(), "fishy".to_string()],
        seed: Some("abc".to_string()),
    };
    let eng = args.run(Caller).unwrap();
    assert_eq!(eng.shared.agents.len(), 2);
    let banks: u64 = eng.shared.agents.iter().map(|a| a.bank.value()).sum();
    assert_eq!(eng.shared.pot.value() + banks, 200);

    let bad = Args {
        roll: Chips::new(100),
        ante: Chips::new(1),
        blinds: vec![],
        players: vec!["fishy".to_string(), "whale".to_string()],
        seed: None,
    };
    assert_eq!(bad.run(Caller).err(), Some("unknown player type: whale".to_string()));
}

fn args_of(roll: u64, blinds: Vec<u64>, players: Vec<&str>) -> Args {
    Args {
        roll: Chips::new(roll),
        ante: Chips::new(1),
        blinds: blinds.into_iter().map(Chips::new).collect(),
        players: players.into_iter().map(|p| p.to_string()).collect(),
        seed: Some("seed".to_string()),
    }
}

#[test]
fn run_refuses_bad_configurations() {
    // the first unknown name is reported, before any other problem
    let e = args_of(0, vec![], vec!["orca", "whale"]).run(Caller).err();
    assert_eq!(e, Some("unknown player type: orca".to_string()));
    let e = args_of(100, vec![], vec![]).run(Caller).err();
    assert_eq!(e, Some("no players".to_string()));
    let e = args_of(0, vec![], vec!["fishy", "nitty"]).run(Caller).err();
    assert_eq!(e, Some("a player has 0 chips, which is not allowed".to_string()));
    let e = args_of(10, vec![], vec!["fishy"; 24]).run(Caller).err();
    assert_eq!(e, Some("not enough cards for every player".to_string()));
    let e = args_of(u64::MAX, vec![], vec!["fishy", "fishy"]).run(Caller).err();
    assert_eq!(e, Some("too many chips at the table".to_string()));
    let e = args_of(10, vec![u64::MAX, 1, 1], vec!["fishy", "fishy"]).run(Caller).err();
    assert_eq!(e, Some("a forced bet is too large".to_string()));
}

#[test]
fn run_seats_the_named_kinds() {
    let eng = args_of(100, vec![2, 5], vec!["nitty", "fishy", "fishy"]).run(Caller).unwrap();
    assert!(matches!(eng.agents[0], StandardAgent::Nitty(_)));
    assert!(matches!(eng.agents[1], StandardAgent::Fishy(_)));
    assert!(matches!(eng.agents[2], StandardAgent::Fishy(_)));
    assert_eq!(eng.ante.value(), 1);
    assert_eq!(eng.blinds.len(), 2);
    assert_eq!(eng.shared.shared.count(), 5);
}

#[test]
fn the_pot_goes_to_the_last_player_in() {
    // blinds wrap: P1 pays 1+5, P2 pays 2+6, P3 pays 3, the button P0 pays 4
    let blinds: Vec<Chips> = vec![1, 2, 3, 4, 5, 6].into_iter().map(Chips::new).collect();
    let mut eng: TexasEngine<StandardAgent<Caller>> = TexasEngine::new(Chips::new(0), blinds);
    for _ in 0..4 {
        eng.add_agent(StandardAgent::Nitty(NittyTexasAgent::new()), Chips::new(100));
    }
    let mut rng = rng_from_seed(Some("pot"));
    eng.execute(&mut rng);
    let banks: Vec<u64> = eng.shared.agents.iter().map(|a| a.bank.value()).collect();
    assert_eq!(banks, vec![96, 94, 113, 97]);
    assert_eq!(eng.shared.pot.value(), 0);
    assert!(eng.log.iter().any(|e| matches!(e, TexasEvent::Award { id: 2, .. })));
}

#[test]
fn a_tie_splits_the_pot() {
    // two callers always reach the showdown; the chips stay at the table and the pot is emptied
    let mut eng: TexasEngine<StandardAgent<Caller>> = TexasEngine::new(Chips::new(1), vec![Chips::new(2)]);
    eng.add_agent(StandardAgent::Fishy(FishyTexasAgent::new()), Chips::new(50));
    eng.add_agent(StandardAgent::Fishy(FishyTexasAgent::new()), Chips::new(50));
    let mut rng = rng_from_seed(Some("tie"));
    eng.execute(&mut rng);
    let banks: Vec<u64> = eng.shared.agents.iter().map(|a| a.bank.value()).collect();
    assert_eq!(banks[0] + banks[1], 100);
    assert_eq!(eng.shared.pot.value(), 0);
}

#[test]
fn a_round_ends_with_every_player_in_having_paid_the_most() {
    let mut eng: TexasEngine<StandardAgent<Caller>> = TexasEngine::new(Chips::new(0), vec![]);
    eng.add_agent(StandardAgent::Fishy(FishyTexasAgent::new()), Chips::new(50));
    eng.add_agent(StandardAgent::Shovy(ShovyTexasAgent::new()), Chips::new(30));
    eng.add_agent(StandardAgent::Fishy(FishyTexasAgent::new()), Chips::new(80));
    eng.round_forced(0, &[Chips::new(1), Chips::new(2)]);
    // the shovy player raises all-in to 30, and both fishy players call the 30
    let banks: Vec<u64> = eng.shared.agents.iter().map(|a| a.bank.value()).collect();
    assert_eq!(banks, vec![20, 0, 50]);
    assert_eq!(eng.shared.pot.value(), 90);
    assert!(eng.shared.agents.iter().all(|a| a.active));
}

#[test]
fn a_short_stack_calls_all_in() {
    let mut eng: TexasEngine<FishyTexasAgent> = TexasEngine::new(Chips::new(0), vec![]);
    eng.add_agent(FishyTexasAgent::new(), Chips::new(3));
    eng.add_agent(FishyTexasAgent::new(), Chips::new(100));
    eng.round_forced(0, &[Chips::new(0), Chips::new(5)]);
    assert_eq!(eng.shared.pot.value(), 8);
    let banks: Vec<u64> = eng.shared.agents.iter().map(|a| a.bank.value()).collect();
    assert_eq!(banks, vec![0, 95]);
    assert!(eng.shared.agents.iter().all(|a| a.active));
    // each decision is logged, then what it gives
    let pos = eng
        .log
        .iter()
        .position(|e| matches!(e, TexasEvent::Decision { id: 0, ask, offer } if *ask == Chips::new(5) && *offer == Chips::new(5)))
        .unwrap();
    assert!(matches!(eng.log[pos + 1], TexasEvent::Call { id: 0, amount, allin: true } if amount == Chips::new(3)));
    assert!(eng.log.iter().any(|e| matches!(e, TexasEvent::Check { id: 1 })));
}

#[test]
fn a_round_of_checks_moves_nothing() {
    let mut eng: TexasEngine<NittyTexasAgent> = TexasEngine::new(Chips::new(0), vec![]);
    eng.add_agent(NittyTexasAgent::new(), Chips::new(100));
    eng.add_agent(NittyTexasAgent::new(), Chips::new(100));
    eng.round(0);
    let banks: Vec<u64> = eng.shared.agents.iter().map(|a| a.bank.value()).collect();
    assert_eq!(banks, vec![100, 100]);
    assert_eq!(eng.shared.pot.value(), 0);
    assert!(eng.shared.agents.iter().all(|a| a.active));
    assert!(eng.log.iter().any(|e| matches!(e, TexasEvent::Check { id: 0 })));
    assert!(eng.log.iter().any(|e| matches!(e, TexasEvent::Check { id: 1 })));
}

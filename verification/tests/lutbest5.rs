use std::str::FromStr;

use dealrs::combrs::bagspace::BagSpace;
use dealrs::combrs::binom;
use dealrs::deck::{CardMask, Rank};
use dealrs::hand::lutbest5::{KeyLutCard5, LutBest5};
use dealrs::hand::refbest5::RefBest5;
use dealrs::hand::{Best5, Hand, Rank5};
use itertools::Itertools;

fn cards(text: &str) -> CardMask {
    CardMask::from_str(text).unwrap()
}

#[test]
fn test_multiset_encdec() {
    // first, iterate over all possible sequences and make sure they can be encoded and decoded back to the original sequence
    let n = 13;
    let k = 5;
    let space = BagSpace::new(n, k);
    for seq in (0..n).combinations_with_replacement(k) {
        let mut seq = seq.iter().map(|x| *x as usize).collect::<Vec<usize>>();
        seq.sort();
        let idx: usize = space.enc(&seq);
        let mut decoded = vec![0; k];
        space.dec(idx, &mut decoded);
        assert_eq!(seq, decoded);
    }

    // now, iterate over all possible indices and make sure they can be decoded back to the original sequence
    for idx in 0..binom(n + k - 1, k) {
        let mut seq = vec![0; k];
        space.dec(idx, &mut seq);
        let idx_redo: usize = space.enc(&seq);
        assert_eq!(idx, idx_redo);
    }
}

#[test]
fn key_from_cards_is_the_index_of_the_ranks() {
    // 2, 3, 4, 5, 7: the index of the sorted bag [0, 1, 2, 3, 5]
    let key = KeyLutCard5::from_cards(cards("2c,3d,4h,5s,7c"));
    let expected = BagSpace::new(13, 5).enc(&[0, 1, 2, 3, 5]);
    assert_eq!(key, KeyLutCard5::from_index(expected));
    // the suits do not matter
    assert_eq!(key, KeyLutCard5::from_cards(cards("2h,3h,4h,5h,7h")));
    // a pair repeats its rank
    let pair = KeyLutCard5::from_cards(cards("Ac,Ad,Kh,Qs,Jc"));
    let expected = BagSpace::new(13, 5).enc(&[9, 10, 11, 12, 12]);
    assert_eq!(pair, KeyLutCard5::from_index(expected));
}

#[test]
fn key_rank_text_and_ranks() {
    let key = KeyLutCard5::from_cards(cards("Ah,Kh,Qh,Jh,Th"));
    assert_eq!(key.to_rank_str(), "AKQJT");
    assert_eq!(key.to_rank_vec(), vec![Rank::Ten, Rank::Jack, Rank::Queen, Rank::King, Rank::Ace]);
    let key = KeyLutCard5::from_cards(cards("2c,2d,2h,3s,3c"));
    assert_eq!(key.to_rank_str(), "33222");
    assert_eq!(key.to_rank_vec(), vec![Rank::Two, Rank::Two, Rank::Two, Rank::Three, Rank::Three]);
    // the first and the last key
    assert_eq!(KeyLutCard5::from_index(0).to_rank_str(), "22222");
    assert_eq!(KeyLutCard5::from_index(6187).to_rank_str(), "AAAAA");
}

#[test]
fn lutbest5_tables_cover_every_bag() {
    let lut = LutBest5::new();
    // one order for each bag of five different ranks, and for each bag not all alike
    let suited = lut.allsuited.iter().filter(|&&x| x > 0).count();
    let spread = lut.nonsuited.iter().filter(|&&x| x > 0).count();
    assert_eq!(suited, 1287);
    assert_eq!(spread, 6188 - 13);
    // the two tables together number the 7462 hands 1, 2, 3, ... without gaps
    let mut orders: Vec<u16> = lut.allsuited.iter().chain(lut.nonsuited.iter()).copied().filter(|&x| x > 0).collect();
    orders.sort();
    assert_eq!(orders, (1..=7462).collect::<Vec<u16>>());
}

#[test]
fn lutbest5_find_follows_strength() {
    let lut = LutBest5::new();
    let royal = lut.find(cards("Ah,Kh,Qh,Jh,Th")).unwrap();
    let wheel_flush = lut.find(cards("Ah,2h,3h,4h,5h")).unwrap();
    let low_flush = lut.find(cards("2s,3s,4s,5s,7s")).unwrap();
    let king_flush = lut.find(cards("Kd,Qd,Jd,9d,8d")).unwrap();
    assert_eq!(royal, 7462);
    // the lowest flush comes right after the best straight
    assert_eq!(low_flush, 5864);
    assert_eq!(lut.find(cards("Ac,Kd,Qh,Js,Tc")).unwrap(), 5863);
    assert!(king_flush < wheel_flush);
    assert!(wheel_flush < royal);
    // the suits of a flush do not matter
    assert_eq!(royal, lut.find(cards("As,Ks,Qs,Js,Ts")).unwrap());

    let high = lut.find(cards("2c,3d,4h,5s,7c")).unwrap();
    let pair = lut.find(cards("2c,2d,4h,5s,7c")).unwrap();
    let two_pair = lut.find(cards("2c,2d,4h,4s,7c")).unwrap();
    let trips = lut.find(cards("2c,2d,2h,4s,7c")).unwrap();
    let straight = lut.find(cards("Ac,2d,3h,4s,5c")).unwrap();
    let full = lut.find(cards("2c,2d,2h,4s,4c")).unwrap();
    let quads = lut.find(cards("Ac,Ad,Ah,As,Kc")).unwrap();
    assert_eq!(high, 1);
    assert!(high < pair && pair < two_pair && two_pair < trips && trips < straight);
    assert!(straight < full && full < quads);
    assert!(straight < low_flush && king_flush < full);
    assert_eq!(quads, 7452);
}

#[test]
fn lutbest5_rank5_takes_the_best_five() {
    let lut = LutBest5::new();
    let royal = lut.find(cards("Ah,Kh,Qh,Jh,Th")).unwrap();
    // five cards: their own order
    assert_eq!(lut.rank5(cards("Ah,Kh,Qh,Jh,Th")), royal);
    // six hearts: the best five of them
    assert_eq!(lut.rank5(cards("Ah,Kh,Qh,Jh,Th,9h")), royal);
    // seven cards of several suits: the best order among the choices of five
    let seven = cards("Ac,Ad,Ah,As,Kc,2d,3h");
    assert_eq!(lut.rank5(seven), lut.find(cards("Ac,Ad,Ah,As,Kc")).unwrap());
    // fewer than five cards: no choice, so 0
    assert_eq!(lut.rank5(cards("Ac,Kd")), 0);
}

#[test]
fn lutbest5_markdown() {
    let lut = LutBest5::new();
    let text = lut.write_markdown();
    assert!(text.starts_with("# Rankings of All 5-card Hands\n\nThis file contains the rankings of all 5-card hands"));
    let lines: Vec<&str> = text.lines().collect();
    // the lowest hand of spread cards comes first, the highest last
    assert_eq!(lines[8], "|     1 | 75432 | High Card '7' with Kickers '5432' |");
    assert_eq!(lines[8 + 6174], "|  7452 | AAAAK | Four of a Kind of 'A' with Kickers 'K' |");
    assert_eq!(lines[8 + 6175], "|-------|-------|------------------------------|");
    // then the table of one suit
    assert_eq!(lines[8 + 6175 + 6], "|  5864 | 75432 | Flush with '75432'           |");
    assert_eq!(lines[lines.len() - 1], "|  7462 | AKQJT | Straight Flush to 'A'        |");
    assert_eq!(lines.len(), 8 + 6175 + 6 + 1287);
}

#[test]
fn lutbest5_orders_agree_with_the_reference_engine() {
    let lut = LutBest5::new();
    let engine = RefBest5::new();
    // every choice of five of these cards, in several suits and with repeated ranks
    let pool: Vec<CardMask> = "Ah,Ad,Kh,Kc,Qh,Jh,Th,9s,2h,2d,2c"
        .split(',')
        .map(|c| cards(c))
        .collect();
    let mut seen: Vec<(bool, u16, Hand)> = Vec::new();
    for choice in (0..pool.len()).combinations(5) {
        let mut mask = CardMask::none();
        for &i in choice.iter() {
            mask = mask.union(pool[i]);
        }
        let order = lut.find(mask).unwrap();
        let hand = engine.best5(mask).1;
        let bits = mask.to_bits();
        let suited = (0..4).any(|s| bits & (0x1fffu64 << (13 * s)) == bits);
        seen.push((suited, order, hand));
    }
    // across both tables, a higher order goes with a stronger hand, and equal orders with equal hands
    assert!(seen.iter().any(|a| a.0) && seen.iter().any(|a| !a.0));
    for a in seen.iter() {
        for b in seen.iter() {
            assert_eq!(a.1 < b.1, a.2 < b.2);
            assert_eq!(a.1 == b.1, a.2 == b.2);
        }
    }
}

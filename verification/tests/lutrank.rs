use std::str::FromStr;

use dealrs::deck::CardMask;
use dealrs::hand::lutrank::LutRank;
use dealrs::hand::refhand5::RefHand5;
use dealrs::hand::{Hand5, Rank5};

fn cards(text: &str) -> CardMask {
    CardMask::from_str(text).unwrap()
}

#[test]
fn lutrank_tables_and_rankings() {
    let lut = LutRank::new();
    // the tables are whole, and the orders fit in 16 bits
    assert_eq!(lut.allsuited.len(), 0x2000);
    assert!(lut.orders2hands.len() <= 27629);
    assert!(lut.orders2hands.len() >= 2);
    // the hands are numbered in increasing strength
    for i in 1..lut.orders2hands.len() - 2 {
        assert!(lut.orders2hands[i] < lut.orders2hands[i + 1]);
    }

    // the lookup agrees with the reference engine
    let engine = RefHand5::new();
    for text in [
        "2s3h4s5h7s", "2s3h4s5h6s", "AsAhKsKhKc", "2s3s4s5s7s", "2s3s4s5s6s", "AsKsQsJsTs9h9d",
        "7s7h7c7d2s", "2s2h3c3d5s", "AsAh3c4d5s", "2c5c8c7c7s9cTc", "As2h3d4c5s9h", "", "Ah", "KsKh",
    ] {
        let c = cards(text);
        assert_eq!(lut.hand5(c), engine.hand5(c), "cards {}", text);
    }

    // ranking orders the hands as they compare
    assert!(lut.rank5(cards("2s3h4s5h7s")) < lut.rank5(cards("2s3h4s5h8s")));
    assert!(lut.rank5(cards("AsKhJsTh8s")) < lut.rank5(cards("AsKhJsTh9s")));
    assert!(lut.rank5(cards("2s3h4s5h7s")) < lut.rank5(cards("2s3h4s5h6s")));
    assert!(lut.rank5(cards("AsAhKsKhKc")) < lut.rank5(cards("AsAhAcKhKc")));
    assert!(lut.rank5(cards("2s3s4s5s7s")) > lut.rank5(cards("As2h3d4c5s")));
    assert_eq!(lut.rank5(cards("2s3h4s5h7s")), lut.rank5(cards("2h3s4h5s7h")));

    // the keys of the bags of ranks
    assert_eq!(lut.cards2key(cards("")), 0);
    assert_eq!(lut.cards2key(cards("2s")), lut.ranks2key(dealrs::deck::RankMask::from_str("2").unwrap()));
    assert_eq!(lut.ranks2key(dealrs::deck::RankMask::from_str("2").unwrap()), 1);

    // the ranking as a document
    let md = lut.write_markdown();
    assert!(md.starts_with("# Ordered Ranking of All 5-card Hands\n"));
    assert!(md.contains("|     1 | High Card '?' with Kickers '????'                |\n"));
    assert!(md.contains("## All-Suited 5-card Hands"));
}

#[test]
fn lutrank_agrees_with_the_reference_engine() {
    let lut = LutRank::new();
    let engine = RefHand5::new();
    // order 0 stands for no hand, and the last order is the best hand
    assert_eq!(lut.orders2hands[0], dealrs::hand::Hand::HighCard { kickers: dealrs::deck::RankMask::none() });
    assert_eq!(
        *lut.orders2hands.last().unwrap(),
        dealrs::hand::Hand::StraightFlush { top: dealrs::deck::Rank::Ace }
    );
    assert_eq!(lut.find(CardMask::none()), Some(1));
    for text in ["2h3h4h5h7hAsKs", "AsAhAcKsKhKc", "2s3s4s5s7sKh", "2c5c8c7c7s9cTc"] {
        let c = cards(text);
        assert_eq!(lut.hand5(c), engine.hand5(c), "cards {}", text);
    }
    // every choice of up to seven cards of a pool with flushes, straights and pairs
    let pool: Vec<CardMask> = "Ah,Kh,Qh,Jh,Th,9h,Ad,Kd,2c,2s".split(',').map(cards).collect();
    for choice in 0u32..(1 << pool.len()) {
        if choice.count_ones() > 7 {
            continue;
        }
        let mut mask = CardMask::none();
        for (i, c) in pool.iter().enumerate() {
            if choice & (1 << i) != 0 {
                mask = mask.union(*c);
            }
        }
        assert_eq!(lut.hand5(mask), engine.hand5(mask));
    }
    // the ranking lists each order once
    let md = lut.write_markdown();
    let rows = md
        .lines()
        .filter(|l| l.len() > 8 && l[2..7].trim().parse::<u32>().is_ok())
        .count();
    assert_eq!(rows, lut.orders2hands.len() - 1);
}

#[test]
fn lutrank_keys_ignore_suits() {
    let lut = LutRank::new();
    // the same ranks in other suits have the same key
    assert_eq!(lut.cards2key(cards("AsAhKd2c")), lut.cards2key(cards("AcAdKs2h")));
    assert_ne!(lut.cards2key(cards("AsAhKd2c")), lut.cards2key(cards("AsKhKd2c")));
    // one card of each rank keys as the ranks
    let ranks = dealrs::deck::RankMask::from_str("AK72").unwrap();
    assert_eq!(lut.ranks2key(ranks), lut.cards2key(cards("AsKh7d2c")));
    // every key lies below C(20, 7)
    assert!(lut.cards2key(cards("AsAhAdAcKsKhKd")) < 77520);
    // orders start at 1 with no cards, and a flush beats a high card
    assert_eq!(lut.find(CardMask::none()), Some(1));
    assert!(lut.find(cards("2s3h4s5h7s")).unwrap() < lut.find(cards("2s3s4s5s7s")).unwrap());
}

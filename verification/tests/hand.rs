use std::str::FromStr;

use dealrs::deck::{Rank, RankMask};
use dealrs::hand::Hand;

fn ranks(text: &str) -> RankMask {
    RankMask::from_str(text).unwrap()
}

fn none() -> RankMask {
    RankMask::none()
}

#[test]
fn display_highcard() {
    assert_eq!("High Card '?' with Kickers '????'", Hand::HighCard { kickers: none() }.to_string());
    assert_eq!("High Card '7' with Kickers '5432'", Hand::HighCard { kickers: ranks("2,3,4,5,7") }.to_string());
    assert_eq!("High Card '7' with Kickers '52??'", Hand::HighCard { kickers: ranks("2,5,7") }.to_string());
    assert_eq!("High Card 'A' with Kickers 'K???'", Hand::HighCard { kickers: ranks("A,K") }.to_string());
    assert_eq!("High Card 'A' with Kickers '52??'", Hand::HighCard { kickers: ranks("A,5,2") }.to_string());
}

#[test]
fn display_onepair() {
    assert_eq!("One Pair of '2' with Kickers '???'", Hand::OnePair { pair: Rank::from_str("2").unwrap(), kickers: none() }.to_string());
    assert_eq!("One Pair of '2' with Kickers '754'", Hand::OnePair { pair: Rank::from_str("2").unwrap(), kickers: ranks("4,5,7") }.to_string());
    assert_eq!("One Pair of '2' with Kickers '7??'", Hand::OnePair { pair: Rank::from_str("2").unwrap(), kickers: ranks("7") }.to_string());
    assert_eq!("One Pair of 'A' with Kickers 'K52'", Hand::OnePair { pair: Rank::from_str("A").unwrap(), kickers: ranks("K,5,2") }.to_string());
    assert_eq!("One Pair of 'J' with Kickers 'T??'", Hand::OnePair { pair: Rank::from_str("J").unwrap(), kickers: ranks("T") }.to_string());
}

#[test]
fn display_twopair() {
    assert_eq!("Two Pair of '3' over '2' with Kickers '?'", Hand::TwoPair { pairs: ranks("2,3"), kickers: none() }.to_string());
    assert_eq!("Two Pair of 'K' over 'T' with Kickers '3'", Hand::TwoPair { pairs: ranks("K,T"), kickers: ranks("3") }.to_string());
}

#[test]
fn display_threeofakind() {
    assert_eq!("Three of a Kind of '2' with Kickers '??'", Hand::ThreeOfAKind { trip: Rank::from_str("2").unwrap(), kickers: none() }.to_string());
    assert_eq!("Three of a Kind of '2' with Kickers '75'", Hand::ThreeOfAKind { trip: Rank::from_str("2").unwrap(), kickers: ranks("5,7") }.to_string());
    assert_eq!("Three of a Kind of '2' with Kickers '7?'", Hand::ThreeOfAKind { trip: Rank::from_str("2").unwrap(), kickers: ranks("7") }.to_string());
    assert_eq!("Three of a Kind of 'A' with Kickers 'K2'", Hand::ThreeOfAKind { trip: Rank::from_str("A").unwrap(), kickers: ranks("K,2") }.to_string());
    assert_eq!("Three of a Kind of 'J' with Kickers 'T?'", Hand::ThreeOfAKind { trip: Rank::from_str("J").unwrap(), kickers: ranks("T") }.to_string());
}

#[test]
fn display_straight() {
    // the straight from the ace to the five
    assert_eq!("Straight to '5'", Hand::Straight { top: Rank::Five }.to_string());
    assert_eq!("Straight to 'A'", Hand::Straight { top: Rank::Ace }.to_string());
    assert_eq!("Straight to '9'", Hand::Straight { top: Rank::Nine }.to_string());
    assert_eq!("Straight to 'Q'", Hand::Straight { top: Rank::Queen }.to_string());
}

#[test]
fn display_flush() {
    assert_eq!("Flush with 'AT543'", Hand::Flush { ranks: ranks("3,4,5,T,A") }.to_string());
    assert_eq!("Flush with 'KT853'", Hand::Flush { ranks: ranks("3,5,8,T,K") }.to_string());
}

#[test]
fn display_fullhouse() {
    assert_eq!("Full House of 'A' over 'K'", Hand::FullHouse { trip: Rank::Ace, pair: Rank::King }.to_string());
    assert_eq!("Full House of 'K' over 'A'", Hand::FullHouse { trip: Rank::King, pair: Rank::Ace }.to_string());
}

#[test]
fn display_fourofakind() {
    assert_eq!("Four of a Kind of '2' with Kickers '?'", Hand::FourOfAKind { quad: Rank::Two, kickers: none() }.to_string());
    assert_eq!("Four of a Kind of '2' with Kickers '7'", Hand::FourOfAKind { quad: Rank::Two, kickers: ranks("7") }.to_string());
    assert_eq!("Four of a Kind of 'J' with Kickers 'T'", Hand::FourOfAKind { quad: Rank::Jack, kickers: ranks("T") }.to_string());
}

#[test]
fn display_straightflush() {
    assert_eq!("Straight Flush to '5'", Hand::StraightFlush { top: Rank::Five }.to_string());
    assert_eq!("Straight Flush to 'A'", Hand::StraightFlush { top: Rank::Ace }.to_string());
    assert_eq!("Straight Flush to '9'", Hand::StraightFlush { top: Rank::Nine }.to_string());
    assert_eq!("Straight Flush to 'Q'", Hand::StraightFlush { top: Rank::Queen }.to_string());
}

fn assert_lt(lhs: Hand, rhs: Hand) {
    assert!(lhs < rhs);
    // the strength as one number orders the hands the same way
    assert!(lhs.strength() < rhs.strength());
}

#[test]
fn compare_hands() {
    assert_eq!(Hand::HighCard { kickers: ranks("2,3,4,5,7") }, Hand::HighCard { kickers: ranks("2,3,4,5,7") });
    assert_ne!(Hand::HighCard { kickers: ranks("2,3,4,5,8") }, Hand::HighCard { kickers: ranks("2,3,4,5,7") });
    assert_lt(Hand::HighCard { kickers: ranks("2,3,4,5") }, Hand::HighCard { kickers: ranks("2,3,4,5,8") });
    assert_lt(Hand::HighCard { kickers: ranks("3,4,5,8") }, Hand::HighCard { kickers: ranks("2,3,4,5,8") });
    assert_lt(Hand::HighCard { kickers: ranks("A,K,Q,J,9") }, Hand::OnePair { pair: Rank::Two, kickers: none() });
    assert_lt(Hand::TwoPair { pairs: ranks("A,K"), kickers: none() }, Hand::ThreeOfAKind { trip: Rank::Two, kickers: none() });
    assert_lt(Hand::ThreeOfAKind { trip: Rank::Two, kickers: none() }, Hand::Straight { top: Rank::Three });
    assert_lt(Hand::Straight { top: Rank::Three }, Hand::Flush { ranks: ranks("A,K,Q,J,9") });
    assert_lt(Hand::Flush { ranks: ranks("A,K,Q,J,9") }, Hand::FullHouse { trip: Rank::Two, pair: Rank::Three });
    assert_lt(Hand::FullHouse { trip: Rank::Two, pair: Rank::Three }, Hand::FourOfAKind { quad: Rank::Two, kickers: none() });
    assert_lt(Hand::FourOfAKind { quad: Rank::Two, kickers: none() }, Hand::StraightFlush { top: Rank::Three });
    assert_lt(Hand::StraightFlush { top: Rank::Three }, Hand::StraightFlush { top: Rank::Ace });
}

#[test]
fn compare_hands_partial() {
    assert_eq!(Hand::HighCard { kickers: ranks("") }, Hand::HighCard { kickers: ranks("") });
    assert_lt(Hand::HighCard { kickers: ranks("") }, Hand::HighCard { kickers: ranks("2") });
    assert_lt(Hand::HighCard { kickers: ranks("2,3,4,5") }, Hand::HighCard { kickers: ranks("2,3,4,5,8") });
}

#[test]
fn strength_values() {
    // category above the fields, the first field above the second
    assert_eq!(Hand::HighCard { kickers: none() }.strength(), 0);
    assert_eq!(Hand::OnePair { pair: Rank::Three, kickers: ranks("2") }.strength(), 0x1_0000_0000 + 0x1_0000 + 1);
    assert_eq!(Hand::StraightFlush { top: Rank::Ace }.strength(), 8 * 0x1_0000_0000 + 12 * 0x1_0000);
}

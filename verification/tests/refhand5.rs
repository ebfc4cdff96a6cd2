use std::str::FromStr;

use dealrs::deck::{CardMask, Rank, RankMask};
use dealrs::hand::refhand5::RefHand5;
use dealrs::hand::{Hand, Hand5};

fn hand_of(cards: &str) -> Hand {
    RefHand5 {}.hand5(CardMask::from_str(cards).unwrap())
}

fn ranks(text: &str) -> RankMask {
    RankMask::from_str(text).unwrap()
}

#[test]
fn test_highcard() {
    let cards = CardMask::from_str("2s3h4s5h7s").unwrap();
    let _hr = RefHand5{}.hand5(cards);
    assert_eq!(_hr, Hand::HighCard { kickers: cards.unsuited() });

    assert_eq!(hand_of("2s3h4s5h7s"), Hand::HighCard { kickers: ranks("23457") });
    assert_ne!(hand_of("2s3h4s5h7s"), Hand::HighCard { kickers: ranks("2345") });
    assert_ne!(hand_of("2s3h4s5h7s"), Hand::HighCard { kickers: ranks("2") });

    assert_eq!(hand_of("2sAh4sJh7s"), Hand::HighCard { kickers: ranks("2A4J7") });
    assert_ne!(hand_of("2sAh4sJh7s"), Hand::HighCard { kickers: ranks("2A4J") });
    assert_ne!(hand_of("2sAh4sJh7s"), Hand::HighCard { kickers: ranks("2") });

    assert_ne!(hand_of("2s2h3c4d5s"), Hand::HighCard { kickers: ranks("22345") });
}

#[test]
fn test_onepair() {
    assert_eq!(hand_of("2s2h3c4d5s"), Hand::OnePair { pair: Rank::Two, kickers: ranks("345") });
    assert_ne!(hand_of("2s2h3c4d5s"), Hand::OnePair { pair: Rank::Two, kickers: ranks("34") });

    assert_eq!(hand_of("AsAh3c4d5s"), Hand::OnePair { pair: Rank::Ace, kickers: ranks("345") });
    assert_ne!(hand_of("AsAh3c4d5s"), Hand::OnePair { pair: Rank::Ace, kickers: ranks("34") });

    assert_ne!(hand_of("AsAh3c3d5s"), Hand::OnePair { pair: Rank::Ace, kickers: ranks("345") });
    assert_ne!(hand_of("AsAh3cAd5s"), Hand::OnePair { pair: Rank::Ace, kickers: ranks("34") });
}

#[test]
fn test_twopair() {
    assert_eq!(hand_of("2s2h3c3d5s"), Hand::TwoPair { pairs: ranks("23"), kickers: ranks("5") });
    assert_ne!(hand_of("2s2h3c3d5s"), Hand::TwoPair { pairs: ranks("23"), kickers: ranks("56") });
}

#[test]
fn test_threeofakind() {
    assert_eq!(hand_of("2s2h2c3d5s"), Hand::ThreeOfAKind { trip: Rank::Two, kickers: ranks("35") });
    assert_ne!(hand_of("2s2h2c3d5s"), Hand::ThreeOfAKind { trip: Rank::Two, kickers: ranks("356") });
}

#[test]
fn test_straight() {
    assert_eq!(hand_of("AsKhQsJhTs"), Hand::Straight { top: Rank::Ace });
    assert_eq!(hand_of("2s3h4s5h6s"), Hand::Straight { top: Rank::Six });
    assert_eq!(hand_of("2s3h4s5hAs"), Hand::Straight { top: Rank::Five });
    assert_eq!(hand_of("2s3h4s5hAcKhQdJhTc"), Hand::Straight { top: Rank::Ace });
    assert_eq!(hand_of("2s3h4s5hAsKhQsJh"), Hand::Straight { top: Rank::Five });
    assert_eq!(hand_of("2s3h4d5hAsKdQdJh6s"), Hand::Straight { top: Rank::Six });
}

#[test]
fn test_flush() {
    assert_eq!(hand_of("2s3s4s5s7s"), Hand::Flush { ranks: ranks("23457") });
    assert_ne!(hand_of("2s3s4s5s7s"), Hand::Flush { ranks: ranks("2345") });
    assert_eq!(hand_of("2s3s4s5s7sTsQs"), Hand::Flush { ranks: ranks("QT754") });

    assert_eq!(hand_of("2c5c8c7c7s9cTcTs"), Hand::Flush { ranks: ranks("T9785") });
}

#[test]
fn test_fullhouse() {
    assert_eq!(hand_of("2s2h2c3d3s"), Hand::FullHouse { trip: Rank::Two, pair: Rank::Three });
    assert_ne!(hand_of("2s2h2c3d3s"), Hand::FullHouse { trip: Rank::Two, pair: Rank::Four });
}

#[test]
fn test_fourofakind() {
    assert_eq!(hand_of("2s2h2c2d5s"), Hand::FourOfAKind { quad: Rank::Two, kickers: ranks("5") });
    assert_ne!(hand_of("2s2h2c2d5s"), Hand::FourOfAKind { quad: Rank::Two, kickers: ranks("56") });
}

#[test]

fn test_straightflush() {
    assert_eq!(hand_of("2s3s4s5s6s"), Hand::StraightFlush { top: Rank::Six });
    assert_eq!(hand_of("6s7s8s9sTs"), Hand::StraightFlush { top: Rank::Ten });
    assert_eq!(hand_of("As2s3s4s5s"), Hand::StraightFlush { top: Rank::Five });
    assert_eq!(hand_of("KsQsJsTs9s"), Hand::StraightFlush { top: Rank::King });

    // test weird wrapping, wheel, and royal flushes
    assert_eq!(hand_of("AsKsQsJsTs2s3s4s5s6s"), Hand::StraightFlush { top: Rank::Ace });
    assert_eq!(hand_of("AsQsJsTs2s3s4s5s"), Hand::StraightFlush { top: Rank::Five });
    assert_eq!(hand_of("AsQsJsTs2s3s4s5s6s"), Hand::StraightFlush { top: Rank::Six });
}

#[test]
fn two_trips_make_a_full_house() {
    // the higher three of a kind, with a pair from the other
    assert_eq!(hand_of("AsAhAcKsKhKc"), Hand::FullHouse { trip: Rank::Ace, pair: Rank::King });
    assert_eq!(hand_of("2s2h2c9s9h9c4d"), Hand::FullHouse { trip: Rank::Nine, pair: Rank::Two });
    // adding a card never makes the hand weaker
    assert!(hand_of("AsAhAcKsKh") <= hand_of("AsAhAcKsKhKc"));
}

#[test]
fn flush_only_from_a_suit_of_five() {
    assert_eq!(hand_of("2s3s4s5s7sKh"), Hand::Flush { ranks: ranks("23457") });
    assert_eq!(hand_of("2h3h4h5h7hAsKs"), Hand::Flush { ranks: ranks("23457") });
    // no suit holds five cards: no flush
    assert_eq!(hand_of("2s3s4s5sKh9d"), Hand::HighCard { kickers: ranks("K9543") });
}

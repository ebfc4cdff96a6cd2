use std::str::FromStr;

use dealrs::deck::{CardMask, Rank, RankMask};
use dealrs::hand::refbest5::RefBest5;
use dealrs::hand::{Best5, Hand};

fn cards(text: &str) -> CardMask {
    CardMask::from_str(text).unwrap()
}

fn ranks(text: &str) -> RankMask {
    RankMask::from_str(text).unwrap()
}

fn hand_of(text: &str) -> Hand {
    RefBest5 {}.best5(cards(text)).1
}

fn assert_hand_lt(lhs: &str, rhs: &str) {
    let h1 = hand_of(lhs);
    let h2 = hand_of(rhs);
    if !(h1 < h2) {
        panic!("failed assertion: (lhs < rhs)\n\tlhs: {:?}\n\trhs: {:?}", h1, h2);
    }
}

#[test]
fn mod_test_highcard() {
    let c = cards("2s3h4s5h7s");
    let hr = RefBest5 {}.best5(c);
    assert_eq!(hr.1, Hand::HighCard { kickers: c.unsuited() });

    assert_eq!(hand_of("2s3h4s5h7s"), Hand::HighCard { kickers: ranks("23457") });
    assert_ne!(hand_of("2s3h4s5h7s"), Hand::HighCard { kickers: ranks("2345") });
    assert_ne!(hand_of("2s3h4s5h7s"), Hand::HighCard { kickers: ranks("2") });

    assert_eq!(hand_of("2sAh4sJh7s"), Hand::HighCard { kickers: ranks("2A4J7") });
    assert_ne!(hand_of("2sAh4sJh7s"), Hand::HighCard { kickers: ranks("2A4J") });
    assert_ne!(hand_of("2sAh4sJh7s"), Hand::HighCard { kickers: ranks("2") });

    assert_ne!(hand_of("2s2h3c4d5s"), Hand::HighCard { kickers: ranks("22345") });
}

#[test]
fn test_pair() {
    assert_eq!(hand_of("2s2h3c4d5s"), Hand::OnePair { pair: Rank::Two, kickers: ranks("345") });
    assert_ne!(hand_of("2s2h3c4d5s"), Hand::OnePair { pair: Rank::Two, kickers: ranks("34") });

    assert_eq!(hand_of("AsAh3c4d5s"), Hand::OnePair { pair: Rank::Ace, kickers: ranks("345") });
    assert_ne!(hand_of("AsAh3c4d5s"), Hand::OnePair { pair: Rank::Ace, kickers: ranks("34") });

    assert_ne!(hand_of("AsAh3c3d5s"), Hand::OnePair { pair: Rank::Ace, kickers: ranks("345") });
    assert_ne!(hand_of("AsAh3cAd5s"), Hand::OnePair { pair: Rank::Ace, kickers: ranks("34") });
}

#[test]
fn mod_test_twopair() {
    assert_eq!(hand_of("2s2h3c3d5s"), Hand::TwoPair { pairs: ranks("23"), kickers: ranks("5") });
    assert_ne!(hand_of("2s2h3c3d5s"), Hand::TwoPair { pairs: ranks("23"), kickers: ranks("56") });
}

#[test]
fn mod_test_threeofakind() {
    assert_eq!(hand_of("2s2h2c3d5s"), Hand::ThreeOfAKind { trip: Rank::Two, kickers: ranks("35") });
    assert_ne!(hand_of("2s2h2c3d5s"), Hand::ThreeOfAKind { trip: Rank::Two, kickers: ranks("356") });
}

#[test]
fn mod_test_straight() {
    assert_eq!(hand_of("2s3h4s5h6s"), Hand::Straight { top: Rank::Six });
    assert_ne!(hand_of("2s3h4s5h6s"), Hand::Straight { top: Rank::Five });
}

#[test]
fn mod_test_flush() {
    assert_eq!(hand_of("2s3s4s5s7s"), Hand::Flush { ranks: ranks("23457") });
    assert_ne!(hand_of("2s3s4s5s7s"), Hand::Flush { ranks: ranks("2345") });
}

#[test]
fn mod_test_fullhouse() {
    assert_eq!(hand_of("2s2h2c3d3s"), Hand::FullHouse { trip: Rank::Two, pair: Rank::Three });
    assert_ne!(hand_of("2s2h2c3d3s"), Hand::FullHouse { trip: Rank::Two, pair: Rank::Four });
}

#[test]
fn mod_test_fourofakind() {
    assert_eq!(hand_of("2s2h2c2d5s"), Hand::FourOfAKind { quad: Rank::Two, kickers: ranks("5") });
    assert_ne!(hand_of("2s2h2c2d5s"), Hand::FourOfAKind { quad: Rank::Two, kickers: ranks("56") });
}

#[test]
fn mod_test_straightflush() {
    assert_eq!(hand_of("2s3s4s5s6s"), Hand::StraightFlush { top: Rank::Six });
    assert_ne!(hand_of("2s3s4s5s6s"), Hand::StraightFlush { top: Rank::Five });
}

#[test]
fn test_cmp_hands() {
    assert_hand_lt("2s3h4s5h7s", "2s3h4s5h8s");
    assert_hand_lt("AsKhJsTh8s", "AsKhJsTh9s");
    assert_hand_lt("2s3h4s5h7s", "2s3h4s5h6s");
    assert_hand_lt("AsAhKsKhKc", "AsAhAcKhKc");
}

#[test]
fn best5_used_cards() {
    // the cards used are the five of the straight, the ace counting low
    let (used, hand) = RefBest5 {}.best5(cards("As2h3d4c5s9h"));
    assert_eq!(hand, Hand::Straight { top: Rank::Five });
    assert_eq!(used, cards("As2h3d4c5s"));
    // a full house uses the three and the best pair among the rest
    let (used, hand) = RefBest5 {}.best5(cards("AsAhAcKhKcKs"));
    assert_eq!(hand, Hand::FullHouse { trip: Rank::Ace, pair: Rank::King });
    assert_eq!(used.count(), 5);
    // four of a kind takes the best kicker of the rest
    let (_, hand) = RefBest5 {}.best5(cards("7s7h7c7d2s9h"));
    assert_eq!(hand, Hand::FourOfAKind { quad: Rank::Seven, kickers: ranks("9") });
}

#[test]
fn best_parts() {
    assert_eq!(RefBest5::best_pair(cards("2s3h4d")), None);
    assert_eq!(RefBest5::best_pair(cards("2s2h4d4c")).map(|(_, r)| r), Some(Rank::Four));
    assert_eq!(RefBest5::best_flush(cards("2s3s4s5s7s9s")).map(|(_, r)| r), Some(ranks("345792").top5()));
    assert_eq!(RefBest5::best_high::<2>(cards("2s3h4d")).count(), 2);
    assert_eq!(RefBest5::best_straightflush(cards("9sTsJsQsKsAs")).map(|(_, r)| r), Some(Rank::Ace));
}

#[test]
fn three_of_a_kind_keeps_two_kickers() {
    assert_eq!(
        hand_of("2s2h2cJd5s7h9h"),
        Hand::ThreeOfAKind { trip: Rank::Two, kickers: RankMask::from_multi(&[Rank::Jack, Rank::Nine]) }
    );
}

#[test]
fn high_card_takes_the_highest_ranks() {
    let (used, hand) = RefBest5 {}.best5(cards("AsKsQsJs9h2d3d"));
    assert_eq!(
        hand,
        Hand::HighCard { kickers: RankMask::from_multi(&[Rank::Ace, Rank::King, Rank::Queen, Rank::Jack, Rank::Nine]) }
    );
    assert_eq!(used, cards("AsKsQsJs9h"));
}

#[test]
fn two_pairs_have_two_ranks() {
    assert_eq!(RefBest5::best_twopair(cards("2s2h3c3d5s")), Some((cards("2s2h3c3d"), (Rank::Three, Rank::Two))));
    assert_eq!(RefBest5::best_twopair(cards("AsAhAcAd")), None);
    assert_eq!(RefBest5::best_twopair(cards("AsAhAcAdKsKh")), Some((cards("AcAdKsKh"), (Rank::Ace, Rank::King))));
}

use std::str::FromStr;

use dealrs::deck::{Card, CardMask, Rank, RankMask, Suit, SuitMask};

#[test]
fn rank_roundtrip_idx() {
    for idx in 0..Rank::NUM {
        let rank = Rank::from_index(idx as u8);
        assert_eq!(rank, Rank::ALL[idx], "created rank does not match expected builtin rank from lookup table");
        assert_eq!(idx, rank.index() as usize, "creation index does not match computed index");
    }
}

#[test]
fn rank_roundtrip_all() {
    for rank in Rank::ALL {
        let idx = rank.index() as usize;
        assert_eq!(rank, Rank::ALL[idx], "created rank does not match expected builtin rank from lookup table");
        assert_eq!(idx, rank.index() as usize, "creation index does not match computed index");
    }
}

#[test]
fn rank_parse_all() {
    for rank in Rank::ALL {
        let text = rank.to_string();
        assert_eq!(rank, Rank::from_str(&text).unwrap(), "created rank does not match expected builtin rank from lookup table");
        assert_eq!(text, rank.data().text, "created rank text does not match expected builtin rank text");
    }
}

#[test]
fn rank_parse_invalid() {
    assert!(Rank::from_str("invalid").is_err());
    assert!(Rank::from_str("22").is_err());
    assert!(Rank::from_str("23").is_err());
    assert!(Rank::from_str("1").is_err());
    assert!(Rank::from_str("10").is_err());
    assert!(Rank::from_str("B").is_err());
    assert!(Rank::from_str("C").is_err());
    assert!(Rank::from_str("AK").is_err());
}

#[test]
fn suit_roundtrip_idx() {
    for idx in 0..Suit::NUM {
        let suit = Suit::from_index(idx as u8);
        assert_eq!(suit, Suit::ALL[idx], "created suit does not match expected builtin suit from lookup table");
        assert_eq!(idx, suit.index() as usize, "creation index does not match computed index");
    }
}

#[test]
fn suit_roundtrip_all() {
    for suit in Suit::ALL {
        let idx = suit.index() as usize;
        assert_eq!(suit, Suit::ALL[idx], "created suit does not match expected builtin suit from lookup table");
        assert_eq!(idx, suit.index() as usize, "creation index does not match computed index");
    }
}

#[test]
fn suit_parse_all() {
    for suit in Suit::ALL {
        let text = suit.to_string();
        assert_eq!(suit, Suit::from_str(&text).unwrap(), "created suit does not match expected builtin suit from lookup table");
        assert_eq!(text, suit.data().text, "created suit text does not match expected builtin suit text");
    }
}

#[test]
fn suit_parse_invalid() {
    assert!(Suit::from_str("invalid").is_err());
    assert!(Suit::from_str("A").is_err());
    assert!(Suit::from_str("AB").is_err());
    assert!(Suit::from_str("AH").is_err());
    assert!(Suit::from_str("AC").is_err());
    assert!(Suit::from_str("AD").is_err());
}

#[test]
fn card_roundtrip_idx() {
    for idx in 0..Card::NUM {
        let card = Card::from_index(idx as u8);
        assert_eq!(card, Card::all()[idx], "created card does not match expected builtin card from lookup table");
        assert_eq!(idx, card.index() as usize, "creation index does not match computed index");
    }
}

#[test]
fn card_roundtrip_all() {
    for card in Card::all() {
        let idx = card.index() as usize;
        assert_eq!(card, Card::all()[idx], "created card does not match expected builtin card from lookup table");
        assert_eq!(idx, card.index() as usize, "creation index does not match computed index");
    }
}

#[test]
fn card_parse_all() {
    for card in Card::all() {
        let text = card.to_string();
        assert_eq!(card, Card::from_str(&text).unwrap(), "created card does not match expected builtin card from lookup table");
        assert_eq!(text, card.to_string(), "created card text does not match expected builtin card text");
    }
}

#[test]
fn card_parse_invalid() {
    assert!(Card::from_str("invalid").is_err());
    assert!(Card::from_str("23").is_err());
    assert!(Card::from_str("23").is_err());
    assert!(Card::from_str("23").is_err());
}

#[test]
fn card_new() {
    // keep special cases here in case something change as a canary test
    assert_eq!(Card::new(Rank::Two, Suit::Spades), Card::from_str("2s").unwrap());
    assert_eq!(Card::new(Rank::Three, Suit::Spades), Card::from_str("3s").unwrap());
    assert_eq!(Card::new(Rank::Four, Suit::Spades), Card::from_str("4s").unwrap());
    assert_eq!(Card::new(Rank::Five, Suit::Spades), Card::from_str("5s").unwrap());
    assert_eq!(Card::new(Rank::Six, Suit::Spades), Card::from_str("6s").unwrap());
    assert_eq!(Card::new(Rank::Seven, Suit::Spades), Card::from_str("7s").unwrap());
    assert_eq!(Card::new(Rank::Eight, Suit::Spades), Card::from_str("8s").unwrap());
    assert_eq!(Card::new(Rank::Nine, Suit::Spades), Card::from_str("9s").unwrap());
    assert_eq!(Card::new(Rank::Ten, Suit::Spades), Card::from_str("Ts").unwrap());
    assert_eq!(Card::new(Rank::Jack, Suit::Spades), Card::from_str("Js").unwrap());
    assert_eq!(Card::new(Rank::Queen, Suit::Spades), Card::from_str("Qs").unwrap());
    assert_eq!(Card::new(Rank::King, Suit::Spades), Card::from_str("Ks").unwrap());
    assert_eq!(Card::new(Rank::Ace, Suit::Spades), Card::from_str("As").unwrap());
    assert_eq!(Card::new(Rank::Two, Suit::Hearts), Card::from_str("2h").unwrap());
    assert_eq!(Card::new(Rank::Three, Suit::Hearts), Card::from_str("3h").unwrap());
    assert_eq!(Card::new(Rank::Four, Suit::Hearts), Card::from_str("4h").unwrap());
    assert_eq!(Card::new(Rank::Five, Suit::Hearts), Card::from_str("5h").unwrap());
    assert_eq!(Card::new(Rank::Six, Suit::Hearts), Card::from_str("6h").unwrap());
    assert_eq!(Card::new(Rank::Seven, Suit::Hearts), Card::from_str("7h").unwrap());
    assert_eq!(Card::new(Rank::Eight, Suit::Hearts), Card::from_str("8h").unwrap());
    assert_eq!(Card::new(Rank::Nine, Suit::Hearts), Card::from_str("9h").unwrap());
    assert_eq!(Card::new(Rank::Ten, Suit::Hearts), Card::from_str("Th").unwrap());
    assert_eq!(Card::new(Rank::Ten, Suit::Hearts), Card::from_str("Th").unwrap());
    assert_eq!(Card::new(Rank::Queen, Suit::Hearts), Card::from_str("Qh").unwrap());
    assert_eq!(Card::new(Rank::King, Suit::Hearts), Card::from_str("Kh").unwrap());
    assert_eq!(Card::new(Rank::Ace, Suit::Hearts), Card::from_str("Ah").unwrap());
    assert_eq!(Card::new(Rank::Two, Suit::Clubs), Card::from_str("2c").unwrap());
    assert_eq!(Card::new(Rank::Three, Suit::Clubs), Card::from_str("3c").unwrap());
    assert_eq!(Card::new(Rank::Four, Suit::Clubs), Card::from_str("4c").unwrap());
    assert_eq!(Card::new(Rank::Five, Suit::Clubs), Card::from_str("5c").unwrap());
    assert_eq!(Card::new(Rank::Six, Suit::Clubs), Card::from_str("6c").unwrap());
    assert_eq!(Card::new(Rank::Seven, Suit::Clubs), Card::from_str("7c").unwrap());
    assert_eq!(Card::new(Rank::Eight, Suit::Clubs), Card::from_str("8c").unwrap());
    assert_eq!(Card::new(Rank::Nine, Suit::Clubs), Card::from_str("9c").unwrap());
    assert_eq!(Card::new(Rank::Ten, Suit::Clubs), Card::from_str("Tc").unwrap());
    assert_eq!(Card::new(Rank::Jack, Suit::Clubs), Card::from_str("Jc").unwrap());
    assert_eq!(Card::new(Rank::Queen, Suit::Clubs), Card::from_str("Qc").unwrap());
    assert_eq!(Card::new(Rank::King, Suit::Clubs), Card::from_str("Kc").unwrap());
    assert_eq!(Card::new(Rank::Ace, Suit::Clubs), Card::from_str("Ac").unwrap());
    assert_eq!(Card::new(Rank::Two, Suit::Diamonds), Card::from_str("2d").unwrap());
    assert_eq!(Card::new(Rank::Three, Suit::Diamonds), Card::from_str("3d").unwrap());
    assert_eq!(Card::new(Rank::Four, Suit::Diamonds), Card::from_str("4d").unwrap());
    assert_eq!(Card::new(Rank::Five, Suit::Diamonds), Card::from_str("5d").unwrap());
    assert_eq!(Card::new(Rank::Six, Suit::Diamonds), Card::from_str("6d").unwrap());
    assert_eq!(Card::new(Rank::Seven, Suit::Diamonds), Card::from_str("7d").unwrap());
    assert_eq!(Card::new(Rank::Eight, Suit::Diamonds), Card::from_str("8d").unwrap());
    assert_eq!(Card::new(Rank::Nine, Suit::Diamonds), Card::from_str("9d").unwrap());
    assert_eq!(Card::new(Rank::Ten, Suit::Diamonds), Card::from_str("Td").unwrap());
    assert_eq!(Card::new(Rank::Jack, Suit::Diamonds), Card::from_str("Jd").unwrap());
    assert_eq!(Card::new(Rank::Queen, Suit::Diamonds), Card::from_str("Qd").unwrap());
    assert_eq!(Card::new(Rank::King, Suit::Diamonds), Card::from_str("Kd").unwrap());
    assert_eq!(Card::new(Rank::Ace, Suit::Diamonds), Card::from_str("Ad").unwrap());
}



#[test]
fn masks_empty() {
    assert_eq!(RankMask::none(), RankMask::from_str("").unwrap());
    assert_eq!(SuitMask::none(), SuitMask::from_str("").unwrap());
    assert_eq!(CardMask::none(), CardMask::from_str("").unwrap());
}

#[test]
fn cardmask_each() {
    for card in Card::all() {
        let m: CardMask = card.into();
        assert_eq!(m.count(), 1, "expecteded exactly 1 entry in the mask");
        assert!(m.contains(card.into()), "expected the mask to contain the card");
        assert!(m.iter().into_iter().next().unwrap() == card, "expected the mask to contain the card");
        assert!(m.iter().into_iter().collect::<Vec<_>>() == vec![card], "expected the mask to contain the card");
        assert!(m.bits() == 1 << card.index(), "expected the mask to have the correct bits");
    }
}

#[test]
fn cardmask_x2() {
    for c1 in Card::all() {
        for c2 in Card::all() {
            let m1 = CardMask::from(c1);
            let m2 = CardMask::from(c2);
            if m1 > m2 {
                break;
            }
            let m12 = m1 | m2;
            if c1 == c2 {
                assert_eq!(m12.count(), 1, "expected exactly 1 entry in the mask");
                assert!(m12.contains(c1.into()), "expected the mask to contain the card");
                assert!(m12.iter().into_iter().next().unwrap() == c1, "expected the mask to contain the card");
                assert!(m12.iter().into_iter().collect::<Vec<_>>() == vec![c1], "expected the mask to contain the card");
                assert!(m12.bits() == 1 << c1.index(), "expected the mask to have the correct bits");
            } else {
                assert_eq!(m12.count(), 2, "expected exactly 2 entries in the mask");
                assert!(m12.contains(c1.into()), "expected the mask to contain the card");
                assert!(m12.contains(c2.into()), "expected the mask to contain the card");
                assert!(m12.iter().into_iter().next().unwrap() == c1, "expected the mask to contain the card");
                assert!(m12.iter().into_iter().collect::<Vec<_>>() == vec![c1, c2], "expected the mask to contain the card");
                assert!(m12.bits() == (1 << c1.index()) | (1 << c2.index()), "expected the mask to have the correct bits");
            }
        }
    }
}

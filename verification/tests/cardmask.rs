use std::str::FromStr;

use dealrs::deck::{Card, CardMask, Rank, RankMask, Suit};

#[test]
fn test_cmp() {
    assert!(CardMask::from_str("2s3h4s5h7s") < CardMask::from_str("2s3h4s5h8s"));
    assert!(Card::from_str("2s") == Card::from_str("2s"));
    assert!(Card::from_str("2s") != Card::from_str("3h"));
    assert!(Card::from_str("2s") < Card::from_str("3h"));
}


#[test]
fn test_cardmask_roundtrip_all() {
    for card in Card::all() {
        let mask = CardMask::from_single(card);
        assert_eq!(mask.count(), 1);
        assert_eq!(mask.to_bits(), 1 << card.to_index());
        assert_eq!(card, mask.iter().into_iter().next().unwrap());
        assert_eq!(card, mask.iter_reverse().into_iter().next().unwrap());
        assert_eq!(card, mask.topn::<1>().iter().into_iter().next().unwrap());
        assert_eq!(card, mask.topn::<1>().iter_reverse().into_iter().next().unwrap());
        assert_eq!(card, mask.topn::<1>().iter().into_iter().next().unwrap());
    }
}

#[test]
fn test_cardmask_roundtrip_index() {
    for i in 0..Card::NUM as u8 {
        assert_eq!(CardMask::from_single(Card::from_index(i as u8)), CardMask::from_bits(1 << i));
    }
}

#[test]
fn test_cardmask_x0() {
    let m = CardMask::none();
    assert_eq!(m.count(), 0);
    assert_eq!(m.to_bits(), 0);
    assert_eq!(m.empty(), true);
    assert_eq!(m.iter().len(), 0);
    assert_eq!(m.iter_reverse().len(), 0);
    assert_eq!(m.topn::<1>().iter().len(), 0);
    assert_eq!(m.topn::<1>().iter_reverse().len(), 0);
    assert_eq!(m.topn::<1>().iter().len(), 0);
    assert_eq!(m.iter(), &[]);
}

#[test]
fn test_cardmask_x1() {
    for c in Card::all() {
        let m = CardMask::from_single(c);
        assert_eq!(m.count(), 1);
        assert_eq!(m.to_bits(), 1 << c.to_index());
        assert_eq!(m.iter().len(), 1);
        assert_eq!(m.iter_reverse().len(), 1);
        assert_eq!(m.topn::<1>().iter().len(), 1);
        assert_eq!(m.topn::<1>().iter_reverse().len(), 1);
        assert_eq!(m.topn::<1>().iter().len(), 1);
        assert_eq!(m.iter(), &[c]);
    }
}

#[test]
fn test_cardmask_x2() {
    for c1 in Card::all() {
        for c2 in Card::all() {
            let m1 = CardMask::from_single(c1);
            let m2 = CardMask::from_single(c2);
            let m12 = m1.union(m2);
            if c1 != c2 {
                // unique, distinct cards, so they should both be present in the mask
                assert_eq!(m12.count(), 2);
                assert!(m12.contains(CardMask::from_single(c1)));
                assert!(m12.contains(CardMask::from_single(c2)));
                assert_eq!(m12.to_bits(), (1 << c1.to_index()) | (1 << c2.to_index()));
                assert_eq!(m12.empty(), false);
            } else {
                // same card
                assert_eq!(m12.count(), 1);
                assert!(m12.contains(CardMask::from_single(c1)));
                assert_eq!(m12.to_bits(), 1 << c1.to_index());
                assert_eq!(m12.empty(), false);
                assert_eq!(m12.count(), 1);
            }
        }
    }
}

#[test]
fn test_cardmask_x3() {
    for c1 in Card::all() {
        for c2 in Card::all() {
            for c3 in Card::all() {
                let m1 = CardMask::from_single(c1);
                let m2 = CardMask::from_single(c2);
                let m3 = CardMask::from_single(c3);
                let m123 = m1.union(m2).union(m3);
                let m132 = m1.union(m3).union(m2);
                let m213 = m2.union(m1).union(m3);
                let m231 = m2.union(m3).union(m1);
                let m312 = m3.union(m1).union(m2);
                let m321 = m3.union(m2).union(m1);

                // all should be equal masks, order doesn't matter
                assert_eq!(m123, m132);
                assert_eq!(m123, m213);
                assert_eq!(m123, m231);
                assert_eq!(m123, m312);
                assert_eq!(m123, m321);
                assert_eq!(m123.to_bits(), m132.to_bits());
                assert_eq!(m123.to_bits(), m213.to_bits());
                assert_eq!(m123.to_bits(), m231.to_bits());
                assert_eq!(m123.to_bits(), m312.to_bits());
                assert_eq!(m123.to_bits(), m321.to_bits());

                if c1 != c2 && c1 != c3 && c2 != c3 {
                    assert_eq!(m123.count(), 3);
                    assert!(m123.contains(CardMask::from_single(c1)));
                    assert!(m123.contains(CardMask::from_single(c2)));
                    assert!(m123.contains(CardMask::from_single(c3)));
                    assert_eq!(m123.to_bits(), (1 << c1.to_index()) | (1 << c2.to_index()) | (1 << c3.to_index()));
                    assert_eq!(m123.empty(), false);
                }
                if c1 != c3 && c1 != c2 && c3 != c2 {
                    assert_eq!(m132.count(), 3);
                    assert!(m132.contains(CardMask::from_single(c1)));
                    assert!(m132.contains(CardMask::from_single(c3)));
                    assert!(m132.contains(CardMask::from_single(c2)));
                    assert_eq!(m132.to_bits(), (1 << c1.to_index()) | (1 << c3.to_index()) | (1 << c2.to_index()));
                    assert_eq!(m132.empty(), false);
                }
                if c2 != c3 && c2 != c1 && c3 != c1 {
                    assert_eq!(m213.count(), 3);
                    assert!(m213.contains(CardMask::from_single(c2)));
                    assert!(m213.contains(CardMask::from_single(c1)));
                    assert!(m213.contains(CardMask::from_single(c3)));
                    assert_eq!(m213.to_bits(), (1 << c2.to_index()) | (1 << c1.to_index()) | (1 << c3.to_index()));
                    assert_eq!(m213.empty(), false);
                }
                if c2 != c3 && c2 != c1 && c3 != c1 {
                    assert_eq!(m231.count(), 3);
                    assert!(m231.contains(CardMask::from_single(c2)));
                    assert!(m231.contains(CardMask::from_single(c3)));
                    assert!(m231.contains(CardMask::from_single(c1)));
                    assert_eq!(m231.to_bits(), (1 << c2.to_index()) | (1 << c3.to_index()) | (1 << c1.to_index()));
                    assert_eq!(m231.empty(), false);
                }
                if c3 != c1 && c3 != c2 && c1 != c2 {
                    assert_eq!(m312.count(), 3);
                    assert!(m312.contains(CardMask::from_single(c3)));
                    assert!(m312.contains(CardMask::from_single(c1)));
                    assert!(m312.contains(CardMask::from_single(c2)));
                    assert_eq!(m312.to_bits(), (1 << c3.to_index()) | (1 << c1.to_index()) | (1 << c2.to_index()));
                    assert_eq!(m312.empty(), false);
                }

            }
        }
    }
}


#[test]
fn test_cardmask_suits() {
    for suit in Suit::ALL {
        let m = CardMask::from_suit(suit);
        assert_eq!(m.count(), Rank::NUM);
        // check specific binary structure, since other places assume it is contiguous (i.e. 13 bits per suit)
        assert_eq!(m.to_bits(), ((1 << Rank::NUM) - 1) << (suit.to_index() * Rank::NUM as u8));
    }
}

#[test]
fn test_cardmask_unsuited() {
    for card in Card::all() {
        let m = CardMask::from_single(card);
        let m_unsuited = m.unsuited();
        assert_eq!(m_unsuited.count(), 1);
    }
}

#[test]
fn test_cardmask_each_suit() {
    for card in Card::all() {
        let m = CardMask::from_single(card);
        assert_eq!(m.each_suit().len(), 4);
        assert_eq!(m.each_suit().into_iter().filter(|(_, m)| m.contains(RankMask::from_single(card.rank()))).count(), 1);
        assert_eq!(m.each_suit().into_iter().filter(|(_, m)| m.contains(RankMask::from_single(card.rank()))).next().unwrap().0, card.suit());
    }
}

//! Standard poker hands of five cards or fewer, and the engines that find them.
//!
//! * [Hand5]: determine the best hand using up to 5 of the given cards, as a structured [Hand]
//! * [Rank5]: rank the given cards into a comparable number, higher being better
//!
//! [RefHand5](refhand5::RefHand5) is the reference engine for [Hand5]; [LutRank](lutrank::LutRank)
//! is a lookup-table engine for both.

use vstd::prelude::*;
use crate::bits::{bit, count_below, count_bits};
use crate::deck::{rank_char, mask_text, piece_text, CardMask, Rank, RankMask};

pub mod refhand5;
pub mod refbest5;
pub mod keys;
pub mod lutrank;
pub mod lutbest5;
pub mod compact;

verus! {

/// An engine that determines the best hand of five cards or fewer from the given cards.
pub trait Hand5 {
    /// Whether this engine can evaluate the given cards.
    spec fn hand5_accepts(&self, cards: CardMask) -> bool;

    /// Determine the overall best hand of five cards or fewer, using the cards that were given.
    fn hand5(&self, cards: CardMask) -> Hand
        requires
            self.hand5_accepts(cards),
    ;
}

/// An engine that determines the best hand of five cards or fewer from the given cards, along
/// with the cards that make it.
pub trait Best5 {
    /// Determine the best hand of five cards or fewer, and the cards used to make it.
    fn best5(&self, cards: CardMask) -> (CardMask, Hand);
}

/// An engine that ranks the best hand of five cards or fewer into a comparable number, higher
/// being better.
pub trait Rank5 {
    /// Whether this engine can rank the given cards.
    spec fn rank5_accepts(&self, cards: CardMask) -> bool;

    /// Rank the given cards, giving a number comparable to the ranks of other cards.
    fn rank5(&self, cards: CardMask) -> u16
        requires
            self.rank5_accepts(cards),
    ;
}

/// A standard poker hand using five cards or fewer. Variants are declared from worst to best,
/// and each variant's fields in order of their importance, so the derived order is the order
/// of strength.
///
/// A hand may be incomplete: fewer kickers than the category allows mean that fewer cards were
/// given, and such a hand compares below the complete hands of the same category.
#[derive(Debug, Clone, Copy, PartialEq, Eq, Structural, Hash, PartialOrd, Ord)]
pub enum Hand {
    /// No other category; up to 5 kickers break ties.
    HighCard { kickers: RankMask },
    /// Two cards of one rank; up to 3 kickers.
    OnePair { pair: Rank, kickers: RankMask },
    /// Two pairs of separate ranks; up to 1 kicker.
    TwoPair { pairs: RankMask, kickers: RankMask },
    /// Three cards of one rank; up to 2 kickers.
    ThreeOfAKind { trip: Rank, kickers: RankMask },
    /// Five consecutive ranks in any suits, the ace counting high or low.
    Straight { top: Rank },
    /// Five cards of one suit; the top 5 ranks break ties.
    Flush { ranks: RankMask },
    /// Three cards of one rank and two of another.
    FullHouse { trip: Rank, pair: Rank },
    /// Four cards of one rank; up to 1 kicker.
    FourOfAKind { quad: Rank, kickers: RankMask },
    /// Five consecutive ranks of one suit.
    StraightFlush { top: Rank },
}

/// The highest set position of `x` below `n`, if any.
pub open spec fn top_below(x: u64, n: nat) -> Option<nat>
    decreases n,
{
    if n == 0 {
        None
    } else if bit(x, (n - 1) as nat) {
        Some((n - 1) as nat)
    } else {
        top_below(x, (n - 1) as nat)
    }
}

/// `n` question marks, standing for missing kickers.
pub open spec fn qmarks(n: nat) -> Seq<char> {
    Seq::new(n, |i: int| '?')
}

/// The text of the ranks held in `k`, highest first, followed by a `?` for each of the
/// `width` kickers that is missing.
pub open spec fn kickers_text(k: u16, width: nat) -> Seq<char> {
    mask_text(0, k as u64, 0, 13) + qmarks((width - count_below(k as u64, 16)) as nat)
}

/// The text of a single rank.
pub open spec fn rank_text(i: nat) -> Seq<char> {
    seq![rank_char(i)]
}

/// Whether a hand can be written out: no category holds more kickers than it has room for, and
/// two pairs hold two ranks.
pub open spec fn displayable(h: Hand) -> bool {
    match h {
        Hand::HighCard { kickers } => count_below(kickers.0 as u64, 13) <= 5,
        Hand::OnePair { kickers, .. } => count_below(kickers.0 as u64, 16) <= 3,
        Hand::TwoPair { pairs, kickers } => count_below(pairs.0 as u64, 13) >= 2 && count_below(
            kickers.0 as u64,
            16,
        ) <= 1,
        Hand::ThreeOfAKind { kickers, .. } => count_below(kickers.0 as u64, 16) <= 2,
        Hand::FourOfAKind { kickers, .. } => count_below(kickers.0 as u64, 16) <= 1,
        _ => true,
    }
}

/// The description of a hand, as a player reads it.
pub open spec fn hand_text(h: Hand) -> Seq<char> {
    match h {
        Hand::HighCard { kickers } => {
            let x = kickers.0 as u64;
            let (top, t) = match top_below(x, 13) {
                Some(t) => (rank_text(t), t),
                None => (seq!['?'], 0nat),
            };
            "High Card '"@ + top + "' with Kickers '"@ + mask_text(0, x, 0, t) + qmarks(
                (4 - count_below(x, t)) as nat,
            ) + "'"@
        },
        Hand::OnePair { pair, kickers } => "One Pair of '"@ + rank_text(pair.spec_index())
            + "' with Kickers '"@ + kickers_text(kickers.0, 3) + "'"@,
        Hand::TwoPair { pairs, kickers } => {
            let x = pairs.0 as u64;
            let hi = top_below(x, 13).unwrap();
            let lo = top_below(x, hi).unwrap();
            "Two Pair of '"@ + rank_text(hi) + "' over '"@ + rank_text(lo) + "' with Kickers '"@
                + kickers_text(kickers.0, 1) + "'"@
        },
        Hand::ThreeOfAKind { trip, kickers } => "Three of a Kind of '"@ + rank_text(
            trip.spec_index(),
        ) + "' with Kickers '"@ + kickers_text(kickers.0, 2) + "'"@,
        Hand::Straight { top } => "Straight to '"@ + rank_text(top.spec_index()) + "'"@,
        Hand::Flush { ranks } => "Flush with '"@ + mask_text(0, ranks.0 as u64, 0, 13) + "'"@,
        Hand::FullHouse { trip, pair } => "Full House of '"@ + rank_text(trip.spec_index())
            + "' over '"@ + rank_text(pair.spec_index()) + "'"@,
        Hand::FourOfAKind { quad, kickers } => "Four of a Kind of '"@ + rank_text(
            quad.spec_index(),
        ) + "' with Kickers '"@ + kickers_text(kickers.0, 1) + "'"@,
        Hand::StraightFlush { top } => "Straight Flush to '"@ + rank_text(top.spec_index())
            + "'"@,
    }
}

/// The category of a hand, from 0 for a high card up to 8 for a straight flush.
pub open spec fn category(h: Hand) -> nat {
    match h {
        Hand::HighCard { .. } => 0,
        Hand::OnePair { .. } => 1,
        Hand::TwoPair { .. } => 2,
        Hand::ThreeOfAKind { .. } => 3,
        Hand::Straight { .. } => 4,
        Hand::Flush { .. } => 5,
        Hand::FullHouse { .. } => 6,
        Hand::FourOfAKind { .. } => 7,
        Hand::StraightFlush { .. } => 8,
    }
}

/// The fields of a hand, in order of importance, as numbers: a rank by its index, a mask by its
/// bits, and 0 where the category has no such field.
pub open spec fn hand_fields(h: Hand) -> (nat, nat) {
    match h {
        Hand::HighCard { kickers } => (kickers.0 as nat, 0),
        Hand::OnePair { pair, kickers } => (pair.spec_index(), kickers.0 as nat),
        Hand::TwoPair { pairs, kickers } => (pairs.0 as nat, kickers.0 as nat),
        Hand::ThreeOfAKind { trip, kickers } => (trip.spec_index(), kickers.0 as nat),
        Hand::Straight { top } => (top.spec_index(), 0),
        Hand::Flush { ranks } => (ranks.0 as nat, 0),
        Hand::FullHouse { trip, pair } => (trip.spec_index(), pair.spec_index()),
        Hand::FourOfAKind { quad, kickers } => (quad.spec_index(), kickers.0 as nat),
        Hand::StraightFlush { top } => (top.spec_index(), 0),
    }
}

/// The strength of a hand as one number: the category, then the fields in order of importance,
/// so that a stronger hand has a larger number.
pub open spec fn hand_code(h: Hand) -> nat {
    category(h) * 0x1_0000_0000 + hand_fields(h).0 * 0x1_0000 + hand_fields(h).1
}

/// Different hands have different strengths: the strength of a hand determines it.
pub proof fn lemma_hand_code_injective(a: Hand, b: Hand)
    requires
        hand_code(a) == hand_code(b),
    ensures
        a == b,
{
    let (a1, a2) = hand_fields(a);
    let (b1, b2) = hand_fields(b);
    assert(a1 < 0x1_0000 && a2 < 0x1_0000 && b1 < 0x1_0000 && b2 < 0x1_0000) by {
        a.lemma_fields_bound();
        b.lemma_fields_bound();
    }
    assert(category(a) == category(b) && a1 == b1 && a2 == b2) by (nonlinear_arith)
        requires
            category(a) * 0x1_0000_0000 + a1 * 0x1_0000 + a2 == category(b) * 0x1_0000_0000 + b1
                * 0x1_0000 + b2,
            a1 < 0x1_0000,
            a2 < 0x1_0000,
            b1 < 0x1_0000,
            b2 < 0x1_0000,
    ;
    match a {
        Hand::OnePair { pair, .. } => {
            if let Hand::OnePair { pair: p2, .. } = b {
                pair.lemma_index_roundtrip();
                p2.lemma_index_roundtrip();
            }
        },
        Hand::ThreeOfAKind { trip, .. } => {
            if let Hand::ThreeOfAKind { trip: t2, .. } = b {
                trip.lemma_index_roundtrip();
                t2.lemma_index_roundtrip();
            }
        },
        Hand::Straight { top } => {
            if let Hand::Straight { top: t2 } = b {
                top.lemma_index_roundtrip();
                t2.lemma_index_roundtrip();
            }
        },
        Hand::FullHouse { trip, pair } => {
            if let Hand::FullHouse { trip: t2, pair: p2 } = b {
                trip.lemma_index_roundtrip();
                t2.lemma_index_roundtrip();
                pair.lemma_index_roundtrip();
                p2.lemma_index_roundtrip();
            }
        },
        Hand::FourOfAKind { quad, .. } => {
            if let Hand::FourOfAKind { quad: q2, .. } = b {
                quad.lemma_index_roundtrip();
                q2.lemma_index_roundtrip();
            }
        },
        Hand::StraightFlush { top } => {
            if let Hand::StraightFlush { top: t2 } = b {
                top.lemma_index_roundtrip();
                t2.lemma_index_roundtrip();
            }
        },
        _ => {},
    }
}

impl Hand {
    /// The fields of a hand fit in 16 bits.
    pub proof fn lemma_fields_bound(self)
        ensures
            hand_fields(self).0 < 0x1_0000,
            hand_fields(self).1 < 0x1_0000,
            category(self) <= 8,
    {
    }

    /// The strength of this hand as one number (see [hand_code]): a stronger hand has a larger
    /// number.
    pub fn strength(&self) -> (r: u64)
        ensures
            r == hand_code(*self),
    {
        proof {
            self.lemma_fields_bound();
        }
        let (c, a, b): (u64, u64, u64) = match *self {
            Hand::HighCard { kickers } => (0, kickers.0 as u64, 0),
            Hand::OnePair { pair, kickers } => (1, pair.index() as u64, kickers.0 as u64),
            Hand::TwoPair { pairs, kickers } => (2, pairs.0 as u64, kickers.0 as u64),
            Hand::ThreeOfAKind { trip, kickers } => (3, trip.index() as u64, kickers.0 as u64),
            Hand::Straight { top } => (4, top.index() as u64, 0),
            Hand::Flush { ranks } => (5, ranks.0 as u64, 0),
            Hand::FullHouse { trip, pair } => (6, trip.index() as u64, pair.index() as u64),
            Hand::FourOfAKind { quad, kickers } => (7, quad.index() as u64, kickers.0 as u64),
            Hand::StraightFlush { top } => (8, top.index() as u64, 0),
        };
        c * 0x1_0000_0000 + a * 0x1_0000 + b
    }

    /// Whether this hand can be written out: no more kickers than its category has, and two
    /// pairs for two pairs.
    pub fn is_displayable(&self) -> (r: bool)
        ensures
            r == displayable(*self),
    {
        match *self {
            Hand::HighCard { kickers } => count_bits(kickers.0 as u64, 13) <= 5,
            Hand::OnePair { kickers, .. } => count_bits(kickers.0 as u64, 16) <= 3,
            Hand::TwoPair { pairs, kickers } => count_bits(pairs.0 as u64, 13) >= 2 && count_bits(kickers.0 as u64, 16) <= 1,
            Hand::ThreeOfAKind { kickers, .. } => count_bits(kickers.0 as u64, 16) <= 2,
            Hand::FourOfAKind { kickers, .. } => count_bits(kickers.0 as u64, 16) <= 1,
            _ => true,
        }
    }

    /// The description of this hand, such as `One Pair of 'A' with Kickers 'K52'`; missing
    /// kickers are written `?`.
    pub fn to_string(&self) -> (r: String)
        requires
            displayable(*self),
        ensures
            r@ == hand_text(*self),
    {
        let mut s = String::new();
        match *self {
            Hand::HighCard { kickers } => {
                let x = kickers.0 as u64;
                lit(&mut s, "High Card '");
                let t = top_position(x, 13);
                let t: u8 = match t {
                    Some(t) => {
                        s.append(Rank::from_index(t).text());
                        t
                    },
                    None => {
                        lit(&mut s, "?");
                        proof {
                            reveal_strlit("?");
                        }
                        0
                    },
                };
                lit(&mut s, "' with Kickers '");
                push_ranks(&mut s, x, t);
                let c = count_bits(x, t as u32);
                proof {
                    lemma_top_below_count(x, 13);
                }
                push_qmarks(&mut s, 4 - c as usize);
                lit(&mut s, "'");
            },
            Hand::OnePair { pair, kickers } => {
                lit(&mut s, "One Pair of '");
                s.append(pair.text());
                lit(&mut s, "' with Kickers '");
                push_kickers(&mut s, kickers, 3);
                lit(&mut s, "'");
            },
            Hand::TwoPair { pairs, kickers } => {
                let x = pairs.0 as u64;
                let hi = top_position(x, 13);
                proof {
                    lemma_top_below_count(x, 13);
                }
                let hi = hi.unwrap();
                let lo = top_position(x, hi);
                proof {
                    lemma_top_below_count(x, hi as nat);
                    lemma_count_split(x, hi as nat);
                }
                let lo = lo.unwrap();
                lit(&mut s, "Two Pair of '");
                s.append(Rank::from_index(hi).text());
                lit(&mut s, "' over '");
                s.append(Rank::from_index(lo).text());
                lit(&mut s, "' with Kickers '");
                push_kickers(&mut s, kickers, 1);
                lit(&mut s, "'");
            },
            Hand::ThreeOfAKind { trip, kickers } => {
                lit(&mut s, "Three of a Kind of '");
                s.append(trip.text());
                lit(&mut s, "' with Kickers '");
                push_kickers(&mut s, kickers, 2);
                lit(&mut s, "'");
            },
            Hand::Straight { top } => {
                lit(&mut s, "Straight to '");
                s.append(top.text());
                lit(&mut s, "'");
            },
            Hand::Flush { ranks } => {
                lit(&mut s, "Flush with '");
                push_ranks(&mut s, ranks.0 as u64, 13);
                lit(&mut s, "'");
            },
            Hand::FullHouse { trip, pair } => {
                lit(&mut s, "Full House of '");
                s.append(trip.text());
                lit(&mut s, "' over '");
                s.append(pair.text());
                lit(&mut s, "'");
            },
            Hand::FourOfAKind { quad, kickers } => {
                lit(&mut s, "Four of a Kind of '");
                s.append(quad.text());
                lit(&mut s, "' with Kickers '");
                push_kickers(&mut s, kickers, 1);
                lit(&mut s, "'");
            },
            Hand::StraightFlush { top } => {
                lit(&mut s, "Straight Flush to '");
                s.append(top.text());
                lit(&mut s, "'");
            },
        }
        proof {
            assert(s@ =~= hand_text(*self));
        }
        s
    }
}

/// Appends a piece of text.
fn lit(s: &mut String, t: &str)
    ensures
        final(s)@ == old(s)@ + t@,
{
    s.append(t);
}

/// Appends `n` question marks.
fn push_qmarks(s: &mut String, n: usize)
    ensures
        final(s)@ == old(s)@ + qmarks(n as nat),
{
    let mut i: usize = 0;
    proof {
        reveal_strlit("?");
        assert(s@ =~= old(s)@ + qmarks(0));
    }
    while i < n
        invariant
            i <= n,
            s@ == old(s)@ + qmarks(i as nat),
            "?"@ == seq!['?'],
        decreases n - i,
    {
        s.append("?");
        proof {
            assert(s@ =~= old(s)@ + qmarks((i + 1) as nat));
        }
        i = i + 1;
    }
}

/// Appends the ranks set in `x` below position `hi`, highest first.
fn push_ranks(s: &mut String, x: u64, hi: u8)
    requires
        hi <= 13,
    ensures
        final(s)@ == old(s)@ + mask_text(0, x, 0, hi as nat),
{
    let mut i: u8 = hi;
    proof {
        assert(old(s)@ + mask_text(0, x, 0, hi as nat) =~= s@ + mask_text(0, x, 0, i as nat));
    }
    while i > 0
        invariant
            i <= hi <= 13,
            s@ + mask_text(0, x, 0, i as nat) =~= old(s)@ + mask_text(0, x, 0, hi as nat),
        decreases i,
    {
        let j = i - 1;
        let ghost before = s@;
        if (x >> j) & 1 == 1 {
            s.append(Rank::from_index(j).text());
        }
        proof {
            assert(mask_text(0, x, 0, i as nat) == (if bit(x, j as nat) {
                piece_text(0, j as nat)
            } else {
                Seq::empty()
            }) + mask_text(0, x, 0, j as nat));
            if bit(x, j as nat) {
                assert(s@ =~= before + piece_text(0, j as nat));
            } else {
                assert(s@ == before);
            }
        }
        i = j;
    }
}

/// Appends the kickers held in `k`, highest first, and a `?` for each missing one of `width`.
fn push_kickers(s: &mut String, k: RankMask, width: usize)
    requires
        count_below(k.0 as u64, 16) <= width,
    ensures
        final(s)@ == old(s)@ + kickers_text(k.0, width as nat),
{
    push_ranks(s, k.0 as u64, 13);
    let c = k.count();
    push_qmarks(s, width - c);
    proof {
        assert(final(s)@ =~= old(s)@ + kickers_text(k.0, width as nat));
    }
}

/// The highest set position of `x` below `n`, if any.
fn top_position(x: u64, n: u8) -> (r: Option<u8>)
    requires
        n <= 13,
    ensures
        r matches Some(t) ==> top_below(x, n as nat) == Some(t as nat) && t < n,
        r is None ==> top_below(x, n as nat) is None,
{
    let mut i: u8 = n;
    while i > 0
        invariant
            i <= n <= 13,
            top_below(x, n as nat) == top_below(x, i as nat),
        decreases i,
    {
        let j = i - 1;
        if (x >> j) & 1 == 1 {
            return Some(j);
        }
        i = j;
    }
    None
}

/// Some position is set below `n` exactly when some position is counted there.
proof fn lemma_top_below_count(x: u64, n: nat)
    ensures
        top_below(x, n) is Some <==> count_below(x, n) > 0,
        top_below(x, n) matches Some(t) ==> t < n && bit(x, t) && count_below(x, n) == count_below(
            x,
            t,
        ) + 1,
    decreases n,
{
    if n > 0 {
        lemma_top_below_count(x, (n - 1) as nat);
    }
}

/// The count below the highest set position is one less than the count below `n`.
proof fn lemma_count_split(x: u64, n: nat)
    requires
        top_below(x, n) is Some,
    ensures
        count_below(x, top_below(x, n).unwrap()) + 1 == count_below(x, n),
{
    lemma_top_below_count(x, n);
}

} // verus!

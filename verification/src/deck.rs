//! The standard deck of cards: ranks, suits, cards packed into a byte, and bitmasks for
//! unordered sets of each. A card's index is its rank's index plus 13 times its suit's index,
//! so a card mask holds the ranks of each suit in 13 consecutive bits.

use vstd::prelude::*;
use crate::bits::{
    bit, count_below, single, top_bits, lemma_count_below_bound, lemma_top_bits_subset,
    lemma_bits_below_converse, lemma_u16_ops, lemma_u8_ops, lemma_u16_single, lemma_u8_single,
    lemma_test_bit, lemma_mask13, lemma_or_below, lemma_single_below, count_bits, keep_top_bits, positions, positions_rev,
    lemma_bit_ops, lemma_bit_single, lemma_count_below_add, lemma_count_below_same,
};
use rand_chacha::ChaCha20Rng;
use crate::random::random_below;

verus! {

/// Per-rank data
pub struct RankData {
    pub text: &'static str,
}

#[derive(Debug, Clone, Copy, PartialEq, Eq, Structural, Hash, PartialOrd, Ord)]
pub enum Rank {
    Two,
    Three,
    Four,
    Five,
    Six,
    Seven,
    Eight,
    Nine,
    Ten,
    Jack,
    Queen,
    King,
    Ace,
}

/// The character that writes the rank at position `i`.
pub open spec fn rank_char(i: nat) -> char {
    if i == 0 { '2' } else if i == 1 { '3' } else if i == 2 { '4' } else if i == 3 { '5' } else if i == 4 { '6' } else if i == 5 { '7' } else if i == 6 { '8' } else if i == 7 { '9' } else if i == 8 { 'T' } else if i == 9 { 'J' } else if i == 10 { 'Q' } else if i == 11 { 'K' } else { 'A' }
}

/// The position of the rank that the character `c` writes, if any.
pub open spec fn char_rank(c: char) -> Option<nat> {
    if c == '2' { Some(0nat) } else if c == '3' { Some(1nat) } else if c == '4' { Some(2nat) } else if c == '5' { Some(3nat) } else if c == '6' { Some(4nat) } else if c == '7' { Some(5nat) } else if c == '8' { Some(6nat) } else if c == '9' { Some(7nat) } else if c == 'T' { Some(8nat) } else if c == 'J' { Some(9nat) } else if c == 'Q' { Some(10nat) } else if c == 'K' { Some(11nat) } else if c == 'A' { Some(12nat) } else { None }
}

impl Rank {
    pub const NUM: usize = 13;

    pub const ALL: [Rank; 13] = [Rank::Two, Rank::Three, Rank::Four, Rank::Five, Rank::Six, Rank::Seven, Rank::Eight, Rank::Nine, Rank::Ten, Rank::Jack, Rank::Queen, Rank::King, Rank::Ace];

    /// The position of this rank in `ALL`.
    pub open spec fn spec_index(self) -> nat {
        match self {
            Rank::Two => 0,
            Rank::Three => 1,
            Rank::Four => 2,
            Rank::Five => 3,
            Rank::Six => 4,
            Rank::Seven => 5,
            Rank::Eight => 6,
            Rank::Nine => 7,
            Rank::Ten => 8,
            Rank::Jack => 9,
            Rank::Queen => 10,
            Rank::King => 11,
            Rank::Ace => 12,
        }
    }

    /// The rank at position `i` of `ALL`, for `i < NUM`.
    pub open spec fn from_nat(i: nat) -> Rank {
        if i == 0 { Rank::Two } else if i == 1 { Rank::Three } else if i == 2 { Rank::Four } else if i == 3 { Rank::Five } else if i == 4 { Rank::Six } else if i == 5 { Rank::Seven } else if i == 6 { Rank::Eight } else if i == 7 { Rank::Nine } else if i == 8 { Rank::Ten } else if i == 9 { Rank::Jack } else if i == 10 { Rank::Queen } else if i == 11 { Rank::King } else { Rank::Ace }
    }

    pub proof fn lemma_index_roundtrip(self)
        ensures
            self.spec_index() < 13,
            Rank::from_nat(self.spec_index()) == self,
    {
    }

    pub proof fn lemma_from_nat_roundtrip(i: nat)
        requires
            i < 13,
        ensures
            Rank::from_nat(i).spec_index() == i,
    {
    }

    pub fn index(self) -> (r: u8)
        ensures
            r as nat == self.spec_index(),
            r < 13,
    {
        match self {
            Rank::Two => 0,
            Rank::Three => 1,
            Rank::Four => 2,
            Rank::Five => 3,
            Rank::Six => 4,
            Rank::Seven => 5,
            Rank::Eight => 6,
            Rank::Nine => 7,
            Rank::Ten => 8,
            Rank::Jack => 9,
            Rank::Queen => 10,
            Rank::King => 11,
            Rank::Ace => 12,
        }
    }

    pub fn to_index(self) -> (r: u8)
        ensures
            r as nat == self.spec_index(),
            r < 13,
    {
        self.index()
    }

    pub fn from_index(index: u8) -> (r: Rank)
        requires
            index < 13,
        ensures
            r.spec_index() == index as nat,
            r == Rank::from_nat(index as nat),
    {
        match index {
            0 => Rank::Two,
            1 => Rank::Three,
            2 => Rank::Four,
            3 => Rank::Five,
            4 => Rank::Six,
            5 => Rank::Seven,
            6 => Rank::Eight,
            7 => Rank::Nine,
            8 => Rank::Ten,
            9 => Rank::Jack,
            10 => Rank::Queen,
            11 => Rank::King,
            _ => Rank::Ace,
        }
    }

    /// The text that writes this rank.
    pub fn text(self) -> (r: &'static str)
        ensures
            r@ == seq![rank_char(self.spec_index())],
    {
        match self {
            Rank::Two => {
                proof {
                    reveal_strlit("2");
                }
                "2"
            },
            Rank::Three => {
                proof {
                    reveal_strlit("3");
                }
                "3"
            },
            Rank::Four => {
                proof {
                    reveal_strlit("4");
                }
                "4"
            },
            Rank::Five => {
                proof {
                    reveal_strlit("5");
                }
                "5"
            },
            Rank::Six => {
                proof {
                    reveal_strlit("6");
                }
                "6"
            },
            Rank::Seven => {
                proof {
                    reveal_strlit("7");
                }
                "7"
            },
            Rank::Eight => {
                proof {
                    reveal_strlit("8");
                }
                "8"
            },
            Rank::Nine => {
                proof {
                    reveal_strlit("9");
                }
                "9"
            },
            Rank::Ten => {
                proof {
                    reveal_strlit("T");
                }
                "T"
            },
            Rank::Jack => {
                proof {
                    reveal_strlit("J");
                }
                "J"
            },
            Rank::Queen => {
                proof {
                    reveal_strlit("Q");
                }
                "Q"
            },
            Rank::King => {
                proof {
                    reveal_strlit("K");
                }
                "K"
            },
            Rank::Ace => {
                proof {
                    reveal_strlit("A");
                }
                "A"
            },
        }
    }

    pub fn data(self) -> (r: RankData)
        ensures
            r.text@ == seq![rank_char(self.spec_index())],
    {
        RankData { text: self.text() }
    }

    pub fn to_string(&self) -> (r: String)
        ensures
            r@ == seq![rank_char(self.spec_index())],
    {
        self.text().to_owned()
    }

    /// Read a rank from its one-character text.
    pub fn parse(s: &str) -> (r: Result<Rank, &'static str>)
        ensures
            r is Ok <==> (s@.len() == 1 && char_rank(s@[0]) is Some),
            r matches Ok(k) ==> s@.len() == 1 && char_rank(s@[0]) == Some(k.spec_index()),
    {
        if s.unicode_len() != 1 {
            return Err("invalid rank");
        }
        match rank_of_char(s.get_char(0)) {
            Some(k) => Ok(k),
            None => Err("invalid rank"),
        }
    }
}

/// The rank that the character `c` writes, if any.
pub fn rank_of_char(c: char) -> (r: Option<Rank>)
    ensures
        r is Some <==> char_rank(c) is Some,
        r matches Some(k) ==> char_rank(c) == Some(k.spec_index()),
{
    if c == '2' {
        return Some(Rank::Two);
    }
    if c == '3' {
        return Some(Rank::Three);
    }
    if c == '4' {
        return Some(Rank::Four);
    }
    if c == '5' {
        return Some(Rank::Five);
    }
    if c == '6' {
        return Some(Rank::Six);
    }
    if c == '7' {
        return Some(Rank::Seven);
    }
    if c == '8' {
        return Some(Rank::Eight);
    }
    if c == '9' {
        return Some(Rank::Nine);
    }
    if c == 'T' {
        return Some(Rank::Ten);
    }
    if c == 'J' {
        return Some(Rank::Jack);
    }
    if c == 'Q' {
        return Some(Rank::Queen);
    }
    if c == 'K' {
        return Some(Rank::King);
    }
    if c == 'A' {
        return Some(Rank::Ace);
    }
    None
}

impl std::str::FromStr for Rank {
    type Err = &'static str;

    fn from_str(s: &str) -> (r: Result<Rank, &'static str>)
        ensures
            r is Ok <==> (s@.len() == 1 && char_rank(s@[0]) is Some),
            r matches Ok(k) ==> s@.len() == 1 && char_rank(s@[0]) == Some(k.spec_index()),
    {
        Rank::parse(s)
    }
}

/// Per-suit data
pub struct SuitData {
    pub text: &'static str,
}

#[derive(Debug, Clone, Copy, PartialEq, Eq, Structural, Hash, PartialOrd, Ord)]
pub enum Suit {
    Spades,
    Hearts,
    Clubs,
    Diamonds,
}

/// The character that writes the suit at position `i`.
pub open spec fn suit_char(i: nat) -> char {
    if i == 0 { 's' } else if i == 1 { 'h' } else if i == 2 { 'c' } else { 'd' }
}

/// The position of the suit that the character `c` writes, if any.
pub open spec fn char_suit(c: char) -> Option<nat> {
    if c == 's' { Some(0nat) } else if c == 'h' { Some(1nat) } else if c == 'c' { Some(2nat) } else if c == 'd' { Some(3nat) } else { None }
}

impl Suit {
    pub const NUM: usize = 4;

    pub const ALL: [Suit; 4] = [Suit::Spades, Suit::Hearts, Suit::Clubs, Suit::Diamonds];

    /// The position of this suit in `ALL`.
    pub open spec fn spec_index(self) -> nat {
        match self {
            Suit::Spades => 0,
            Suit::Hearts => 1,
            Suit::Clubs => 2,
            Suit::Diamonds => 3,
        }
    }

    /// The suit at position `i` of `ALL`, for `i < NUM`.
    pub open spec fn from_nat(i: nat) -> Suit {
        if i == 0 { Suit::Spades } else if i == 1 { Suit::Hearts } else if i == 2 { Suit::Clubs } else { Suit::Diamonds }
    }

    pub proof fn lemma_index_roundtrip(self)
        ensures
            self.spec_index() < 4,
            Suit::from_nat(self.spec_index()) == self,
    {
    }

    pub proof fn lemma_from_nat_roundtrip(i: nat)
        requires
            i < 4,
        ensures
            Suit::from_nat(i).spec_index() == i,
    {
    }

    pub fn index(self) -> (r: u8)
        ensures
            r as nat == self.spec_index(),
            r < 4,
    {
        match self {
            Suit::Spades => 0,
            Suit::Hearts => 1,
            Suit::Clubs => 2,
            Suit::Diamonds => 3,
        }
    }

    pub fn to_index(self) -> (r: u8)
        ensures
            r as nat == self.spec_index(),
            r < 4,
    {
        self.index()
    }

    pub fn from_index(index: u8) -> (r: Suit)
        requires
            index < 4,
        ensures
            r.spec_index() == index as nat,
            r == Suit::from_nat(index as nat),
    {
        match index {
            0 => Suit::Spades,
            1 => Suit::Hearts,
            2 => Suit::Clubs,
            _ => Suit::Diamonds,
        }
    }

    /// The text that writes this suit.
    pub fn text(self) -> (r: &'static str)
        ensures
            r@ == seq![suit_char(self.spec_index())],
    {
        match self {
            Suit::Spades => {
                proof {
                    reveal_strlit("s");
                }
                "s"
            },
            Suit::Hearts => {
                proof {
                    reveal_strlit("h");
                }
                "h"
            },
            Suit::Clubs => {
                proof {
                    reveal_strlit("c");
                }
                "c"
            },
            Suit::Diamonds => {
                proof {
                    reveal_strlit("d");
                }
                "d"
            },
        }
    }

    pub fn data(self) -> (r: SuitData)
        ensures
            r.text@ == seq![suit_char(self.spec_index())],
    {
        SuitData { text: self.text() }
    }

    pub fn to_string(&self) -> (r: String)
        ensures
            r@ == seq![suit_char(self.spec_index())],
    {
        self.text().to_owned()
    }

    /// Read a suit from its one-character text.
    pub fn parse(s: &str) -> (r: Result<Suit, &'static str>)
        ensures
            r is Ok <==> (s@.len() == 1 && char_suit(s@[0]) is Some),
            r matches Ok(k) ==> s@.len() == 1 && char_suit(s@[0]) == Some(k.spec_index()),
    {
        if s.unicode_len() != 1 {
            return Err("invalid suit");
        }
        match suit_of_char(s.get_char(0)) {
            Some(k) => Ok(k),
            None => Err("invalid suit"),
        }
    }
}

/// The suit that the character `c` writes, if any.
pub fn suit_of_char(c: char) -> (r: Option<Suit>)
    ensures
        r is Some <==> char_suit(c) is Some,
        r matches Some(k) ==> char_suit(c) == Some(k.spec_index()),
{
    if c == 's' {
        return Some(Suit::Spades);
    }
    if c == 'h' {
        return Some(Suit::Hearts);
    }
    if c == 'c' {
        return Some(Suit::Clubs);
    }
    if c == 'd' {
        return Some(Suit::Diamonds);
    }
    None
}

impl std::str::FromStr for Suit {
    type Err = &'static str;

    fn from_str(s: &str) -> (r: Result<Suit, &'static str>)
        ensures
            r is Ok <==> (s@.len() == 1 && char_suit(s@[0]) is Some),
            r matches Ok(k) ==> s@.len() == 1 && char_suit(s@[0]) == Some(k.spec_index()),
    {
        Suit::parse(s)
    }
}


#[derive(Debug, Clone, Copy, PartialEq, Eq, Structural, Hash, PartialOrd, Ord)]
pub struct Card(u8);

impl Card {
    pub const NUM: usize = 52;

    /// Every card of the deck, in index order.
    pub fn all() -> (r: Vec<Card>)
        ensures
            r.len() == 52,
            forall|i: int| 0 <= i < 52 ==> (#[trigger] r[i]).spec_index() == i,
    {
        let mut out: Vec<Card> = Vec::new();
        let mut i: u8 = 0;
        while i < 52
            invariant
                i <= 52,
                out.len() == i,
                forall|t: int| 0 <= t < i ==> (#[trigger] out[t]).spec_index() == t,
            decreases 52 - i,
        {
            out.push(Card(i));
            i = i + 1;
        }
        out
    }

    /// The card's packed index.
    pub closed spec fn spec_index(self) -> nat {
        self.0 as nat
    }

    /// Every card belongs to the standard deck of 52.
    #[verifier::type_invariant]
    spec fn wf(self) -> bool {
        self.0 < 52
    }

    /// The position of this card's rank.
    pub open spec fn rank_index(self) -> nat {
        self.spec_index() % 13
    }

    /// The position of this card's suit.
    pub open spec fn suit_index(self) -> nat {
        self.spec_index() / 13
    }

    /// The card at packed index `i`.
    pub closed spec fn from_nat(i: nat) -> Card {
        Card(i as u8)
    }

    /// Cards are equal exactly when their indices are.
    pub proof fn lemma_index_injective(a: Card, b: Card)
        ensures
            (a.spec_index() == b.spec_index()) == (a == b),
    {
    }

    pub proof fn lemma_from_nat(i: nat)
        requires
            i < 52,
        ensures
            Card::from_nat(i).spec_index() == i,
    {
    }

    /// The card of the given rank and suit.
    pub fn new(rank: Rank, suit: Suit) -> (r: Card)
        ensures
            r.spec_index() == rank.spec_index() + 13 * suit.spec_index(),
            r.rank_index() == rank.spec_index(),
            r.suit_index() == suit.spec_index(),
    {
        Card(rank.index() + suit.index() * 13)
    }

    pub fn from_index(index: u8) -> (r: Card)
        requires
            index < 52,
        ensures
            r.spec_index() == index,
            r == Card::from_nat(index as nat),
    {
        Card(index)
    }

    pub fn index(self) -> (r: u8)
        ensures
            r == self.spec_index(),
            r < 52,
    {
        proof {
            use_type_invariant(&self);
        }
        self.0
    }

    pub fn to_index(self) -> (r: u8)
        ensures
            r == self.spec_index(),
            r < 52,
    {
        self.index()
    }

    pub fn rank(self) -> (r: Rank)
        ensures
            r.spec_index() == self.rank_index(),
    {
        Rank::from_index(self.index() % 13)
    }

    pub fn suit(self) -> (r: Suit)
        ensures
            r.spec_index() == self.suit_index(),
    {
        Suit::from_index(self.index() / 13)
    }

    /// The two-character text of the card: its rank, then its suit.
    pub fn to_string(&self) -> (r: String)
        ensures
            r@ == seq![rank_char(self.rank_index()), suit_char(self.suit_index())],
    {
        let mut s = self.rank().text().to_owned();
        s.append(self.suit().text());
        s
    }

    /// Read a card from its two-character text.
    pub fn parse(s: &str) -> (r: Result<Card, &'static str>)
        ensures
            r is Ok <==> (s@.len() == 2 && char_rank(s@[0]) is Some && char_suit(s@[1]) is Some),
            r matches Ok(c) ==> s@.len() == 2 && char_rank(s@[0]) == Some(c.rank_index())
                && char_suit(s@[1]) == Some(c.suit_index()),
    {
        if s.unicode_len() != 2 {
            return Err("invalid card");
        }
        let r = match rank_of_char(s.get_char(0)) {
            Some(r) => r,
            None => return Err("invalid card"),
        };
        let t = match suit_of_char(s.get_char(1)) {
            Some(t) => t,
            None => return Err("invalid card"),
        };
        Ok(Card::new(r, t))
    }
}

impl std::str::FromStr for Card {
    type Err = &'static str;

    fn from_str(s: &str) -> (r: Result<Card, &'static str>)
        ensures
            r is Ok <==> (s@.len() == 2 && char_rank(s@[0]) is Some && char_suit(s@[1]) is Some),
            r matches Ok(c) ==> s@.len() == 2 && char_rank(s@[0]) == Some(c.rank_index())
                && char_suit(s@[1]) == Some(c.suit_index()),
    {
        Card::parse(s)
    }
}


#[derive(Debug, Clone, Copy, PartialEq, Eq, Structural, Hash, PartialOrd, Ord)]
pub struct RankMask(pub u16);

impl RankMask {
    /// Whether position `i` is set.
    pub open spec fn has(self, i: nat) -> bool {
        bit(self.0 as u64, i)
    }

    pub fn none() -> (r: RankMask)
        ensures
            r.0 == 0,
    {
        RankMask(0)
    }

    pub fn full() -> (r: RankMask)
        ensures
            r.0 == 0x1fff,
    {
        RankMask(0x1fff)
    }

    pub fn new(bits: u16) -> (r: RankMask)
        ensures
            r.0 == bits,
    {
        RankMask(bits)
    }

    pub fn from_bits(bits: u16) -> (r: RankMask)
        ensures
            r.0 == bits,
    {
        RankMask(bits)
    }

    pub fn bits(self) -> (r: u16)
        ensures
            r == self.0,
    {
        self.0
    }

    pub fn to_bits(self) -> (r: u16)
        ensures
            r == self.0,
    {
        self.0
    }

    /// The mask holding only `kind`.
    pub fn from_single(kind: Rank) -> (r: RankMask)
        ensures
            r.0 as u64 == single(kind.spec_index()),
    {
        let i = kind.index() as u16;
        proof {
            lemma_u16_single(i);
        }
        RankMask(1u16 << i)
    }

    /// The mask holding exactly the items of `many`.
    pub fn from_many(many: &[Rank]) -> (r: RankMask)
        ensures
            r.0 as u64 == ranks_bits(many@),
    {
        let mut mask = RankMask::none();
        let mut i: usize = 0;
        while i < many.len()
            invariant
                i <= many@.len(),
                mask.0 as u64 == ranks_bits(many@.take(i as int)),
            decreases many@.len() - i,
        {
            let one = RankMask::from_single(many[i]);
            proof {
                assert(many@.take(i + 1).drop_last() =~= many@.take(i as int));
                lemma_u16_ops(mask.0, one.0);
            }
            mask = RankMask(mask.0 | one.0);
            i = i + 1;
        }
        proof {
            assert(many@.take(many@.len() as int) =~= many@);
        }
        mask
    }

    /// The mask holding exactly the items of `many`.
    pub fn from_multi(many: &[Rank]) -> (r: RankMask)
        ensures
            r.0 as u64 == ranks_bits(many@),
    {
        RankMask::from_many(many)
    }

    pub fn empty(&self) -> (r: bool)
        ensures
            r == (self.0 == 0),
    {
        self.0 == 0
    }

    /// The number of set positions.
    pub fn count(&self) -> (r: usize)
        ensures
            r as nat == count_below(self.0 as u64, 16),
            r <= 16,
    {
        proof {
            lemma_count_below_bound(self.0 as u64, 16);
        }
        count_bits(self.0 as u64, 16) as usize
    }

    /// Whether every position of `other` is set here.
    pub fn contains(&self, other: RankMask) -> (r: bool)
        ensures
            r == (self.0 & other.0 == other.0),
    {
        (self.0 & other.0) == other.0
    }

    pub fn inverse(&self) -> (r: RankMask)
        ensures
            r.0 == 0x1fff ^ self.0,
    {
        RankMask(0x1fff ^ self.0)
    }

    pub fn union(&self, mask: RankMask) -> (r: RankMask)
        ensures
            r.0 == self.0 | mask.0,
    {
        RankMask(self.0 | mask.0)
    }

    pub fn intersect(&self, mask: RankMask) -> (r: RankMask)
        ensures
            r.0 == self.0 & mask.0,
    {
        RankMask(self.0 & mask.0)
    }

    /// The positions set in exactly one of the two masks.
    pub fn difference(&self, mask: RankMask) -> (r: RankMask)
        ensures
            r.0 == self.0 ^ mask.0,
    {
        RankMask(self.0 ^ mask.0)
    }

    /// The items held, lowest first.
    pub fn iter(&self) -> (r: Vec<Rank>)
        ensures
            r.len() == count_below(self.0 as u64, 13nat),
            forall|j: int| 0 <= j < r.len() ==> self.has(#[trigger] r[j].spec_index()) && r[j].spec_index() < 13,
            forall|j: int, k: int| 0 <= j < k < r.len() ==> r[j].spec_index() < r[k].spec_index(),
            forall|i: nat| i < 13nat && self.has(i) ==> exists|j: int| 0 <= j < r.len() && #[trigger] r[j].spec_index() == i,
    {
        let pos = positions(self.0 as u64, 13u32);
        let mut out: Vec<Rank> = Vec::new();
        let mut j: usize = 0;
        while j < pos.len()
            invariant
                j <= pos.len(),
                out.len() == j,
                forall|t: int| 0 <= t < j ==> #[trigger] out[t].spec_index() == pos[t] as nat,
                forall|t: int| 0 <= t < pos.len() ==> pos[t] < 13u32,
            decreases pos.len() - j,
        {
            out.push(Rank::from_index(pos[j] as u8));
            j = j + 1;
        }
        proof {
            assert forall|i: nat| i < 13nat && self.has(i) implies exists|j: int| 0 <= j < out.len() && #[trigger] out[j].spec_index() == i by {
                let t = choose|t: int| 0 <= t < pos.len() && pos[t] == i;
                assert(out[t].spec_index() == i);
            }
        }
        out
    }

    /// The items held, highest first.
    pub fn iter_reverse(&self) -> (r: Vec<Rank>)
        ensures
            r.len() == count_below(self.0 as u64, 13nat),
            forall|j: int| 0 <= j < r.len() ==> self.has(#[trigger] r[j].spec_index()) && r[j].spec_index() < 13,
            forall|j: int, k: int| 0 <= j < k < r.len() ==> r[j].spec_index() > r[k].spec_index(),
            forall|i: nat| i < 13nat && self.has(i) ==> exists|j: int| 0 <= j < r.len() && #[trigger] r[j].spec_index() == i,
    {
        let pos = positions_rev(self.0 as u64, 13u32);
        let mut out: Vec<Rank> = Vec::new();
        let mut j: usize = 0;
        while j < pos.len()
            invariant
                j <= pos.len(),
                out.len() == j,
                forall|t: int| 0 <= t < j ==> #[trigger] out[t].spec_index() == pos[t] as nat,
                forall|t: int| 0 <= t < pos.len() ==> pos[t] < 13u32,
            decreases pos.len() - j,
        {
            out.push(Rank::from_index(pos[j] as u8));
            j = j + 1;
        }
        proof {
            assert forall|i: nat| i < 13nat && self.has(i) implies exists|j: int| 0 <= j < out.len() && #[trigger] out[j].spec_index() == i by {
                let t = choose|t: int| 0 <= t < pos.len() && pos[t] == i;
                assert(out[t].spec_index() == i);
            }
        }
        out
    }

    /// The `N` highest items held (at least one when any is held, as `N == 0` still takes the
    /// first item before the count is checked).
    pub fn topn<const N: usize>(&self) -> (r: RankMask)
        ensures
            r.0 as u64 == top_bits(self.0 as u64, 13nat, if N == 0 { 1nat } else { N as nat }),
    {
        let k: usize = if N == 0 { 1 } else { N };
        let t = keep_top_bits(self.0 as u64, 13u32, k);
        proof {
            let x = self.0 as u64;
            assert forall|i: nat| 13nat <= i < 64 implies !bit(t, i) by {
                lemma_top_bits_subset(x, 13nat, k as nat, i);
            }
            lemma_bits_below_converse(t, 13nat);
            lemma_u16_single(13);
        }
        RankMask(t as u16)
    }

    pub fn top1(&self) -> (r: RankMask)
        ensures
            r.0 as u64 == top_bits(self.0 as u64, 13nat, 1),
    {
        self.topn::<1>()
    }

    pub fn top2(&self) -> (r: RankMask)
        ensures
            r.0 as u64 == top_bits(self.0 as u64, 13nat, 2),
    {
        self.topn::<2>()
    }

    pub fn top3(&self) -> (r: RankMask)
        ensures
            r.0 as u64 == top_bits(self.0 as u64, 13nat, 3),
    {
        self.topn::<3>()
    }

    pub fn top4(&self) -> (r: RankMask)
        ensures
            r.0 as u64 == top_bits(self.0 as u64, 13nat, 4),
    {
        self.topn::<4>()
    }

    pub fn top5(&self) -> (r: RankMask)
        ensures
            r.0 as u64 == top_bits(self.0 as u64, 13nat, 5),
    {
        self.topn::<5>()
    }

    /// The highest item held, if any.
    pub fn top(&self) -> (r: Option<Rank>)
        ensures
            r is None <==> (forall|i: nat| i < 13nat ==> !self.has(i)),
            r matches Some(k) ==> self.has(k.spec_index()) && forall|i: nat| k.spec_index() < i < 13nat ==> !self.has(i),
    {
        let items = self.iter_reverse();
        if items.len() == 0 {
            proof {
                assert forall|i: nat| i < 13nat implies !self.has(i) by {
                    if self.has(i) {
                        let j = choose|j: int| 0 <= j < items.len() && #[trigger] items[j].spec_index() == i;
                    }
                }
            }
            None
        } else {
            proof {
                assert(self.has(items[0].spec_index()));
                assert forall|i: nat| items[0].spec_index() < i < 13nat implies !self.has(i) by {
                    if self.has(i) {
                        let j = choose|j: int| 0 <= j < items.len() && #[trigger] items[j].spec_index() == i;
                        if j > 0 {
                            assert(items[0].spec_index() > items[j].spec_index());
                        }
                    }
                }
            }
            Some(items[0])
        }
    }
}

impl std::ops::BitOr for RankMask {
    type Output = RankMask;

    fn bitor(self, other: RankMask) -> (r: RankMask) {
        RankMask(self.0 | other.0)
    }
}

impl vstd::std_specs::ops::BitOrSpecImpl for RankMask {
    open spec fn obeys_bitor_spec() -> bool {
        true
    }

    open spec fn bitor_req(self, rhs: RankMask) -> bool {
        true
    }

    open spec fn bitor_spec(self, rhs: RankMask) -> RankMask {
        RankMask(self.0 | rhs.0)
    }
}

impl std::ops::BitAnd for RankMask {
    type Output = RankMask;

    fn bitand(self, other: RankMask) -> (r: RankMask) {
        RankMask(self.0 & other.0)
    }
}

impl vstd::std_specs::ops::BitAndSpecImpl for RankMask {
    open spec fn obeys_bitand_spec() -> bool {
        true
    }

    open spec fn bitand_req(self, rhs: RankMask) -> bool {
        true
    }

    open spec fn bitand_spec(self, rhs: RankMask) -> RankMask {
        RankMask(self.0 & rhs.0)
    }
}

impl std::ops::BitXor for RankMask {
    type Output = RankMask;

    fn bitxor(self, other: RankMask) -> (r: RankMask) {
        RankMask(self.0 ^ other.0)
    }
}

impl vstd::std_specs::ops::BitXorSpecImpl for RankMask {
    open spec fn obeys_bitxor_spec() -> bool {
        true
    }

    open spec fn bitxor_req(self, rhs: RankMask) -> bool {
        true
    }

    open spec fn bitxor_spec(self, rhs: RankMask) -> RankMask {
        RankMask(self.0 ^ rhs.0)
    }
}

impl std::ops::Not for RankMask {
    type Output = RankMask;

    fn not(self) -> (r: RankMask) {
        RankMask(0x1fff ^ self.0)
    }
}

impl vstd::std_specs::ops::NotSpecImpl for RankMask {
    open spec fn obeys_not_spec() -> bool {
        true
    }

    open spec fn not_req(self) -> bool {
        true
    }

    open spec fn not_spec(self) -> RankMask {
        RankMask(0x1fff ^ self.0)
    }
}

impl From<Rank> for RankMask {
    fn from(kind: Rank) -> (r: RankMask) {
        RankMask::from_single(kind)
    }
}

impl vstd::std_specs::convert::FromSpecImpl<Rank> for RankMask {
    open spec fn obeys_from_spec() -> bool {
        true
    }

    open spec fn from_spec(kind: Rank) -> RankMask {
        RankMask(single(kind.spec_index()) as u16)
    }
}

#[derive(Debug, Clone, Copy, PartialEq, Eq, Structural, Hash, PartialOrd, Ord)]
pub struct SuitMask(pub u8);

impl SuitMask {
    /// Whether position `i` is set.
    pub open spec fn has(self, i: nat) -> bool {
        bit(self.0 as u64, i)
    }

    pub fn none() -> (r: SuitMask)
        ensures
            r.0 == 0,
    {
        SuitMask(0)
    }

    pub fn full() -> (r: SuitMask)
        ensures
            r.0 == 0xf,
    {
        SuitMask(0xf)
    }

    pub fn new(bits: u8) -> (r: SuitMask)
        ensures
            r.0 == bits,
    {
        SuitMask(bits)
    }

    pub fn from_bits(bits: u8) -> (r: SuitMask)
        ensures
            r.0 == bits,
    {
        SuitMask(bits)
    }

    pub fn bits(self) -> (r: u8)
        ensures
            r == self.0,
    {
        self.0
    }

    pub fn to_bits(self) -> (r: u8)
        ensures
            r == self.0,
    {
        self.0
    }

    /// The mask holding only `kind`.
    pub fn from_single(kind: Suit) -> (r: SuitMask)
        ensures
            r.0 as u64 == single(kind.spec_index()),
    {
        let i = kind.index() as u8;
        proof {
            lemma_u8_single(i);
        }
        SuitMask(1u8 << i)
    }

    /// The mask holding exactly the items of `many`.
    pub fn from_many(many: &[Suit]) -> (r: SuitMask)
        ensures
            r.0 as u64 == suits_bits(many@),
    {
        let mut mask = SuitMask::none();
        let mut i: usize = 0;
        while i < many.len()
            invariant
                i <= many@.len(),
                mask.0 as u64 == suits_bits(many@.take(i as int)),
            decreases many@.len() - i,
        {
            let one = SuitMask::from_single(many[i]);
            proof {
                assert(many@.take(i + 1).drop_last() =~= many@.take(i as int));
                lemma_u8_ops(mask.0, one.0);
            }
            mask = SuitMask(mask.0 | one.0);
            i = i + 1;
        }
        proof {
            assert(many@.take(many@.len() as int) =~= many@);
        }
        mask
    }

    /// The mask holding exactly the items of `many`.
    pub fn from_multi(many: &[Suit]) -> (r: SuitMask)
        ensures
            r.0 as u64 == suits_bits(many@),
    {
        SuitMask::from_many(many)
    }

    pub fn empty(&self) -> (r: bool)
        ensures
            r == (self.0 == 0),
    {
        self.0 == 0
    }

    /// The number of set positions.
    pub fn count(&self) -> (r: usize)
        ensures
            r as nat == count_below(self.0 as u64, 8),
            r <= 8,
    {
        proof {
            lemma_count_below_bound(self.0 as u64, 8);
        }
        count_bits(self.0 as u64, 8) as usize
    }

    /// Whether every position of `other` is set here.
    pub fn contains(&self, other: SuitMask) -> (r: bool)
        ensures
            r == (self.0 & other.0 == other.0),
    {
        (self.0 & other.0) == other.0
    }

    pub fn inverse(&self) -> (r: SuitMask)
        ensures
            r.0 == 0xf ^ self.0,
    {
        SuitMask(0xf ^ self.0)
    }

    pub fn union(&self, mask: SuitMask) -> (r: SuitMask)
        ensures
            r.0 == self.0 | mask.0,
    {
        SuitMask(self.0 | mask.0)
    }

    pub fn intersect(&self, mask: SuitMask) -> (r: SuitMask)
        ensures
            r.0 == self.0 & mask.0,
    {
        SuitMask(self.0 & mask.0)
    }

    /// The positions set in exactly one of the two masks.
    pub fn difference(&self, mask: SuitMask) -> (r: SuitMask)
        ensures
            r.0 == self.0 ^ mask.0,
    {
        SuitMask(self.0 ^ mask.0)
    }

    /// The items held, lowest first.
    pub fn iter(&self) -> (r: Vec<Suit>)
        ensures
            r.len() == count_below(self.0 as u64, 4nat),
            forall|j: int| 0 <= j < r.len() ==> self.has(#[trigger] r[j].spec_index()) && r[j].spec_index() < 4,
            forall|j: int, k: int| 0 <= j < k < r.len() ==> r[j].spec_index() < r[k].spec_index(),
            forall|i: nat| i < 4nat && self.has(i) ==> exists|j: int| 0 <= j < r.len() && #[trigger] r[j].spec_index() == i,
    {
        let pos = positions(self.0 as u64, 4u32);
        let mut out: Vec<Suit> = Vec::new();
        let mut j: usize = 0;
        while j < pos.len()
            invariant
                j <= pos.len(),
                out.len() == j,
                forall|t: int| 0 <= t < j ==> #[trigger] out[t].spec_index() == pos[t] as nat,
                forall|t: int| 0 <= t < pos.len() ==> pos[t] < 4u32,
            decreases pos.len() - j,
        {
            out.push(Suit::from_index(pos[j] as u8));
            j = j + 1;
        }
        proof {
            assert forall|i: nat| i < 4nat && self.has(i) implies exists|j: int| 0 <= j < out.len() && #[trigger] out[j].spec_index() == i by {
                let t = choose|t: int| 0 <= t < pos.len() && pos[t] == i;
                assert(out[t].spec_index() == i);
            }
        }
        out
    }

    /// The items held, highest first.
    pub fn iter_reverse(&self) -> (r: Vec<Suit>)
        ensures
            r.len() == count_below(self.0 as u64, 4nat),
            forall|j: int| 0 <= j < r.len() ==> self.has(#[trigger] r[j].spec_index()) && r[j].spec_index() < 4,
            forall|j: int, k: int| 0 <= j < k < r.len() ==> r[j].spec_index() > r[k].spec_index(),
            forall|i: nat| i < 4nat && self.has(i) ==> exists|j: int| 0 <= j < r.len() && #[trigger] r[j].spec_index() == i,
    {
        let pos = positions_rev(self.0 as u64, 4u32);
        let mut out: Vec<Suit> = Vec::new();
        let mut j: usize = 0;
        while j < pos.len()
            invariant
                j <= pos.len(),
                out.len() == j,
                forall|t: int| 0 <= t < j ==> #[trigger] out[t].spec_index() == pos[t] as nat,
                forall|t: int| 0 <= t < pos.len() ==> pos[t] < 4u32,
            decreases pos.len() - j,
        {
            out.push(Suit::from_index(pos[j] as u8));
            j = j + 1;
        }
        proof {
            assert forall|i: nat| i < 4nat && self.has(i) implies exists|j: int| 0 <= j < out.len() && #[trigger] out[j].spec_index() == i by {
                let t = choose|t: int| 0 <= t < pos.len() && pos[t] == i;
                assert(out[t].spec_index() == i);
            }
        }
        out
    }

    /// The `N` highest items held (at least one when any is held, as `N == 0` still takes the
    /// first item before the count is checked).
    pub fn topn<const N: usize>(&self) -> (r: SuitMask)
        ensures
            r.0 as u64 == top_bits(self.0 as u64, 4nat, if N == 0 { 1nat } else { N as nat }),
    {
        let k: usize = if N == 0 { 1 } else { N };
        let t = keep_top_bits(self.0 as u64, 4u32, k);
        proof {
            let x = self.0 as u64;
            assert forall|i: nat| 4nat <= i < 64 implies !bit(t, i) by {
                lemma_top_bits_subset(x, 4nat, k as nat, i);
            }
            lemma_bits_below_converse(t, 4nat);
            lemma_u8_single(4);
        }
        SuitMask(t as u8)
    }

    pub fn top1(&self) -> (r: SuitMask)
        ensures
            r.0 as u64 == top_bits(self.0 as u64, 4nat, 1),
    {
        self.topn::<1>()
    }

    pub fn top2(&self) -> (r: SuitMask)
        ensures
            r.0 as u64 == top_bits(self.0 as u64, 4nat, 2),
    {
        self.topn::<2>()
    }

    pub fn top3(&self) -> (r: SuitMask)
        ensures
            r.0 as u64 == top_bits(self.0 as u64, 4nat, 3),
    {
        self.topn::<3>()
    }

    pub fn top4(&self) -> (r: SuitMask)
        ensures
            r.0 as u64 == top_bits(self.0 as u64, 4nat, 4),
    {
        self.topn::<4>()
    }

    pub fn top5(&self) -> (r: SuitMask)
        ensures
            r.0 as u64 == top_bits(self.0 as u64, 4nat, 5),
    {
        self.topn::<5>()
    }

    /// The highest item held, if any.
    pub fn top(&self) -> (r: Option<Suit>)
        ensures
            r is None <==> (forall|i: nat| i < 4nat ==> !self.has(i)),
            r matches Some(k) ==> self.has(k.spec_index()) && forall|i: nat| k.spec_index() < i < 4nat ==> !self.has(i),
    {
        let items = self.iter_reverse();
        if items.len() == 0 {
            proof {
                assert forall|i: nat| i < 4nat implies !self.has(i) by {
                    if self.has(i) {
                        let j = choose|j: int| 0 <= j < items.len() && #[trigger] items[j].spec_index() == i;
                    }
                }
            }
            None
        } else {
            proof {
                assert(self.has(items[0].spec_index()));
                assert forall|i: nat| items[0].spec_index() < i < 4nat implies !self.has(i) by {
                    if self.has(i) {
                        let j = choose|j: int| 0 <= j < items.len() && #[trigger] items[j].spec_index() == i;
                        if j > 0 {
                            assert(items[0].spec_index() > items[j].spec_index());
                        }
                    }
                }
            }
            Some(items[0])
        }
    }
}

impl std::ops::BitOr for SuitMask {
    type Output = SuitMask;

    fn bitor(self, other: SuitMask) -> (r: SuitMask) {
        SuitMask(self.0 | other.0)
    }
}

impl vstd::std_specs::ops::BitOrSpecImpl for SuitMask {
    open spec fn obeys_bitor_spec() -> bool {
        true
    }

    open spec fn bitor_req(self, rhs: SuitMask) -> bool {
        true
    }

    open spec fn bitor_spec(self, rhs: SuitMask) -> SuitMask {
        SuitMask(self.0 | rhs.0)
    }
}

impl std::ops::BitAnd for SuitMask {
    type Output = SuitMask;

    fn bitand(self, other: SuitMask) -> (r: SuitMask) {
        SuitMask(self.0 & other.0)
    }
}

impl vstd::std_specs::ops::BitAndSpecImpl for SuitMask {
    open spec fn obeys_bitand_spec() -> bool {
        true
    }

    open spec fn bitand_req(self, rhs: SuitMask) -> bool {
        true
    }

    open spec fn bitand_spec(self, rhs: SuitMask) -> SuitMask {
        SuitMask(self.0 & rhs.0)
    }
}

impl std::ops::BitXor for SuitMask {
    type Output = SuitMask;

    fn bitxor(self, other: SuitMask) -> (r: SuitMask) {
        SuitMask(self.0 ^ other.0)
    }
}

impl vstd::std_specs::ops::BitXorSpecImpl for SuitMask {
    open spec fn obeys_bitxor_spec() -> bool {
        true
    }

    open spec fn bitxor_req(self, rhs: SuitMask) -> bool {
        true
    }

    open spec fn bitxor_spec(self, rhs: SuitMask) -> SuitMask {
        SuitMask(self.0 ^ rhs.0)
    }
}

impl std::ops::Not for SuitMask {
    type Output = SuitMask;

    fn not(self) -> (r: SuitMask) {
        SuitMask(0xf ^ self.0)
    }
}

impl vstd::std_specs::ops::NotSpecImpl for SuitMask {
    open spec fn obeys_not_spec() -> bool {
        true
    }

    open spec fn not_req(self) -> bool {
        true
    }

    open spec fn not_spec(self) -> SuitMask {
        SuitMask(0xf ^ self.0)
    }
}

impl From<Suit> for SuitMask {
    fn from(kind: Suit) -> (r: SuitMask) {
        SuitMask::from_single(kind)
    }
}

impl vstd::std_specs::convert::FromSpecImpl<Suit> for SuitMask {
    open spec fn obeys_from_spec() -> bool {
        true
    }

    open spec fn from_spec(kind: Suit) -> SuitMask {
        SuitMask(single(kind.spec_index()) as u8)
    }
}

#[derive(Debug, Clone, Copy, PartialEq, Eq, Structural, Hash, PartialOrd, Ord)]
pub struct CardMask(pub u64);

impl CardMask {
    /// Whether position `i` is set.
    pub open spec fn has(self, i: nat) -> bool {
        bit(self.0 as u64, i)
    }

    pub fn none() -> (r: CardMask)
        ensures
            r.0 == 0,
    {
        CardMask(0)
    }

    pub fn full() -> (r: CardMask)
        ensures
            r.0 == 0xf_ffff_ffff_ffff,
    {
        CardMask(0xf_ffff_ffff_ffff)
    }

    pub fn new(bits: u64) -> (r: CardMask)
        ensures
            r.0 == bits,
    {
        CardMask(bits)
    }

    pub fn from_bits(bits: u64) -> (r: CardMask)
        ensures
            r.0 == bits,
    {
        CardMask(bits)
    }

    pub fn bits(self) -> (r: u64)
        ensures
            r == self.0,
    {
        self.0
    }

    pub fn to_bits(self) -> (r: u64)
        ensures
            r == self.0,
    {
        self.0
    }

    /// The mask holding only `kind`.
    pub fn from_single(kind: Card) -> (r: CardMask)
        ensures
            r.0 as u64 == single(kind.spec_index()),
    {
        let i = kind.index() as u64;
        CardMask(1u64 << i)
    }

    /// The mask holding exactly the items of `many`.
    pub fn from_many(many: &[Card]) -> (r: CardMask)
        ensures
            r.0 as u64 == cards_bits(many@),
    {
        let mut mask = CardMask::none();
        let mut i: usize = 0;
        while i < many.len()
            invariant
                i <= many@.len(),
                mask.0 as u64 == cards_bits(many@.take(i as int)),
            decreases many@.len() - i,
        {
            let one = CardMask::from_single(many[i]);
            proof {
                assert(many@.take(i + 1).drop_last() =~= many@.take(i as int));

            }
            mask = CardMask(mask.0 | one.0);
            i = i + 1;
        }
        proof {
            assert(many@.take(many@.len() as int) =~= many@);
        }
        mask
    }

    /// The mask holding exactly the items of `many`.
    pub fn from_multi(many: &[Card]) -> (r: CardMask)
        ensures
            r.0 as u64 == cards_bits(many@),
    {
        CardMask::from_many(many)
    }

    pub fn empty(&self) -> (r: bool)
        ensures
            r == (self.0 == 0),
    {
        self.0 == 0
    }

    /// The number of set positions.
    pub fn count(&self) -> (r: usize)
        ensures
            r as nat == count_below(self.0 as u64, 64),
            r <= 64,
    {
        proof {
            lemma_count_below_bound(self.0 as u64, 64);
        }
        count_bits(self.0 as u64, 64) as usize
    }

    /// Whether every position of `other` is set here.
    pub fn contains(&self, other: CardMask) -> (r: bool)
        ensures
            r == (self.0 & other.0 == other.0),
    {
        (self.0 & other.0) == other.0
    }

    pub fn inverse(&self) -> (r: CardMask)
        ensures
            r.0 == 0xf_ffff_ffff_ffff ^ self.0,
    {
        CardMask(0xf_ffff_ffff_ffff ^ self.0)
    }

    pub fn union(&self, mask: CardMask) -> (r: CardMask)
        ensures
            r.0 == self.0 | mask.0,
    {
        CardMask(self.0 | mask.0)
    }

    pub fn intersect(&self, mask: CardMask) -> (r: CardMask)
        ensures
            r.0 == self.0 & mask.0,
    {
        CardMask(self.0 & mask.0)
    }

    /// The positions set in exactly one of the two masks.
    pub fn difference(&self, mask: CardMask) -> (r: CardMask)
        ensures
            r.0 == self.0 ^ mask.0,
    {
        CardMask(self.0 ^ mask.0)
    }

    /// The items held, lowest first.
    pub fn iter(&self) -> (r: Vec<Card>)
        ensures
            r.len() == count_below(self.0 as u64, 52nat),
            forall|j: int| 0 <= j < r.len() ==> self.has(#[trigger] r[j].spec_index()) && r[j].spec_index() < 52,
            forall|j: int, k: int| 0 <= j < k < r.len() ==> r[j].spec_index() < r[k].spec_index(),
            forall|i: nat| i < 52nat && self.has(i) ==> exists|j: int| 0 <= j < r.len() && #[trigger] r[j].spec_index() == i,
    {
        let pos = positions(self.0 as u64, 52u32);
        let mut out: Vec<Card> = Vec::new();
        let mut j: usize = 0;
        while j < pos.len()
            invariant
                j <= pos.len(),
                out.len() == j,
                forall|t: int| 0 <= t < j ==> #[trigger] out[t].spec_index() == pos[t] as nat,
                forall|t: int| 0 <= t < pos.len() ==> pos[t] < 52u32,
            decreases pos.len() - j,
        {
            out.push(Card::from_index(pos[j] as u8));
            j = j + 1;
        }
        proof {
            assert forall|i: nat| i < 52nat && self.has(i) implies exists|j: int| 0 <= j < out.len() && #[trigger] out[j].spec_index() == i by {
                let t = choose|t: int| 0 <= t < pos.len() && pos[t] == i;
                assert(out[t].spec_index() == i);
            }
        }
        out
    }

    /// The items held, highest first.
    pub fn iter_reverse(&self) -> (r: Vec<Card>)
        ensures
            r.len() == count_below(self.0 as u64, 52nat),
            forall|j: int| 0 <= j < r.len() ==> self.has(#[trigger] r[j].spec_index()) && r[j].spec_index() < 52,
            forall|j: int, k: int| 0 <= j < k < r.len() ==> r[j].spec_index() > r[k].spec_index(),
            forall|i: nat| i < 52nat && self.has(i) ==> exists|j: int| 0 <= j < r.len() && #[trigger] r[j].spec_index() == i,
    {
        let pos = positions_rev(self.0 as u64, 52u32);
        let mut out: Vec<Card> = Vec::new();
        let mut j: usize = 0;
        while j < pos.len()
            invariant
                j <= pos.len(),
                out.len() == j,
                forall|t: int| 0 <= t < j ==> #[trigger] out[t].spec_index() == pos[t] as nat,
                forall|t: int| 0 <= t < pos.len() ==> pos[t] < 52u32,
            decreases pos.len() - j,
        {
            out.push(Card::from_index(pos[j] as u8));
            j = j + 1;
        }
        proof {
            assert forall|i: nat| i < 52nat && self.has(i) implies exists|j: int| 0 <= j < out.len() && #[trigger] out[j].spec_index() == i by {
                let t = choose|t: int| 0 <= t < pos.len() && pos[t] == i;
                assert(out[t].spec_index() == i);
            }
        }
        out
    }

    /// The `N` highest items held (at least one when any is held, as `N == 0` still takes the
    /// first item before the count is checked).
    pub fn topn<const N: usize>(&self) -> (r: CardMask)
        ensures
            r.0 as u64 == top_bits(self.0 as u64, 52nat, if N == 0 { 1nat } else { N as nat }),
    {
        let k: usize = if N == 0 { 1 } else { N };
        let t = keep_top_bits(self.0 as u64, 52u32, k);
        proof {
            let x = self.0 as u64;
            assert forall|i: nat| 52nat <= i < 64 implies !bit(t, i) by {
                lemma_top_bits_subset(x, 52nat, k as nat, i);
            }
            lemma_bits_below_converse(t, 52nat);

        }
        CardMask(t as u64)
    }

    pub fn top1(&self) -> (r: CardMask)
        ensures
            r.0 as u64 == top_bits(self.0 as u64, 52nat, 1),
    {
        self.topn::<1>()
    }

    pub fn top2(&self) -> (r: CardMask)
        ensures
            r.0 as u64 == top_bits(self.0 as u64, 52nat, 2),
    {
        self.topn::<2>()
    }

    pub fn top3(&self) -> (r: CardMask)
        ensures
            r.0 as u64 == top_bits(self.0 as u64, 52nat, 3),
    {
        self.topn::<3>()
    }

    pub fn top4(&self) -> (r: CardMask)
        ensures
            r.0 as u64 == top_bits(self.0 as u64, 52nat, 4),
    {
        self.topn::<4>()
    }

    pub fn top5(&self) -> (r: CardMask)
        ensures
            r.0 as u64 == top_bits(self.0 as u64, 52nat, 5),
    {
        self.topn::<5>()
    }

    /// The highest item held, if any.
    pub fn top(&self) -> (r: Option<Card>)
        ensures
            r is None <==> (forall|i: nat| i < 52nat ==> !self.has(i)),
            r matches Some(k) ==> self.has(k.spec_index()) && forall|i: nat| k.spec_index() < i < 52nat ==> !self.has(i),
    {
        let items = self.iter_reverse();
        if items.len() == 0 {
            proof {
                assert forall|i: nat| i < 52nat implies !self.has(i) by {
                    if self.has(i) {
                        let j = choose|j: int| 0 <= j < items.len() && #[trigger] items[j].spec_index() == i;
                    }
                }
            }
            None
        } else {
            proof {
                assert(self.has(items[0].spec_index()));
                assert forall|i: nat| items[0].spec_index() < i < 52nat implies !self.has(i) by {
                    if self.has(i) {
                        let j = choose|j: int| 0 <= j < items.len() && #[trigger] items[j].spec_index() == i;
                        if j > 0 {
                            assert(items[0].spec_index() > items[j].spec_index());
                        }
                    }
                }
            }
            Some(items[0])
        }
    }
}

impl std::ops::BitOr for CardMask {
    type Output = CardMask;

    fn bitor(self, other: CardMask) -> (r: CardMask) {
        CardMask(self.0 | other.0)
    }
}

impl vstd::std_specs::ops::BitOrSpecImpl for CardMask {
    open spec fn obeys_bitor_spec() -> bool {
        true
    }

    open spec fn bitor_req(self, rhs: CardMask) -> bool {
        true
    }

    open spec fn bitor_spec(self, rhs: CardMask) -> CardMask {
        CardMask(self.0 | rhs.0)
    }
}

impl std::ops::BitAnd for CardMask {
    type Output = CardMask;

    fn bitand(self, other: CardMask) -> (r: CardMask) {
        CardMask(self.0 & other.0)
    }
}

impl vstd::std_specs::ops::BitAndSpecImpl for CardMask {
    open spec fn obeys_bitand_spec() -> bool {
        true
    }

    open spec fn bitand_req(self, rhs: CardMask) -> bool {
        true
    }

    open spec fn bitand_spec(self, rhs: CardMask) -> CardMask {
        CardMask(self.0 & rhs.0)
    }
}

impl std::ops::BitXor for CardMask {
    type Output = CardMask;

    fn bitxor(self, other: CardMask) -> (r: CardMask) {
        CardMask(self.0 ^ other.0)
    }
}

impl vstd::std_specs::ops::BitXorSpecImpl for CardMask {
    open spec fn obeys_bitxor_spec() -> bool {
        true
    }

    open spec fn bitxor_req(self, rhs: CardMask) -> bool {
        true
    }

    open spec fn bitxor_spec(self, rhs: CardMask) -> CardMask {
        CardMask(self.0 ^ rhs.0)
    }
}

impl std::ops::Not for CardMask {
    type Output = CardMask;

    fn not(self) -> (r: CardMask) {
        CardMask(0xf_ffff_ffff_ffff ^ self.0)
    }
}

impl vstd::std_specs::ops::NotSpecImpl for CardMask {
    open spec fn obeys_not_spec() -> bool {
        true
    }

    open spec fn not_req(self) -> bool {
        true
    }

    open spec fn not_spec(self) -> CardMask {
        CardMask(0xf_ffff_ffff_ffff ^ self.0)
    }
}

impl From<Card> for CardMask {
    fn from(kind: Card) -> (r: CardMask) {
        CardMask::from_single(kind)
    }
}

impl vstd::std_specs::convert::FromSpecImpl<Card> for CardMask {
    open spec fn obeys_from_spec() -> bool {
        true
    }

    open spec fn from_spec(kind: Card) -> CardMask {
        CardMask(single(kind.spec_index()) as u64)
    }
}

/// The bits of the ranks of `s`.
pub open spec fn ranks_bits(s: Seq<Rank>) -> u64
    decreases s.len(),
{
    if s.len() == 0 {
        0
    } else {
        ranks_bits(s.drop_last()) | single(s.last().spec_index())
    }
}

/// The bits of the suits of `s`.
pub open spec fn suits_bits(s: Seq<Suit>) -> u64
    decreases s.len(),
{
    if s.len() == 0 {
        0
    } else {
        suits_bits(s.drop_last()) | single(s.last().spec_index())
    }
}

/// The bits of the cards of `s`.
pub open spec fn cards_bits(s: Seq<Card>) -> u64
    decreases s.len(),
{
    if s.len() == 0 {
        0
    } else {
        cards_bits(s.drop_last()) | single(s.last().spec_index())
    }
}

/// The ranks held in suit `s` by the card bits `x`.
pub open spec fn suit_ranks(x: u64, s: nat) -> u16 {
    ((x >> ((13 * s) as u64)) as u16) & 0x1fffu16
}

/// The ranks held in any suit by the card bits `x`.
pub open spec fn all_ranks(x: u64) -> u16 {
    ((x | (x >> 13u64) | (x >> 26u64) | (x >> 39u64)) & 0x1fffu64) as u16
}

/// The suits in which the card bits `x` hold rank `r`.
pub open spec fn rank_suits(x: u64, r: nat) -> u8 {
    (if bit(x, r) { 1u8 } else { 0u8 }) | (if bit(x, r + 13) { 2u8 } else { 0u8 }) | (if bit(
        x,
        r + 26,
    ) { 4u8 } else { 0u8 }) | (if bit(x, r + 39) { 8u8 } else { 0u8 })
}

/// How many suits the card bits `x` hold rank `r` in.
pub open spec fn rank_count(x: u64, r: nat) -> nat {
    (if bit(x, r) { 1nat } else { 0nat }) + (if bit(x, r + 13) { 1nat } else { 0nat }) + (if bit(
        x,
        r + 26,
    ) { 1nat } else { 0nat }) + (if bit(x, r + 39) { 1nat } else { 0nat })
}

/// The suits in which the card bits `x` hold at least one rank.
pub open spec fn present_suits(x: u64) -> u8 {
    (if suit_ranks(x, 0) != 0 { 1u8 } else { 0u8 }) | (if suit_ranks(x, 1) != 0 { 2u8 } else { 0u8 })
        | (if suit_ranks(x, 2) != 0 { 4u8 } else { 0u8 }) | (if suit_ranks(x, 3) != 0 { 8u8 } else {
        0u8
    })
}

/// The card bits of every suit of rank `r`.
pub open spec fn rank_column(r: nat) -> u64 {
    0x80_0400_2001u64 << (r as u64)
}

/// The card bits of every suit of each rank of `s`.
pub open spec fn rank_columns(s: Seq<Rank>) -> u64
    decreases s.len(),
{
    if s.len() == 0 {
        0
    } else {
        rank_columns(s.drop_last()) | rank_column(s.last().spec_index())
    }
}

/// The position written by the piece of text `p`: a rank when `kind == 0`, a suit when
/// `kind == 1`, a card when `kind == 2`.
pub open spec fn piece_index(kind: nat, p: Seq<char>) -> Option<nat> {
    if kind == 0 {
        if p.len() == 1 { char_rank(p[0]) } else { None }
    } else if kind == 1 {
        if p.len() == 1 { char_suit(p[0]) } else { None }
    } else {
        if p.len() == 2 && char_rank(p[0]) is Some && char_suit(p[1]) is Some {
            Some(char_rank(p[0]).unwrap() + 13 * char_suit(p[1]).unwrap())
        } else {
            None
        }
    }
}

/// The length of the text of one item of the given kind.
pub open spec fn piece_width(kind: nat) -> nat {
    if kind == 2 { 2 } else { 1 }
}

/// The position of the first comma of `s`, or its length when there is none.
pub open spec fn first_comma(s: Seq<char>) -> nat
    decreases s.len(),
{
    if s.len() == 0 {
        0
    } else if s[0] == ',' {
        0
    } else {
        1 + first_comma(s.drop_first())
    }
}

/// Reading the comma-separated items of `s` into `acc`, left to right.
pub open spec fn parse_pieces(kind: nat, s: Seq<char>, acc: u64) -> Option<u64>
    decreases s.len(),
{
    let c = first_comma(s);
    match piece_index(kind, s.take(c as int)) {
        None => None,
        Some(i) => if c >= s.len() {
            Some(acc | single(i))
        } else {
            parse_pieces(kind, s.skip((c + 1) as int), acc | single(i))
        },
    }
}

/// Reading the items of `s`, written back to back, into `acc`, left to right.
pub open spec fn parse_chunks(kind: nat, s: Seq<char>, acc: u64) -> Option<u64>
    decreases s.len(),
{
    let w = piece_width(kind);
    if s.len() == 0 {
        Some(acc)
    } else if s.len() < w {
        None
    } else {
        match piece_index(kind, s.take(w as int)) {
            None => None,
            Some(i) => parse_chunks(kind, s.skip(w as int), acc | single(i)),
        }
    }
}

/// The mask written by `s`: items separated by commas when it holds one, and otherwise
/// written back to back.
pub open spec fn parse_mask(kind: nat, s: Seq<char>) -> Option<u64> {
    if s.contains(',') {
        parse_pieces(kind, s, 0)
    } else {
        parse_chunks(kind, s, 0)
    }
}

proof fn lemma_first_comma(s: Seq<char>, m: nat)
    requires
        m <= s.len(),
        forall|k: int| 0 <= k < m ==> s[k] != ',',
        m == s.len() || s[m as int] == ',',
    ensures
        first_comma(s) == m,
    decreases s.len(),
{
    if s.len() > 0 && m > 0 {
        assert forall|k: int| 0 <= k < m - 1 implies s.drop_first()[k] != ',' by {
            assert(s.drop_first()[k] == s[k + 1]);
        }
        lemma_first_comma(s.drop_first(), (m - 1) as nat);
    }
}

proof fn lemma_first_comma_bound(s: Seq<char>)
    ensures
        first_comma(s) <= s.len(),
        first_comma(s) < s.len() ==> s[first_comma(s) as int] == ',',
        forall|k: int| 0 <= k < first_comma(s) ==> s[k] != ',',
    decreases s.len(),
{
    if s.len() > 0 && s[0] != ',' {
        lemma_first_comma_bound(s.drop_first());
        assert forall|k: int| 0 <= k < first_comma(s) implies s[k] != ',' by {
            if k > 0 {
                assert(s[k] == s.drop_first()[k - 1]);
            }
        }
    }
}

/// How many items of the given kind there are.
pub open spec fn kind_num(kind: nat) -> nat {
    if kind == 0 {
        13
    } else if kind == 1 {
        4
    } else {
        52
    }
}

/// The text of the item of the given kind at position `i`.
pub open spec fn piece_text(kind: nat, i: nat) -> Seq<char> {
    if kind == 0 {
        seq![rank_char(i)]
    } else if kind == 1 {
        seq![suit_char(i)]
    } else {
        seq![rank_char(i % 13), suit_char(i / 13)]
    }
}

/// The texts of the items set in `x` at positions `lo..hi`, highest first.
pub open spec fn mask_text(kind: nat, x: u64, lo: nat, hi: nat) -> Seq<char>
    decreases hi,
{
    if hi <= lo {
        Seq::empty()
    } else {
        (if bit(x, (hi - 1) as nat) {
            piece_text(kind, (hi - 1) as nat)
        } else {
            Seq::empty()
        }) + mask_text(kind, x, lo, (hi - 1) as nat)
    }
}

proof fn lemma_parse_pieces_bound(kind: nat, s: Seq<char>, acc: u64)
    requires
        acc < single(kind_num(kind)),
    ensures
        parse_pieces(kind, s, acc) matches Some(m) ==> m < single(kind_num(kind)),
    decreases s.len(),
{
    let c = first_comma(s);
    lemma_first_comma_bound(s);
    match piece_index(kind, s.take(c as int)) {
        None => {},
        Some(i) => {
            lemma_single_below(i, kind_num(kind));
            lemma_or_below(acc, single(i), kind_num(kind));
            if c < s.len() {
                lemma_parse_pieces_bound(kind, s.skip((c + 1) as int), acc | single(i));
            }
        },
    }
}

proof fn lemma_parse_chunks_bound(kind: nat, s: Seq<char>, acc: u64)
    requires
        acc < single(kind_num(kind)),
    ensures
        parse_chunks(kind, s, acc) matches Some(m) ==> m < single(kind_num(kind)),
    decreases s.len(),
{
    let w = piece_width(kind);
    if s.len() >= w && s.len() > 0 {
        match piece_index(kind, s.take(w as int)) {
            None => {},
            Some(i) => {
                lemma_single_below(i, kind_num(kind));
                lemma_or_below(acc, single(i), kind_num(kind));
                lemma_parse_chunks_bound(kind, s.skip(w as int), acc | single(i));
            },
        }
    }
}

/// What a mask's text reads back to lies within the kind's positions.
pub proof fn lemma_parse_mask_bound(kind: nat, s: Seq<char>)
    ensures
        parse_mask(kind, s) matches Some(m) ==> m < single(kind_num(kind)),
{
    crate::bits::lemma_bit_single(kind_num(kind), kind_num(kind));
    crate::bits::lemma_bit_ops(0, 0, kind_num(kind));
    assert(0 < single(kind_num(kind)));
    lemma_parse_pieces_bound(kind, s, 0);
    lemma_parse_chunks_bound(kind, s, 0);
}

/// The characters of `s`.
fn chars_of(s: &str) -> (r: Vec<char>)
    ensures
        r@ == s@,
{
    let n = s.unicode_len();
    let mut out: Vec<char> = Vec::new();
    let mut i: usize = 0;
    while i < n
        invariant
            n == s@.len(),
            i <= n,
            out@ == s@.take(i as int),
        decreases n - i,
    {
        out.push(s.get_char(i));
        proof {
            assert(s@.take(i + 1) =~= s@.take(i as int).push(s@[i as int]));
        }
        i = i + 1;
    }
    proof {
        assert(s@.take(n as int) =~= s@);
    }
    out
}

/// The position written by the characters `v[from..to]`, as in `piece_index`.
fn piece_at(kind: u8, v: &Vec<char>, from: usize, to: usize) -> (r: Option<u8>)
    requires
        kind < 3,
        from <= to <= v.len(),
    ensures
        match r {
            Some(i) => piece_index(kind as nat, v@.subrange(from as int, to as int)) == Some(i as nat),
            None => piece_index(kind as nat, v@.subrange(from as int, to as int)) is None,
        },
{
    let ghost p = v@.subrange(from as int, to as int);
    if kind == 2 {
        if to - from != 2 {
            return None;
        }
        proof {
            assert(p[0] == v@[from as int]);
            assert(p[1] == v@[from + 1]);
        }
        match (rank_of_char(v[from]), suit_of_char(v[from + 1])) {
            (Some(r), Some(t)) => Some(r.index() + 13 * t.index()),
            _ => None,
        }
    } else {
        if to - from != 1 {
            return None;
        }
        proof {
            assert(p[0] == v@[from as int]);
        }
        if kind == 0 {
            match rank_of_char(v[from]) {
                Some(r) => Some(r.index()),
                None => None,
            }
        } else {
            match suit_of_char(v[from]) {
                Some(t) => Some(t.index()),
                None => None,
            }
        }
    }
}

/// Read a mask of the given kind of item from its text, as `parse_mask` describes.
fn parse_mask_bits(kind: u8, s: &str) -> (r: Option<u64>)
    requires
        kind < 3,
    ensures
        r == parse_mask(kind as nat, s@),
{
    let v = chars_of(s);
    let n = v.len();
    let mut has_comma = false;
    let mut k: usize = 0;
    while k < n
        invariant
            v@ == s@,
            n == v.len(),
            k <= n,
            has_comma == exists|t: int| 0 <= t < k && v@[t] == ',',
        decreases n - k,
    {
        if v[k] == ',' {
            has_comma = true;
        }
        k = k + 1;
    }
    proof {
        assert(has_comma == s@.contains(','));
    }
    let mut acc: u64 = 0;
    proof {
        assert(s@.skip(0) =~= s@);
    }
    if has_comma {
        let mut start: usize = 0;
        loop
            invariant
                v@ == s@,
                n == v.len(),
                kind < 3,
                start <= n,
                parse_mask(kind as nat, s@) == parse_pieces(kind as nat, s@.skip(start as int), acc),
            decreases n - start,
        {
            let ghost rest = s@.skip(start as int);
            let mut j = start;
            while j < n && v[j] != ','
                invariant
                    start <= j <= n,
                    n == v.len(),
                    forall|t: int| start <= t < j ==> v@[t] != ',',
                decreases n - j,
            {
                j = j + 1;
            }
            proof {
                lemma_first_comma(rest, (j - start) as nat);
                assert(rest.take((j - start) as int) =~= v@.subrange(start as int, j as int));
            }
            match piece_at(kind, &v, start, j) {
                None => {
                    return None;
                },
                Some(i) => {
                    acc = acc | (1u64 << i);
                    if j >= n {
                        return Some(acc);
                    }
                    proof {
                        assert(rest.skip((j - start) + 1) =~= s@.skip(j + 1));
                    }
                    start = j + 1;
                },
            }
        }
    } else {
        let w: usize = if kind == 2 { 2 } else { 1 };
        let mut start: usize = 0;
        while start < n
            invariant
                v@ == s@,
                n == v.len(),
                kind < 3,
                w as nat == piece_width(kind as nat),
                start <= n,
                !s@.contains(','),
                parse_mask(kind as nat, s@) == parse_chunks(kind as nat, s@.skip(start as int), acc),
            decreases n - start,
        {
            let ghost rest = s@.skip(start as int);
            if n - start < w {
                return None;
            }
            proof {
                assert(rest.take(w as int) =~= v@.subrange(start as int, start + w));
                assert(rest.skip(w as int) =~= s@.skip(start + w));
            }
            match piece_at(kind, &v, start, start + w) {
                None => {
                    return None;
                },
                Some(i) => {
                    acc = acc | (1u64 << i);
                },
            }
            start = start + w;
        }
        proof {
            assert(s@.skip(start as int) =~= Seq::<char>::empty());
        }
        Some(acc)
    }
}

impl RankMask {
    /// Read a mask from its text: items separated by commas when it holds one, and otherwise
    /// written back to back.
    pub fn parse(s: &str) -> (r: Result<RankMask, &'static str>)
        ensures
            r is Ok <==> parse_mask(0, s@) is Some,
            r matches Ok(m) ==> m.0 as u64 == parse_mask(0, s@).unwrap(),
    {
        match parse_mask_bits(0, s) {
            Some(b) => {
                proof {
                    lemma_parse_mask_bound(0, s@);
                    lemma_u16_single(13);
                }
                Ok(RankMask(b as u16))
            },
            None => Err("invalid rank"),
        }
    }

    /// The texts of the items held, highest first.
    pub fn to_string(&self) -> (r: String)
        ensures
            r@ == mask_text(0, self.0 as u64, 0, 13),
    {
        let x = self.0 as u64;
        let mut res = String::new();
        let mut i: u8 = 13;
        proof {
            assert(res@ + mask_text(0, x, 0, i as nat) =~= mask_text(0, x, 0, 13));
        }
        while i > 0
            invariant
                i <= 13,
                x == self.0 as u64,
                res@ + mask_text(0, x, 0, i as nat) =~= mask_text(0, x, 0, 13),
            decreases i,
        {
            let j = i - 1;
            let ghost before = res@;
            if (x >> j) & 1 == 1 {
                res.append(Rank::from_index(j).text());
            }
            proof {
                assert(mask_text(0, x, 0, i as nat) == (if bit(x, j as nat) {
                    piece_text(0, j as nat)
                } else {
                    Seq::empty()
                }) + mask_text(0, x, 0, j as nat));
                if bit(x, j as nat) {
                    assert(res@ =~= before + piece_text(0, j as nat));
                } else {
                    assert(res@ == before);
                }
            }
            i = j;
        }
        res
    }
}

impl std::str::FromStr for RankMask {
    type Err = &'static str;

    fn from_str(s: &str) -> (r: Result<RankMask, &'static str>)
        ensures
            r is Ok <==> parse_mask(0, s@) is Some,
            r matches Ok(m) ==> m.0 as u64 == parse_mask(0, s@).unwrap(),
    {
        RankMask::parse(s)
    }
}

impl SuitMask {
    /// Read a mask from its text: items separated by commas when it holds one, and otherwise
    /// written back to back.
    pub fn parse(s: &str) -> (r: Result<SuitMask, &'static str>)
        ensures
            r is Ok <==> parse_mask(1, s@) is Some,
            r matches Ok(m) ==> m.0 as u64 == parse_mask(1, s@).unwrap(),
    {
        match parse_mask_bits(1, s) {
            Some(b) => {
                proof {
                    lemma_parse_mask_bound(1, s@);
                    lemma_u8_single(4);
                }
                Ok(SuitMask(b as u8))
            },
            None => Err("invalid suit"),
        }
    }

    /// The texts of the items held, highest first.
    pub fn to_string(&self) -> (r: String)
        ensures
            r@ == mask_text(1, self.0 as u64, 0, 4),
    {
        let x = self.0 as u64;
        let mut res = String::new();
        let mut i: u8 = 4;
        proof {
            assert(res@ + mask_text(1, x, 0, i as nat) =~= mask_text(1, x, 0, 4));
        }
        while i > 0
            invariant
                i <= 4,
                x == self.0 as u64,
                res@ + mask_text(1, x, 0, i as nat) =~= mask_text(1, x, 0, 4),
            decreases i,
        {
            let j = i - 1;
            let ghost before = res@;
            if (x >> j) & 1 == 1 {
                res.append(Suit::from_index(j).text());
            }
            proof {
                assert(mask_text(1, x, 0, i as nat) == (if bit(x, j as nat) {
                    piece_text(1, j as nat)
                } else {
                    Seq::empty()
                }) + mask_text(1, x, 0, j as nat));
                if bit(x, j as nat) {
                    assert(res@ =~= before + piece_text(1, j as nat));
                } else {
                    assert(res@ == before);
                }
            }
            i = j;
        }
        res
    }
}

impl std::str::FromStr for SuitMask {
    type Err = &'static str;

    fn from_str(s: &str) -> (r: Result<SuitMask, &'static str>)
        ensures
            r is Ok <==> parse_mask(1, s@) is Some,
            r matches Ok(m) ==> m.0 as u64 == parse_mask(1, s@).unwrap(),
    {
        SuitMask::parse(s)
    }
}

impl CardMask {
    /// Read a mask from its text: items separated by commas when it holds one, and otherwise
    /// written back to back.
    pub fn parse(s: &str) -> (r: Result<CardMask, &'static str>)
        ensures
            r is Ok <==> parse_mask(2, s@) is Some,
            r matches Ok(m) ==> m.0 as u64 == parse_mask(2, s@).unwrap(),
    {
        match parse_mask_bits(2, s) {
            Some(b) => {
                Ok(CardMask(b as u64))
            },
            None => Err("invalid card"),
        }
    }

    /// The texts of the items held, highest first.
    pub fn to_string(&self) -> (r: String)
        ensures
            r@ == mask_text(2, self.0 as u64, 0, 52),
    {
        let x = self.0 as u64;
        let mut res = String::new();
        let mut i: u8 = 52;
        proof {
            assert(res@ + mask_text(2, x, 0, i as nat) =~= mask_text(2, x, 0, 52));
        }
        while i > 0
            invariant
                i <= 52,
                x == self.0 as u64,
                res@ + mask_text(2, x, 0, i as nat) =~= mask_text(2, x, 0, 52),
            decreases i,
        {
            let j = i - 1;
            let ghost before = res@;
            if (x >> j) & 1 == 1 {
                let card = Card::from_index(j);
                let t = card.to_string();
                res.append(t.as_str());
            }
            proof {
                assert(mask_text(2, x, 0, i as nat) == (if bit(x, j as nat) {
                    piece_text(2, j as nat)
                } else {
                    Seq::empty()
                }) + mask_text(2, x, 0, j as nat));
                if bit(x, j as nat) {
                    assert(res@ =~= before + piece_text(2, j as nat));
                } else {
                    assert(res@ == before);
                }
            }
            i = j;
        }
        res
    }
}

impl std::str::FromStr for CardMask {
    type Err = &'static str;

    fn from_str(s: &str) -> (r: Result<CardMask, &'static str>)
        ensures
            r is Ok <==> parse_mask(2, s@) is Some,
            r matches Ok(m) ==> m.0 as u64 == parse_mask(2, s@).unwrap(),
    {
        CardMask::parse(s)
    }
}

impl CardMask {
    /// The ranks held, whatever their suits.
    pub fn unsuited(self) -> (r: RankMask)
        ensures
            r.0 == all_ranks(self.0),
            r.0 < 0x2000,
    {
        let b = self.0;
        proof {
            lemma_mask13(0, b | (b >> 13) | (b >> 26) | (b >> 39));
        }
        RankMask(((b | (b >> 13) | (b >> 26) | (b >> 39)) & 0x1fff) as u16)
    }

    /// The suits held, whatever their ranks.
    pub fn unranked(self) -> (r: SuitMask)
        ensures
            r.0 == present_suits(self.0),
    {
        let a = self.of_suit(Suit::Spades).0 != 0;
        let b = self.of_suit(Suit::Hearts).0 != 0;
        let c = self.of_suit(Suit::Clubs).0 != 0;
        let d = self.of_suit(Suit::Diamonds).0 != 0;
        SuitMask((if a { 1u8 } else { 0u8 }) | (if b { 2u8 } else { 0u8 }) | (if c { 4u8 } else { 0u8 }) | (if d { 8u8 } else { 0u8 }))
    }

    /// Every card of the given suit.
    pub fn from_suit(suit: Suit) -> (r: CardMask)
        ensures
            r.0 == 0x1fffu64 << ((13 * suit.spec_index()) as u64),
    {
        CardMask(0x1fffu64 << (13 * suit.index()))
    }

    /// Every card of the given rank.
    pub fn from_rank(rank: Rank) -> (r: CardMask)
        ensures
            r.0 == rank_column(rank.spec_index()),
    {
        CardMask(0x80_0400_2001u64 << rank.index())
    }

    /// Every card of each of the given ranks.
    pub fn from_ranks(ranks: &[Rank]) -> (r: CardMask)
        ensures
            r.0 == rank_columns(ranks@),
    {
        let mut mask = CardMask::none();
        let mut i: usize = 0;
        while i < ranks.len()
            invariant
                i <= ranks@.len(),
                mask.0 == rank_columns(ranks@.take(i as int)),
            decreases ranks@.len() - i,
        {
            proof {
                assert(ranks@.take(i + 1).drop_last() =~= ranks@.take(i as int));
            }
            mask = mask.union(CardMask::from_rank(ranks[i]));
            i = i + 1;
        }
        proof {
            assert(ranks@.take(ranks@.len() as int) =~= ranks@);
        }
        mask
    }

    /// The ranks held in each suit, in suit order.
    pub fn each_suit(&self) -> (r: Vec<(Suit, RankMask)>)
        ensures
            r.len() == 4,
            forall|i: int| 0 <= i < 4 ==> (#[trigger] r[i]).0 == Suit::from_nat(i as nat) && r[i].1.0
                == suit_ranks(self.0, i as nat),
    {
        let mut out: Vec<(Suit, RankMask)> = Vec::new();
        let mut i: u8 = 0;
        while i < 4
            invariant
                i <= 4,
                out.len() == i,
                forall|t: int| 0 <= t < i ==> (#[trigger] out[t]).0 == Suit::from_nat(t as nat)
                    && out[t].1.0 == suit_ranks(self.0, t as nat),
            decreases 4 - i,
        {
            let suit = Suit::from_index(i);
            out.push((suit, self.of_suit(suit)));
            i = i + 1;
        }
        out
    }

    /// The suits holding each rank, in rank order.
    pub fn each_rank(&self) -> (r: Vec<(Rank, SuitMask)>)
        ensures
            r.len() == 13,
            forall|i: int| 0 <= i < 13 ==> (#[trigger] r[i]).0 == Rank::from_nat(i as nat) && r[i].1.0
                == rank_suits(self.0, i as nat),
    {
        let mut out: Vec<(Rank, SuitMask)> = Vec::new();
        let mut i: u8 = 0;
        while i < 13
            invariant
                i <= 13,
                out.len() == i,
                forall|t: int| 0 <= t < i ==> (#[trigger] out[t]).0 == Rank::from_nat(t as nat)
                    && out[t].1.0 == rank_suits(self.0, t as nat),
            decreases 13 - i,
        {
            let rank = Rank::from_index(i);
            out.push((rank, self.of_rank(rank)));
            i = i + 1;
        }
        out
    }

    /// The ranks held in the given suit.
    pub fn of_suit(self, suit: Suit) -> (r: RankMask)
        ensures
            r.0 == suit_ranks(self.0, suit.spec_index()),
            r.0 < 0x2000,
    {
        let bits = self.0 >> (13 * suit.index());
        proof {
            lemma_mask13(bits as u16, 0);
        }
        RankMask((bits as u16) & 0x1fff)
    }

    /// The suits in which the given rank is held.
    pub fn of_rank(self, rank: Rank) -> (r: SuitMask)
        ensures
            r.0 == rank_suits(self.0, rank.spec_index()),
    {
        let ri = rank.index() as u64;
        proof {
            let x = self.0;
            let k = ri as nat;
            lemma_test_bit(x, k);
            lemma_test_bit(x, k + 13);
            lemma_test_bit(x, k + 26);
            lemma_test_bit(x, k + 39);
        }
        let a = (self.0 & (1u64 << ri)) != 0;
        let b = (self.0 & (1u64 << (ri + 13))) != 0;
        let c = (self.0 & (1u64 << (ri + 26))) != 0;
        let d = (self.0 & (1u64 << (ri + 39))) != 0;
        SuitMask((if a { 1u8 } else { 0u8 }) | (if b { 2u8 } else { 0u8 }) | (if c { 4u8 } else { 0u8 }) | (if d { 8u8 } else { 0u8 }))
    }

    /// How many suits the given rank is held in.
    pub fn of_rank_count(self, rank: Rank) -> (r: usize)
        ensures
            r == rank_count(self.0, rank.spec_index()),
            r <= 4,
    {
        let ri = rank.index() as u64;
        let mut n: usize = 0;
        proof {
            let x = self.0;
            let k = ri as nat;
            lemma_test_bit(x, k);
            lemma_test_bit(x, k + 13);
            lemma_test_bit(x, k + 26);
            lemma_test_bit(x, k + 39);
        }
        if (self.0 & (1u64 << ri)) != 0 {
            n = n + 1;
        }
        if (self.0 & (1u64 << (ri + 13))) != 0 {
            n = n + 1;
        }
        if (self.0 & (1u64 << (ri + 26))) != 0 {
            n = n + 1;
        }
        if (self.0 & (1u64 << (ri + 39))) != 0 {
            n = n + 1;
        }
        n
    }
}


/// Reading back the text of a rank gives that rank.
pub proof fn lemma_rank_text_roundtrip(i: nat)
    requires
        i < 13,
    ensures
        char_rank(rank_char(i)) == Some(i),
{
}

/// Reading back the text of a suit gives that suit.
pub proof fn lemma_suit_text_roundtrip(i: nat)
    requires
        i < 4,
    ensures
        char_suit(suit_char(i)) == Some(i),
{
}

/// Reading back the text of a card gives that card: its two characters give back its rank and
/// its suit, and a card is determined by its rank and its suit.
pub proof fn lemma_card_text_roundtrip(c: Card, d: Card)
    requires
        c.spec_index() < 52,
        d.spec_index() < 52,
    ensures
        char_rank(rank_char(c.rank_index())) == Some(c.rank_index()),
        char_suit(suit_char(c.suit_index())) == Some(c.suit_index()),
        (d.rank_index() == c.rank_index() && d.suit_index() == c.suit_index()) ==> d == c,
{
    lemma_rank_text_roundtrip(c.rank_index());
    lemma_suit_text_roundtrip(c.suit_index());
    if d.rank_index() == c.rank_index() && d.suit_index() == c.suit_index() {
        assert(d.spec_index() == c.spec_index());
        Card::lemma_index_injective(c, d);
    }
}

/// A mask of a single position holds exactly one item.
pub proof fn lemma_single_count(i: nat)
    requires
        i < 64,
    ensures
        count_below(single(i), 64) == 1,
{
    crate::bits::lemma_count_below_zero(64);
    assert forall|j: nat| !#[trigger] bit(0u64, j) by {
        lemma_bit_ops(0, 0, j);
    }
    lemma_count_below_add(0, i, 64);
    assert forall|j: nat| j < 64 implies bit(0u64 | single(i), j) == bit(single(i), j) by {
        lemma_bit_ops(0, single(i), j);
    }
    lemma_count_below_same(0u64 | single(i), single(i), 64);
}

/// The full mask holds exactly the positions below 52.
pub proof fn lemma_full_bits(j: nat)
    ensures
        bit(0xf_ffff_ffff_ffffu64, j) == (j < 52),
{
    assert(crate::bits::low_mask(52) == 0xf_ffff_ffff_ffffu64) by {
        assert(((1u64 << 52u64) - 1u64) as u64 == 0xf_ffff_ffff_ffffu64) by (bit_vector);
    }
    crate::bits::lemma_bit_low_mask(52, j);
}

/// Taking out of `x` the cards `y`, all held in `x`, leaves `count(x) - count(y)` cards.
pub proof fn lemma_count_remove(x: u64, y: u64, n: nat)
    requires
        n <= 52,
        forall|b: nat| b < n && #[trigger] bit(y, b) ==> bit(x, b),
    ensures
        count_below(x & (0xf_ffff_ffff_ffffu64 ^ y), n) + count_below(y, n) == count_below(x, n),
    decreases n,
{
    if n > 0 {
        lemma_count_remove(x, y, (n - 1) as nat);
        let b = (n - 1) as nat;
        lemma_bit_ops(x, 0xf_ffff_ffff_ffffu64 ^ y, b);
        lemma_bit_ops(0xf_ffff_ffff_ffffu64, y, b);
        lemma_full_bits(b);
    }
}

/// Putting together cards with none in common adds their counts.
pub proof fn lemma_count_union(a: u64, b: u64, n: nat)
    requires
        forall|k: nat| k < n ==> !(#[trigger] bit(a, k) && bit(b, k)),
    ensures
        count_below(a | b, n) == count_below(a, n) + count_below(b, n),
    decreases n,
{
    if n > 0 {
        lemma_count_union(a, b, (n - 1) as nat);
        lemma_bit_ops(a, b, (n - 1) as nat);
    }
}

/// The positions of `x` once the cards `y` are taken out.
pub proof fn lemma_remove_bits(x: u64, y: u64)
    requires
        forall|k: nat| #[trigger] bit(x, k) ==> k < 52,
    ensures
        forall|k: nat| #[trigger] bit(x & (0xf_ffff_ffff_ffffu64 ^ y), k) == (bit(x, k) && !bit(y, k)),
{
    assert forall|k: nat| #[trigger] bit(x & (0xf_ffff_ffff_ffffu64 ^ y), k) == (bit(x, k) && !bit(y, k)) by {
        lemma_bit_ops(x, 0xf_ffff_ffff_ffffu64 ^ y, k);
        lemma_bit_ops(0xf_ffff_ffff_ffffu64, y, k);
        lemma_full_bits(k);
    }
}

/// Drawing card `c` from `left` into `res`: one more card drawn, one fewer left, and the drawn
/// cards stay among those of `src` below 52.
proof fn lemma_draw(src: u64, res: u64, left: u64, c: nat)
    requires
        c < 52,
        bit(left, c),
        forall|j: nat| #[trigger] bit(left, j) ==> bit(src, j) && !bit(res, j) && j < 52,
        forall|j: nat| #[trigger] bit(res, j) ==> bit(src, j) && j < 52,
        forall|j: nat| j < 52 && bit(src, j) && !bit(res, j) ==> #[trigger] bit(left, j),
    ensures
        count_below(res | single(c), 64) == count_below(res, 64) + 1,
        count_below(left ^ single(c), 52) + 1 == count_below(left, 52),
        forall|j: nat| #[trigger] bit(left ^ single(c), j) ==> bit(src, j) && !bit(res | single(c), j) && j < 52,
        forall|j: nat| #[trigger] bit(res | single(c), j) ==> bit(src, j) && j < 52,
        forall|j: nat| j < 52 && bit(src, j) && !bit(res | single(c), j) ==> #[trigger] bit(left ^ single(c), j),
        forall|j: nat| #[trigger] bit(res | single(c), j) == (bit(res, j) || j == c),
{
    assert(!bit(res, c));
    assert(bit(src, c));
    lemma_count_below_add(res, c, 64);
    let l2 = left ^ single(c);
    assert forall|j: nat| bit(l2, j) == (bit(left, j) && j != c) by {
        lemma_bit_ops(left, single(c), j);
        lemma_bit_single(c, j);
    }
    assert forall|j: nat| bit(res | single(c), j) == (bit(res, j) || j == c) by {
        lemma_bit_ops(res, single(c), j);
        lemma_bit_single(c, j);
    }
    assert(!bit(l2, c));
    lemma_count_below_add(l2, c, 52);
    assert forall|j: nat| j < 52 implies bit(l2 | single(c), j) == bit(left, j) by {
        lemma_bit_ops(l2, single(c), j);
        lemma_bit_single(c, j);
    }
    lemma_count_below_same(l2 | single(c), left, 52);
    assert forall|j: nat| #[trigger] bit(res | single(c), j) implies bit(src, j) && j < 52 by {
        if j != c {
            assert(bit(res, j));
        }
    }
}

/// The cards of `src` below 52, none drawn yet.
proof fn lemma_draw_start(src: u64)
    ensures
        forall|j: nat| #[trigger] bit(src & 0xf_ffff_ffff_ffffu64, j) ==> bit(src, j) && !bit(0, j) && j < 52,
        forall|j: nat| #[trigger] bit(0, j) ==> bit(src, j) && j < 52,
        forall|j: nat| j < 52 && bit(src, j) && !bit(0, j) ==> #[trigger] bit(src & 0xf_ffff_ffff_ffffu64, j),
        count_below(src & 0xf_ffff_ffff_ffffu64, 52) == count_below(src, 52),
        count_below(0, 64) == 0,
{
    assert(crate::bits::low_mask(52) == 0xf_ffff_ffff_ffffu64) by {
        assert(((1u64 << 52u64) - 1u64) as u64 == 0xf_ffff_ffff_ffffu64) by (bit_vector);
    }
    assert forall|j: nat| bit(src & 0xf_ffff_ffff_ffffu64, j) == (bit(src, j) && j < 52) by {
        lemma_bit_ops(src, 0xf_ffff_ffff_ffffu64, j);
        crate::bits::lemma_bit_low_mask(52, j);
        lemma_bit_ops(0, 0, j);
    }
    assert forall|j: nat| !bit(0, j) by {
        lemma_bit_ops(0, 0, j);
    }
    lemma_count_below_same(src & 0xf_ffff_ffff_ffffu64, src, 52);
    crate::bits::lemma_count_below_zero(64);
}

/// Randomly samples `num` cards from the cards `src`, in order and without replacement: each
/// draw takes one of the cards not yet drawn, uniformly.
pub fn sample_cards_ordered(src: CardMask, num: usize, rng: &mut ChaCha20Rng) -> (r: Vec<Card>)
    requires
        count_below(src.0, 52) >= num,
    ensures
        r.len() == num,
        forall|i: int| 0 <= i < r.len() ==> src.has(#[trigger] r[i].spec_index()),
        forall|i: int, j: int| 0 <= i < j < r.len() ==> r[i].spec_index() != r[j].spec_index(),
{
    let mut res: Vec<Card> = Vec::new();
    let mut drawn = CardMask::none();
    let mut left = src.intersect(CardMask::full());
    proof {
        lemma_draw_start(src.0);
    }
    while res.len() < num
        invariant
            res.len() <= num,
            count_below(drawn.0, 64) == res.len(),
            count_below(left.0, 52) + res.len() == count_below(src.0, 52),
            count_below(src.0, 52) >= num,
            forall|j: nat| #[trigger] bit(left.0, j) ==> bit(src.0, j) && !bit(drawn.0, j) && j < 52,
            forall|j: nat| #[trigger] bit(drawn.0, j) ==> bit(src.0, j) && j < 52,
            forall|j: nat| j < 52 && bit(src.0, j) && !bit(drawn.0, j) ==> #[trigger] bit(left.0, j),
            forall|i: int| 0 <= i < res.len() ==> bit(drawn.0, #[trigger] res[i].spec_index()),
            forall|i: int, j: int| 0 <= i < j < res.len() ==> res[i].spec_index() != res[j].spec_index(),
        decreases num - res.len(),
    {
        // one of the cards left, uniformly
        let avail = left.iter();
        let i = random_below(rng, avail.len() as u64);
        let card = avail[i as usize];
        let ghost c = card.spec_index();
        let ghost drawn_before = drawn.0;
        proof {
            lemma_draw(src.0, drawn.0, left.0, card.spec_index());
        }
        let ghost before = res@;
        res.push(card);
        drawn = drawn.union(CardMask::from_single(card));
        left = left.difference(CardMask::from_single(card));
        proof {
            assert forall|i: int| 0 <= i < res.len() implies bit(drawn.0, #[trigger] res[i].spec_index()) by {
                if i < before.len() {
                    assert(bit(drawn.0, before[i].spec_index()));
                }
            }
            assert forall|i: int, j: int| 0 <= i < j < res.len() implies res[i].spec_index() != res[j].spec_index() by {
                if j == before.len() {
                    assert(bit(drawn_before, before[i].spec_index()));
                    assert(!bit(drawn_before, c));
                }
            }
        }
    }
    res
}

/// Randomly samples `num` cards from the cards `src`, without replacement: each draw takes one
/// of the cards not yet drawn, uniformly.
pub fn sample_cards(src: CardMask, num: usize, rng: &mut ChaCha20Rng) -> (r: CardMask)
    requires
        count_below(src.0, 52) >= num,
    ensures
        r.0 & src.0 == r.0,
        count_below(r.0, 64) == num,
        count_below(r.0, 52) == num,
{
    let mut drawn = CardMask::none();
    let mut left = src.intersect(CardMask::full());
    let mut k: usize = 0;
    proof {
        lemma_draw_start(src.0);
    }
    while k < num
        invariant
            k <= num,
            count_below(drawn.0, 64) == k,
            count_below(left.0, 52) + k == count_below(src.0, 52),
            count_below(src.0, 52) >= num,
            forall|j: nat| #[trigger] bit(left.0, j) ==> bit(src.0, j) && !bit(drawn.0, j) && j < 52,
            forall|j: nat| #[trigger] bit(drawn.0, j) ==> bit(src.0, j) && j < 52,
            forall|j: nat| j < 52 && bit(src.0, j) && !bit(drawn.0, j) ==> #[trigger] bit(left.0, j),
        decreases num - k,
    {
        // one of the cards left, uniformly
        let avail = left.iter();
        let i = random_below(rng, avail.len() as u64);
        let card = avail[i as usize];
        proof {
            lemma_draw(src.0, drawn.0, left.0, card.spec_index());
        }
        drawn = drawn.union(CardMask::from_single(card));
        left = left.difference(CardMask::from_single(card));
        k = k + 1;
    }
    proof {
        assert forall|j: nat| j < 64 implies bit(drawn.0 & src.0, j) == bit(drawn.0, j) by {
            lemma_bit_ops(drawn.0, src.0, j);
        }
        crate::bits::lemma_bits_ext(drawn.0 & src.0, drawn.0);
        crate::bits::lemma_count_below_full(drawn.0, 52, 64);
    }
    drawn
}

} // verus!

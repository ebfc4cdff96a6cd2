//! Reference engine for finding the best hand of five cards or fewer, which checks each category
//! analytically from the bits of the cards, with no tables.

use vstd::prelude::*;
use vstd::std_specs::bits::{u16_leading_zeros, axiom_u16_leading_zeros};
use crate::bits::{bit, count_below, single, top_bits, lemma_bit_ops, lemma_top_bits_max, lemma_u16_ops, lemma_u16_single, lemma_or_laws, lemma_top_bits_count, lemma_top_bits_subset, lemma_bits_below_converse, lemma_count_below_full, lemma_count_below_add, lemma_bit_single, lemma_count_below_zero, lemma_count_below_same};
use crate::deck::{CardMask, Rank, RankMask, Suit, all_ranks, suit_ranks, rank_count, ranks_bits};
use crate::hand::{Hand, Hand5, displayable};
use crate::hand::refbest5::{same_ranks, lemma_same_all_ranks, lemma_top_bits_keep};
use crate::hand::compact::{hand_fits, mask_fits};

verus! {

/// Whether the rank bits `r` hold five consecutive ranks ending at position `j`, the ace also
/// counting as the rank below the two.
pub open spec fn straight_at(r: u64, j: nat) -> bool {
    &&& 3 <= j <= 12
    &&& bit(r, j)
    &&& bit(r, (j - 1) as nat)
    &&& bit(r, (j - 2) as nat)
    &&& bit(r, (j - 3) as nat)
    &&& if j == 3 {
        bit(r, 12)
    } else {
        bit(r, (j - 4) as nat)
    }
}

/// The highest position at or below `j` where the rank bits `r` end a straight.
pub open spec fn straight_top_below(r: u64, j: nat) -> Option<nat>
    decreases j,
{
    if j < 3 {
        None
    } else if straight_at(r, j) {
        Some(j)
    } else {
        straight_top_below(r, (j - 1) as nat)
    }
}

/// The top rank of the best straight in the rank bits `r`, if any.
pub open spec fn straight_top(r: u64) -> Option<nat> {
    straight_top_below(r, 12)
}

/// How many cards of suit `s` the card bits `x` hold.
pub open spec fn suit_len(x: u64, s: nat) -> nat {
    count_below(suit_ranks(x, s) as u64, 16)
}

/// Whether some suit holds at least five cards.
pub open spec fn suited5(x: u64) -> bool {
    suit_len(x, 0) >= 5 || suit_len(x, 1) >= 5 || suit_len(x, 2) >= 5 || suit_len(x, 3) >= 5
}

/// The top of the best straight within suit `s`, when that suit holds at least five cards.
pub open spec fn suit_straight(x: u64, s: nat) -> Option<nat> {
    if suit_len(x, s) >= 5 {
        straight_top(suit_ranks(x, s) as u64)
    } else {
        None
    }
}

/// The larger of two optional positions.
pub open spec fn max_opt(a: Option<nat>, b: Option<nat>) -> Option<nat> {
    match (a, b) {
        (Some(u), Some(v)) => Some(if v > u { v } else { u }),
        (Some(u), None) => Some(u),
        (None, _) => b,
    }
}

/// The top of the best straight flush over all suits.
pub open spec fn straight_flush_top(x: u64) -> Option<nat> {
    max_opt(
        max_opt(max_opt(suit_straight(x, 0), suit_straight(x, 1)), suit_straight(x, 2)),
        suit_straight(x, 3),
    )
}

/// The top five ranks of the rank bits `r`.
pub open spec fn top5_of(r: u16) -> u16 {
    top_bits(r as u64, 13, 5) as u16
}

/// The top five ranks of suit `s`, when that suit holds at least five cards.
pub open spec fn suit_flush(x: u64, s: nat) -> Option<u16> {
    if suit_len(x, s) >= 5 {
        Some(top5_of(suit_ranks(x, s)))
    } else {
        None
    }
}

/// The larger of two optional rank masks, as numbers.
pub open spec fn max_opt16(a: Option<u16>, b: Option<u16>) -> Option<u16> {
    match (a, b) {
        (Some(u), Some(v)) => Some(if v >= u { v } else { u }),
        (Some(u), None) => Some(u),
        (None, _) => b,
    }
}

/// The best flush: the greatest, as a number, of the top five ranks of each suit that holds at
/// least five cards; none when no suit does.
pub open spec fn flush_ranks(x: u64) -> Option<u16> {
    max_opt16(
        max_opt16(max_opt16(suit_flush(x, 0), suit_flush(x, 1)), suit_flush(x, 2)),
        suit_flush(x, 3),
    )
}

/// The highest rank in `lo..hi` held exactly `k` times.
pub open spec fn highest_with(x: u64, lo: nat, hi: nat, k: nat) -> Option<nat>
    decreases hi,
{
    if hi <= lo {
        None
    } else if rank_count(x, (hi - 1) as nat) == k {
        Some((hi - 1) as nat)
    } else {
        highest_with(x, lo, (hi - 1) as nat, k)
    }
}

/// The lowest rank in `lo..hi` held exactly `k` times.
pub open spec fn lowest_with(x: u64, lo: nat, hi: nat, k: nat) -> Option<nat>
    decreases hi - lo,
{
    if hi <= lo {
        None
    } else if rank_count(x, lo) == k {
        Some(lo)
    } else {
        lowest_with(x, lo + 1, hi, k)
    }
}

/// The second highest rank from `lo` up held exactly twice.
pub open spec fn second_pair(x: u64, lo: nat) -> Option<nat> {
    match highest_with(x, lo, 13, 2) {
        Some(h) => highest_with(x, lo, h, 2),
        None => None,
    }
}

/// Whether scanning the ranks down from the ace stops at rank `r`: on four of a kind, on three
/// of a kind below a pair or below another three of a kind, or on a pair below three of a kind.
pub open spec fn stops_at(x: u64, r: nat) -> bool {
    ||| rank_count(x, r) >= 4
    ||| rank_count(x, r) == 3 && (highest_with(x, r + 1, 13, 2) is Some || lowest_with(x, r + 1, 13, 3) is Some)
    ||| rank_count(x, r) == 2 && lowest_with(x, r + 1, 13, 3) is Some
}

/// The highest rank below `hi` where the scan stops.
pub open spec fn first_stop_below(x: u64, hi: nat) -> Option<nat>
    decreases hi,
{
    if hi == 0 {
        None
    } else if stops_at(x, (hi - 1) as nat) {
        Some((hi - 1) as nat)
    } else {
        first_stop_below(x, (hi - 1) as nat)
    }
}

/// The ranks held, less those of the rank bits `m`.
pub open spec fn ranks_without(x: u64, m: u16) -> u64 {
    (all_ranks(x) & (0x1fffu16 ^ m)) as u64
}

/// The hand found where the scan stops at rank `r`.
pub open spec fn stop_hand(x: u64, r: nat) -> Hand {
    if rank_count(x, r) >= 4 {
        Hand::FourOfAKind {
            quad: Rank::from_nat(r),
            kickers: RankMask(top_bits(ranks_without(x, single(r) as u16), 13, 1) as u16),
        }
    } else if rank_count(x, r) == 3 && highest_with(x, r + 1, 13, 2) is Some {
        Hand::FullHouse {
            trip: Rank::from_nat(r),
            pair: Rank::from_nat(highest_with(x, r + 1, 13, 2).unwrap()),
        }
    } else {
        Hand::FullHouse {
            trip: Rank::from_nat(lowest_with(x, r + 1, 13, 3).unwrap()),
            pair: Rank::from_nat(r),
        }
    }
}

/// The hand that the reference engine finds for the card bits `x`, checking in turn: a straight
/// flush; four of a kind or a full house met scanning down from the ace (a second three of a
/// kind giving the pair); the best flush of a suit holding five cards or more; a straight;
/// three of a kind; two pairs; one pair; and otherwise the high cards.
pub open spec fn ref_hand5(x: u64) -> Hand {
    let ranks = all_ranks(x);
    let straight = straight_top(ranks as u64);
    if suited5(x) && straight is Some && straight_flush_top(x) is Some {
        Hand::StraightFlush { top: Rank::from_nat(straight_flush_top(x).unwrap()) }
    } else if first_stop_below(x, 13) is Some {
        stop_hand(x, first_stop_below(x, 13).unwrap())
    } else if flush_ranks(x) is Some {
        Hand::Flush { ranks: RankMask(flush_ranks(x).unwrap()) }
    } else if straight is Some {
        Hand::Straight { top: Rank::from_nat(straight.unwrap()) }
    } else if lowest_with(x, 0, 13, 3) is Some {
        let t = lowest_with(x, 0, 13, 3).unwrap();
        Hand::ThreeOfAKind {
            trip: Rank::from_nat(t),
            kickers: RankMask(top_bits(ranks_without(x, single(t) as u16), 13, 2) as u16),
        }
    } else if highest_with(x, 0, 13, 2) is Some {
        let p1 = highest_with(x, 0, 13, 2).unwrap();
        match second_pair(x, 0) {
            Some(p2) => Hand::TwoPair {
                pairs: RankMask((single(p1) | single(p2)) as u16),
                kickers: RankMask(
                    top_bits(ranks_without(x, (single(p1) | single(p2)) as u16), 13, 1) as u16,
                ),
            },
            None => Hand::OnePair {
                pair: Rank::from_nat(p1),
                kickers: RankMask(top_bits(ranks_without(x, single(p1) as u16), 13, 3) as u16),
            },
        }
    } else {
        Hand::HighCard { kickers: RankMask(top_bits(ranks as u64, 13, 5) as u16) }
    }
}

/// The convolution of the rank bits `r` with a run of five, the ace also wrapping below the two.
pub open spec fn straight_conv(r: u16) -> u16 {
    (r << 0u16) & (r << 1u16) & (r << 2u16) & (r << 3u16) & ((r << 4u16) | (r >> 9u16))
}

proof fn lemma_u16_bit(r: u16, j: u16)
    requires
        j < 16,
    ensures
        bit(r as u64, j as nat) == ((r >> j) & 1u16 == 1u16),
        ((r >> j) & 1u16 != 0u16) == ((r >> j) & 1u16 == 1u16),
{
    let x = j as u64;
    assert((((r as u64) >> x) & 1u64 == 1u64 <==> (r >> j) & 1u16 == 1u16) && (((r >> j) & 1u16
        != 0u16) == ((r >> j) & 1u16 == 1u16))) by (bit_vector)
        requires
            j < 16,
            x == j as u64,
    ;
}

proof fn lemma_straight_conv_bit(r: u16, j: u16)
    requires
        r < 0x2000,
        j < 16,
    ensures
        ((straight_conv(r) >> j) & 1u16 == 1u16) == (3 <= j <= 12 && (r >> j) & 1u16 == 1u16 && (r
            >> ((j - 1) as u16)) & 1u16 == 1u16 && (r >> ((j - 2) as u16)) & 1u16 == 1u16 && (r >> ((
        j - 3) as u16)) & 1u16 == 1u16 && (if j == 3 {
            (r >> 12u16) & 1u16 == 1u16
        } else {
            (r >> ((j - 4) as u16)) & 1u16 == 1u16
        })),
{
    let c = straight_conv(r);
    assert(((c >> j) & 1u16 == 1u16) == (3 <= j <= 12 && (r >> j) & 1u16 == 1u16 && (r >> ((j
        - 1) as u16)) & 1u16 == 1u16 && (r >> ((j - 2) as u16)) & 1u16 == 1u16 && (r >> ((j
        - 3) as u16)) & 1u16 == 1u16 && (if j == 3 {
        (r >> 12u16) & 1u16 == 1u16
    } else {
        (r >> ((j - 4) as u16)) & 1u16 == 1u16
    }))) by (bit_vector)
        requires
            r < 0x2000,
            j < 16,
            c == (r << 0u16) & (r << 1u16) & (r << 2u16) & (r << 3u16) & ((r << 4u16) | (r
                >> 9u16)),
    ;
}

/// Each set position of the convolution ends a straight.
proof fn lemma_straight_conv(r: u16)
    requires
        r < 0x2000,
    ensures
        forall|j: nat| j < 16 ==> #[trigger] bit(straight_conv(r) as u64, j) == straight_at(r as u64, j),
{
    assert forall|j: nat| j < 16 implies #[trigger] bit(straight_conv(r) as u64, j) == straight_at(r as u64, j) by {
        let jj = j as u16;
        lemma_u16_bit(straight_conv(r), jj);
        lemma_straight_conv_bit(r, jj);
        lemma_u16_bit(r, jj);
        lemma_u16_bit(r, 12);
        if jj >= 1 {
            lemma_u16_bit(r, (jj - 1) as u16);
        }
        if jj >= 2 {
            lemma_u16_bit(r, (jj - 2) as u16);
        }
        if jj >= 3 {
            lemma_u16_bit(r, (jj - 3) as u16);
        }
        if jj >= 4 {
            lemma_u16_bit(r, (jj - 4) as u16);
        }
    }
}

/// The search from `j` down finds `t` when `t` ends a straight and nothing above it does.
proof fn lemma_straight_top_found(r: u64, j: nat, t: nat)
    requires
        t <= j,
        straight_at(r, t),
        forall|k: nat| t < k <= j ==> !#[trigger] straight_at(r, k),
    ensures
        straight_top_below(r, j) == Some(t),
    decreases j,
{
    if j > t {
        lemma_straight_top_found(r, (j - 1) as nat, t);
    }
}

/// The search from `j` down finds nothing when nothing at or below `j` ends a straight.
pub(crate) proof fn lemma_straight_top_none(r: u64, j: nat)
    requires
        forall|k: nat| k <= j ==> !#[trigger] straight_at(r, k),
    ensures
        straight_top_below(r, j) is None,
    decreases j,
{
    if j >= 3 {
        lemma_straight_top_none(r, (j - 1) as nat);
    }
}

/// Lowering the bottom of the range by one rank adds that rank only when nothing above it
/// qualifies.
proof fn lemma_highest_lower(x: u64, lo: nat, hi: nat, k: nat)
    requires
        lo < hi,
    ensures
        highest_with(x, lo, hi, k) == match highest_with(x, lo + 1, hi, k) {
            Some(v) => Some(v),
            None => if rank_count(x, lo) == k {
                Some(lo)
            } else {
                None
            },
        },
    decreases hi,
{
    if hi - 1 > lo {
        lemma_highest_lower(x, lo, (hi - 1) as nat, k);
    } else {
        assert(highest_with(x, lo + 1, hi, k) is None);
        assert(highest_with(x, lo, (hi - 1) as nat, k) is None);
    }
}

/// The two highest pairs at or above `j`, from those above it.
proof fn lemma_pairs_step(x: u64, j: nat)
    requires
        j < 13,
    ensures
        rank_count(x, j) != 2 ==> highest_with(x, j, 13, 2) == highest_with(x, j + 1, 13, 2)
            && second_pair(x, j) == second_pair(x, j + 1),
        rank_count(x, j) == 2 && highest_with(x, j + 1, 13, 2) is None ==> highest_with(x, j, 13, 2)
            == Some(j) && second_pair(x, j) is None,
        rank_count(x, j) == 2 && highest_with(x, j + 1, 13, 2) is Some && second_pair(x, j + 1)
            is None ==> highest_with(x, j, 13, 2) == highest_with(x, j + 1, 13, 2) && second_pair(
            x,
            j,
        ) == Some(j),
        rank_count(x, j) == 2 && second_pair(x, j + 1) is Some ==> highest_with(x, j, 13, 2)
            == highest_with(x, j + 1, 13, 2) && second_pair(x, j) == second_pair(x, j + 1),
        second_pair(x, j + 1) is Some ==> highest_with(x, j + 1, 13, 2) is Some,
{
    lemma_highest_lower(x, j, 13, 2);
    match highest_with(x, j + 1, 13, 2) {
        Some(h) => {
            lemma_highest_within(x, j + 1, 13, 2);
            lemma_highest_lower(x, j, h, 2);
        },
        None => {},
    }
}

/// What `highest_with` finds lies in its range and qualifies.
proof fn lemma_highest_within(x: u64, lo: nat, hi: nat, k: nat)
    ensures
        highest_with(x, lo, hi, k) matches Some(v) ==> lo <= v < hi && rank_count(x, v) == k,
    decreases hi,
{
    if hi > lo && rank_count(x, (hi - 1) as nat) != k {
        lemma_highest_within(x, lo, (hi - 1) as nat, k);
    }
}

/// What `lowest_with` finds lies in its range and qualifies.
proof fn lemma_lowest_within(x: u64, lo: nat, hi: nat, k: nat)
    ensures
        lowest_with(x, lo, hi, k) matches Some(v) ==> lo <= v < hi && rank_count(x, v) == k,
    decreases hi - lo,
{
    if hi > lo && rank_count(x, lo) != k {
        lemma_lowest_within(x, lo + 1, hi, k);
    }
}

/// The result of scanning the ranks down from the ace: either a hand met on the way, or the
/// lowest three of a kind and the two highest pairs seen.
enum Scan {
    Stop(Hand),
    Rest(Option<Rank>, Option<Rank>, Option<Rank>),
}

spec fn opt_rank(o: Option<nat>) -> Option<Rank> {
    match o {
        Some(v) => Some(Rank::from_nat(v)),
        None => None,
    }
}

/// The bits of an optional rank mask.
pub open spec fn opt_bits(o: Option<RankMask>) -> Option<u16> {
    match o {
        Some(m) => Some(m.0),
        None => None,
    }
}

/// The position of an optional rank.
pub open spec fn opt_index(o: Option<Rank>) -> Option<nat> {
    match o {
        Some(r) => Some(r.spec_index()),
        None => None,
    }
}

proof fn lemma_straight_top_range(r: u64, j: nat)
    ensures
        straight_top_below(r, j) matches Some(v) ==> 3 <= v <= j && v <= 12,
    decreases j,
{
    if j >= 3 && !straight_at(r, j) {
        lemma_straight_top_range(r, (j - 1) as nat);
    }
}

/// Reference engine for finding the best hand of five cards or fewer, with no data or lookup
/// tables.
pub struct RefHand5 {}

impl RefHand5 {
    /// Create the reference engine, which holds no state.
    pub fn new() -> (r: RefHand5) {
        RefHand5 {}
    }

    /// Check ranks for a straight, returning the top rank if found.
    fn check_straight(ranks: RankMask) -> (r: Option<Rank>)
        requires
            ranks.0 < 0x2000,
        ensures
            r == opt_rank(straight_top(ranks.0 as u64)),
            opt_index(r) == straight_top(ranks.0 as u64),
    {
        let rbits = ranks.bits();
        let sb4 = rbits << 0u16;
        let sb3 = rbits << 1u16;
        let sb2 = rbits << 2u16;
        let sb1 = rbits << 3u16;
        // the ace also counts as the rank below the two
        let sb0 = (rbits << 4u16) | (rbits >> (13u16 - 4u16));
        let rbits_conv5 = sb4 & sb3 & sb2 & sb1 & sb0;
        proof {
            lemma_straight_conv(rbits);
            assert(rbits_conv5 == straight_conv(rbits));
        }
        if rbits_conv5 != 0 {
            let lz = rbits_conv5.leading_zeros();
            proof {
                axiom_u16_leading_zeros(rbits_conv5);
            }
            let top = (16 - 1 - lz) as u16;
            proof {
                lemma_u16_bit(rbits_conv5, top);
                assert forall|k: nat| top < k <= 12 implies !#[trigger] straight_at(rbits as u64, k) by {
                    lemma_u16_bit(rbits_conv5, k as u16);
                }
                assert(straight_at(rbits as u64, top as nat));
                lemma_straight_top_found(rbits as u64, 12, top as nat);
                Rank::lemma_from_nat_roundtrip(top as nat);
            }
            Some(Rank::from_index(top as u8))
        } else {
            proof {
                assert forall|k: nat| k <= 12 implies !#[trigger] straight_at(rbits as u64, k) by {
                    lemma_u16_bit(rbits_conv5, k as u16);
                    lemma_bit_ops(0, 0, k);
                }
                lemma_straight_top_none(rbits as u64, 12);
            }
            None
        }
    }

    /// Check cards for a flush: the greatest, as a number, of the top five ranks of each suit
    /// holding at least five cards; none when no suit does.
    fn check_flush(cards: CardMask) -> (r: Option<RankMask>)
        ensures
            opt_bits(r) == flush_ranks(cards.0),
    {
        let mut best: Option<RankMask> = None;
        best = Self::merge_suit_flush(cards, Suit::Spades, best);
        best = Self::merge_suit_flush(cards, Suit::Hearts, best);
        best = Self::merge_suit_flush(cards, Suit::Clubs, best);
        best = Self::merge_suit_flush(cards, Suit::Diamonds, best);
        best
    }

    /// Fold the top five ranks of one suit, when it holds at least five cards, into the best so
    /// far.
    fn merge_suit_flush(cards: CardMask, suit: Suit, best: Option<RankMask>) -> (r: Option<RankMask>)
        ensures
            opt_bits(r) == max_opt16(opt_bits(best), suit_flush(cards.0, suit.spec_index())),
    {
        let ranks = cards.of_suit(suit);
        if ranks.count() >= 5 {
            let top = ranks.top5();
            match best {
                Some(b) => {
                    if top.0 >= b.0 {
                        Some(top)
                    } else {
                        best
                    }
                },
                None => Some(top),
            }
        } else {
            best
        }
    }

    /// Fold the straight of one suit, when it holds at least five cards, into the best so far.
    fn merge_suit_straight(cards: CardMask, suit: Suit, best: Option<Rank>) -> (r: Option<Rank>)
        ensures
            opt_index(r) == max_opt(opt_index(best), suit_straight(cards.0, suit.spec_index())),
    {
        let ranks = cards.of_suit(suit);
        if ranks.count() >= 5 {
            proof {
                lemma_u16_single(13);
            }
            match Self::check_straight(ranks) {
                Some(top_rank) => {
                    match best {
                        Some(b) => {
                            if top_rank.index() > b.index() {
                                Some(top_rank)
                            } else {
                                best
                            }
                        },
                        None => Some(top_rank),
                    }
                },
                None => best,
            }
        } else {
            best
        }
    }

    /// Scan the ranks down from the ace, stopping at four of a kind or a full house, and
    /// otherwise reporting the lowest three of a kind and the two highest pairs.
    fn scan(cards: CardMask) -> (r: Scan)
        ensures
            match r {
                Scan::Stop(h) => first_stop_below(cards.0, 13) is Some && h == stop_hand(
                    cards.0,
                    first_stop_below(cards.0, 13).unwrap(),
                ),
                Scan::Rest(t, p1, p2) => {
                    &&& first_stop_below(cards.0, 13) is None
                    &&& opt_index(t) == lowest_with(cards.0, 0, 13, 3)
                    &&& opt_index(p1) == highest_with(cards.0, 0, 13, 2)
                    &&& opt_index(p2) == second_pair(cards.0, 0)
                    &&& !(t is Some && p1 is Some)
                },
            },
    {
        let ghost x = cards.0;
        let mut best_trip: Option<Rank> = None;
        let mut best_pair1: Option<Rank> = None;
        let mut best_pair2: Option<Rank> = None;
        let mut i: u8 = 13;
        while i > 0
            invariant
                i <= 13,
                x == cards.0,
                first_stop_below(x, 13) == first_stop_below(x, i as nat),
                opt_index(best_trip) == lowest_with(x, i as nat, 13, 3),
                opt_index(best_pair1) == highest_with(x, i as nat, 13, 2),
                opt_index(best_pair2) == second_pair(x, i as nat),
                !(best_trip is Some && best_pair1 is Some),
            decreases i,
        {
            let j = i - 1;
            let rank = Rank::from_index(j);
            let count = cards.of_rank_count(rank);
            proof {
                let jn = j as nat;
                lemma_pairs_step(x, jn);
                lemma_highest_within(x, i as nat, 13, 2);
                lemma_lowest_within(x, i as nat, 13, 3);
                assert(first_stop_below(x, i as nat) == if stops_at(x, jn) {
                    Some(jn)
                } else {
                    first_stop_below(x, jn)
                });
            }
            if count >= 4 {
                let single = RankMask::from_single(rank);
                proof {
                    lemma_u16_single(j as u16);
                }
                let kickers = (cards.unsuited() & single.inverse()).top1();
                return Scan::Stop(Hand::FourOfAKind { quad: rank, kickers });
            } else if count >= 3 {
                match best_pair1 {
                    Some(pair) => {
                        proof {
                            Rank::lemma_index_roundtrip(pair);
                        }
                        return Scan::Stop(Hand::FullHouse { trip: rank, pair });
                    },
                    None => {
                        match best_trip {
                            Some(trip) => {
                                proof {
                                    Rank::lemma_index_roundtrip(trip);
                                }
                                return Scan::Stop(Hand::FullHouse { trip, pair: rank });
                            },
                            None => {
                                best_trip = Some(rank);
                            },
                        }
                    },
                }
            } else if count >= 2 {
                match best_trip {
                    Some(trip) => {
                        proof {
                            Rank::lemma_index_roundtrip(trip);
                        }
                        return Scan::Stop(Hand::FullHouse { trip, pair: rank });
                    },
                    None => {},
                }
                match best_pair1 {
                    Some(_) => {
                        match best_pair2 {
                            Some(_) => {},
                            None => {
                                best_pair2 = Some(rank);
                            },
                        }
                    },
                    None => {
                        best_pair1 = Some(rank);
                    },
                }
            }
            i = j;
        }
        Scan::Rest(best_trip, best_pair1, best_pair2)
    }
}

impl Hand5 for RefHand5 {
    /// Every set of cards can be evaluated.
    open spec fn hand5_accepts(&self, cards: CardMask) -> bool {
        true
    }

    fn hand5(&self, cards: CardMask) -> (r: Hand)
        ensures
            r == ref_hand5(cards.0),
    {
        let ghost x = cards.0;
        // the ranks present, whatever their suits
        let ranks = cards.unsuited();

        // whether some suit holds at least five cards
        let c0 = cards.of_suit(Suit::Spades).count();
        let c1 = cards.of_suit(Suit::Hearts).count();
        let c2 = cards.of_suit(Suit::Clubs).count();
        let c3 = cards.of_suit(Suit::Diamonds).count();
        let have_suited5 = c0 >= 5 || c1 >= 5 || c2 >= 5 || c3 >= 5;

        let mut found_straight: Option<Rank> = None;
        let mut checked_straight: bool = false;
        let mut found_flush: Option<RankMask> = None;
        if have_suited5 {
            found_straight = Self::check_straight(ranks);
            checked_straight = true;
            if found_straight.is_some() {
                // the best straight flush over the suits holding at least five cards
                let mut best: Option<Rank> = None;
                best = Self::merge_suit_straight(cards, Suit::Spades, best);
                best = Self::merge_suit_straight(cards, Suit::Hearts, best);
                best = Self::merge_suit_straight(cards, Suit::Clubs, best);
                best = Self::merge_suit_straight(cards, Suit::Diamonds, best);
                if let Some(top_rank) = best {
                    proof {
                        Rank::lemma_index_roundtrip(top_rank);
                    }
                    return Hand::StraightFlush { top: top_rank };
                }
            }
            found_flush = Self::check_flush(cards);
        }
        proof {
            assert(flush_ranks(x) is Some ==> suited5(x));
        }
        proof {
            lemma_u16_single(13);
        }
        match Self::scan(cards) {
            Scan::Stop(h) => h,
            Scan::Rest(best_trip, best_pair1, best_pair2) => {
                if let Some(flush) = found_flush {
                    return Hand::Flush { ranks: flush };
                }
                if !checked_straight {
                    found_straight = Self::check_straight(ranks);
                }
                if let Some(straight) = found_straight {
                    return Hand::Straight { top: straight };
                }
                if let Some(trip) = best_trip {
                    proof {
                        assert(best_pair1 is None);
                        Rank::lemma_index_roundtrip(trip);
                        lemma_u16_single(trip.spec_index() as u16);
                    }
                    let single = RankMask::from_single(trip);
                    return Hand::ThreeOfAKind {
                        trip,
                        kickers: (cards.unsuited() & single.inverse()).top2(),
                    };
                }
                if let Some(pair1) = best_pair1 {
                    proof {
                        Rank::lemma_index_roundtrip(pair1);
                        lemma_u16_single(pair1.spec_index() as u16);
                    }
                    match best_pair2 {
                        Some(pair2) => {
                            let both = vec![pair1, pair2];
                            let pairs = RankMask::from_many(both.as_slice());
                            proof {
                                lemma_u16_single(pair2.spec_index() as u16);
                                let a = single(pair1.spec_index());
                                let b = single(pair2.spec_index());
                                assert(both@.drop_last() =~= seq![pair1]);
                                assert(both@.drop_last().drop_last() =~= Seq::<Rank>::empty());
                                lemma_or_laws(a, b, 0);
                                lemma_or_laws(0, 0, 0);
                                assert(both@.last() == pair2);
                                assert(both@.drop_last().last() == pair1);
                                assert(ranks_bits(seq![pair1]) == 0 | a) by {
                                    let one = seq![pair1];
                                    assert(one.drop_last() =~= Seq::<Rank>::empty());
                                    assert(one.last() == pair1);
                                    assert(ranks_bits(one.drop_last()) == 0);
                                    assert(ranks_bits(one) == ranks_bits(one.drop_last()) | single(one.last().spec_index()));
                                }
                                assert(ranks_bits(both@) == (0 | a) | b);
                                assert(pairs.0 as u64 == a | b);
                            }
                            return Hand::TwoPair {
                                pairs,
                                kickers: (cards.unsuited() & pairs.inverse()).top1(),
                            };
                        },
                        None => {
                            let single = RankMask::from_single(pair1);
                            return Hand::OnePair {
                                pair: pair1,
                                kickers: (cards.unsuited() & single.inverse()).top3(),
                            };
                        },
                    }
                }
                Hand::HighCard { kickers: ranks.top5() }
            },
        }
    }
}

/// The searches for a rank held `k` times see only how many cards of each rank are held.
proof fn lemma_same_with(x: u64, y: u64, lo: nat, hi: nat, k: nat)
    requires
        same_ranks(x, y),
        hi <= 13,
    ensures
        highest_with(x, lo, hi, k) == highest_with(y, lo, hi, k),
        lowest_with(x, lo, hi, k) == lowest_with(y, lo, hi, k),
    decreases hi,
{
    lemma_same_lowest(x, y, lo, hi, k);
    if hi > lo {
        assert(rank_count(x, (hi - 1) as nat) == rank_count(y, (hi - 1) as nat));
        lemma_same_with(x, y, lo, (hi - 1) as nat, k);
    }
}

proof fn lemma_same_lowest(x: u64, y: u64, lo: nat, hi: nat, k: nat)
    requires
        same_ranks(x, y),
        hi <= 13,
    ensures
        lowest_with(x, lo, hi, k) == lowest_with(y, lo, hi, k),
    decreases hi - lo,
{
    if hi > lo {
        assert(rank_count(x, lo) == rank_count(y, lo));
        lemma_same_lowest(x, y, lo + 1, hi, k);
    }
}

/// Where the scan down from the ace stops, and what it finds there, sees only how many cards of
/// each rank are held.
proof fn lemma_same_stop(x: u64, y: u64, hi: nat)
    requires
        same_ranks(x, y),
        hi <= 13,
    ensures
        first_stop_below(x, hi) == first_stop_below(y, hi),
        first_stop_below(x, hi) matches Some(r) ==> stop_hand(x, r) == stop_hand(y, r),
    decreases hi,
{
    lemma_same_all_ranks(x, y);
    if hi > 0 {
        let r = (hi - 1) as nat;
        assert(rank_count(x, r) == rank_count(y, r));
        lemma_same_with(x, y, r + 1, 13, 2);
        lemma_same_with(x, y, r + 1, 13, 3);
        lemma_same_stop(x, y, r);
    }
}

/// Without five cards of one suit, the hand of some cards depends only on how many cards of each
/// rank they hold, not on their suits.
pub proof fn lemma_hand5_same_ranks(x: u64, y: u64)
    requires
        same_ranks(x, y),
        !suited5(x),
        !suited5(y),
    ensures
        ref_hand5(x) == ref_hand5(y),
{
    lemma_same_all_ranks(x, y);
    lemma_same_stop(x, y, 13);
    lemma_same_with(x, y, 0, 13, 2);
    lemma_same_with(x, y, 0, 13, 3);
    match highest_with(x, 0, 13, 2) {
        Some(h) => {
            lemma_highest_within(x, 0, 13, 2);
            lemma_same_with(x, y, 0, h, 2);
        },
        None => {},
    }
    assert(flush_ranks(x) is None);
    assert(flush_ranks(y) is None);
}

/// At most `k` of the positions below 13, kept by `top_bits`, survive a cast to `u16` and count
/// the same below 16.
pub(crate) proof fn lemma_kickers_fit(y: u64, k: nat)
    ensures
        ((top_bits(y, 13, k) as u16) as u64) == top_bits(y, 13, k),
        count_below(top_bits(y, 13, k), 16) <= k,
        count_below(top_bits(y, 13, k), 13) <= k,
{
    let t = top_bits(y, 13, k);
    lemma_top_bits_count(y, 13, k);
    assert forall|i: nat| 13 <= i < 64 implies !bit(t, i) by {
        lemma_top_bits_subset(y, 13, k, i);
    }
    lemma_bits_below_converse(t, 13);
    lemma_u16_single(13);
    lemma_count_below_full(t, 13, 16);
}

/// Two distinct ranks make two set positions below 13, and survive a cast to `u16`.
pub(crate) proof fn lemma_two_ranks(p1: nat, p2: nat)
    requires
        p2 < p1 < 13,
    ensures
        (((single(p1) | single(p2)) as u16) as u64) == single(p1) | single(p2),
        count_below(single(p1) | single(p2), 13) == 2,
{
    let a = single(p1);
    let b = single(p2);
    lemma_count_below_zero(13);
    lemma_bit_single(p1, p2);
    lemma_bit_single(p1, p1);
    assert forall|j: nat| !#[trigger] bit(0u64, j) by {
        lemma_bit_ops(0, 0, j);
    }
    lemma_count_below_add(0, p1, 13);
    assert forall|j: nat| j < 13 implies bit(0u64 | a, j) == bit(a, j) by {
        lemma_bit_ops(0, a, j);
    }
    lemma_count_below_same(0u64 | a, a, 13);
    lemma_count_below_add(a, p2, 13);
    assert forall|i: nat| 13 <= i < 64 implies !bit(a | b, i) by {
        lemma_bit_ops(a, b, i);
        lemma_bit_single(p1, i);
        lemma_bit_single(p2, i);
    }
    lemma_bits_below_converse(a | b, 13);
    lemma_u16_single(13);
}

/// The `k` highest ranks of some rank bits make a mask of at most `k` ranks below 13.
proof fn lemma_top_fits(y: u64, k: nat)
    ensures
        mask_fits(RankMask(top_bits(y, 13, k) as u16), k),
{
    lemma_kickers_fit(y, k);
    assert forall|i: nat| 13 <= i implies !#[trigger] bit((top_bits(y, 13, k) as u16) as u64, i) by {
        lemma_top_bits_subset(y, 13, k, i);
    }
}

/// Every hand that the reference engine finds has masks no larger than its category uses, so it
/// has a compact number.
pub proof fn lemma_ref_hand5_fits(x: u64)
    ensures
        hand_fits(ref_hand5(x)),
{
    let ranks = all_ranks(x);
    let straight = straight_top(ranks as u64);
    if suited5(x) && straight is Some && straight_flush_top(x) is Some {
    } else if first_stop_below(x, 13) is Some {
        let r = first_stop_below(x, 13).unwrap();
        lemma_top_fits(ranks_without(x, single(r) as u16), 1);
    } else if flush_ranks(x) is Some {
        lemma_top_fits(suit_ranks(x, 0) as u64, 5);
        lemma_top_fits(suit_ranks(x, 1) as u64, 5);
        lemma_top_fits(suit_ranks(x, 2) as u64, 5);
        lemma_top_fits(suit_ranks(x, 3) as u64, 5);
    } else if straight is Some {
    } else if lowest_with(x, 0, 13, 3) is Some {
        let t = lowest_with(x, 0, 13, 3).unwrap();
        lemma_top_fits(ranks_without(x, single(t) as u16), 2);
    } else if highest_with(x, 0, 13, 2) is Some {
        let p1 = highest_with(x, 0, 13, 2).unwrap();
        lemma_highest_within(x, 0, 13, 2);
        match second_pair(x, 0) {
            Some(p2) => {
                lemma_highest_within(x, 0, p1, 2);
                lemma_two_ranks(p1, p2);
                let m = single(p1) | single(p2);
                assert forall|i: nat| 13 <= i implies !#[trigger] bit(((m as u16) as u64), i) by {
                    lemma_bit_ops(single(p1), single(p2), i);
                    lemma_bit_single(p1, i);
                    lemma_bit_single(p2, i);
                }
                lemma_top_fits(ranks_without(x, m as u16), 1);
            },
            None => {
                lemma_top_fits(ranks_without(x, single(p1) as u16), 3);
            },
        }
    } else {
        lemma_top_fits(ranks as u64, 5);
    }
}

/// The ranks held other than rank `t`.
proof fn lemma_ranks_without_bit(x: u64, t: nat, i: nat)
    requires
        t < 13,
    ensures
        bit(ranks_without(x, single(t) as u16), i) == (i < 13 && bit(all_ranks(x) as u64, i) && i != t),
{
    if i < 64 {
        let a = all_ranks(x);
        let t16 = t as u16;
        let t64 = t as u64;
        let ii = i as u64;
        assert((single(t) as u16) == (1u16 << t16)) by {
            assert(((1u64 << t64) as u16) == (1u16 << t16)) by (bit_vector)
                requires t64 < 13, t16 as u64 == t64;
        }
        let m = 1u16 << t16;
        assert(((((a & (0x1fffu16 ^ m)) as u64) >> ii) & 1u64 == 1u64) == (ii < 13 && ((a as u64) >> ii) & 1u64 == 1u64
            && ii != t64)) by (bit_vector)
            requires
                m == 1u16 << t16,
                t16 < 13,
                t16 as u64 == t64,
                ii < 64,
        ;
    }
}

/// Whether `kick` are the highest ranks held by `x` other than rank `t`: `m` of them, or all
/// there are when fewer, and never `t` itself.
pub open spec fn top_others(x: u64, t: nat, kick: u64, m: nat) -> bool {
    let held = all_ranks(x) as u64;
    &&& !bit(kick, t)
    &&& forall|i: nat| #[trigger] bit(kick, i) ==> i < 13 && i != t && bit(held, i)
    &&& count_below(kick, 13) <= m
    &&& forall|i: nat, j: nat| #[trigger] bit(kick, i) && i < j < 13 && j != t && #[trigger] bit(held, j) ==> bit(kick, j)
    &&& forall|j: nat| j < 13 && j != t && #[trigger] bit(held, j) && !bit(kick, j) ==> count_below(kick, 13) == m
}

/// The `m` highest of rank bits `y` that hold exactly the ranks held other than `t` are such
/// kickers.
pub(crate) proof fn lemma_top_others_of(x: u64, t: nat, y: u64, m: nat)
    requires
        t <= 13,
        forall|i: nat| #[trigger] bit(y, i) == (i < 13 && bit(all_ranks(x) as u64, i) && i != t),
    ensures
        top_others(x, t, top_bits(y, 13, m), m),
{
    let k = top_bits(y, 13, m);
    let ranks = all_ranks(x);
    lemma_top_bits_count(y, 13, m);
    lemma_top_bits_subset(y, 13, m, t);
    assert forall|i: nat| #[trigger] bit(k, i) implies i < 13 && i != t && bit(ranks as u64, i) by {
        lemma_top_bits_subset(y, 13, m, i);
    }
    assert forall|i: nat, j: nat| #[trigger] bit(k, i) && i < j < 13 && j != t && #[trigger] bit(ranks as u64, j) implies bit(k, j) by {
        lemma_top_bits_max(y, 13, m, i, j);
    }
    assert forall|j: nat| j < 13 && j != t && #[trigger] bit(ranks as u64, j) && !bit(k, j) implies count_below(k, 13) == m by {
        if count_below(y, 13) <= m {
            lemma_top_bits_keep(y, 13, m);
        }
    }
}

/// The `m` highest ranks held other than `t` are such kickers.
proof fn lemma_top_others(x: u64, t: nat, m: nat)
    requires
        t < 13,
    ensures
        top_others(x, t, top_bits(ranks_without(x, single(t) as u16), 13, m), m),
{
    let y = ranks_without(x, single(t) as u16);
    assert forall|i: nat| #[trigger] bit(y, i) == (i < 13 && bit(all_ranks(x) as u64, i) && i != t) by {
        lemma_ranks_without_bit(x, t, i);
    }
    lemma_top_others_of(x, t, y, m);
}

/// Three of a kind is a rank held three times, with the highest other ranks held as kickers:
/// two of them, or all there are when fewer, and never the rank of the three itself.
pub proof fn lemma_trips_kickers(x: u64)
    ensures
        ref_hand5(x) matches Hand::ThreeOfAKind { trip, kickers } ==> rank_count(x, trip.spec_index()) == 3
            && top_others(x, trip.spec_index(), kickers.0 as u64, 2),
{
    if let Hand::ThreeOfAKind { trip, kickers } = ref_hand5(x) {
        let ranks = all_ranks(x);
        let straight = straight_top(ranks as u64);
        assert(!(suited5(x) && straight is Some && straight_flush_top(x) is Some));
        assert(first_stop_below(x, 13) is None);
        assert(lowest_with(x, 0, 13, 3) is Some);
        let t = lowest_with(x, 0, 13, 3).unwrap();
        lemma_lowest_within(x, 0, 13, 3);
        Rank::lemma_from_nat_roundtrip(t);
        lemma_kickers_fit(ranks_without(x, single(t) as u16), 2);
        lemma_top_others(x, t, 2);
    }
}

/// One pair is a rank held twice, with the highest other ranks held as kickers: three of them,
/// or all there are when fewer, and never the rank of the pair itself.
pub proof fn lemma_pair_kickers(x: u64)
    ensures
        ref_hand5(x) matches Hand::OnePair { pair, kickers } ==> rank_count(x, pair.spec_index()) == 2
            && top_others(x, pair.spec_index(), kickers.0 as u64, 3),
{
    if let Hand::OnePair { pair, kickers } = ref_hand5(x) {
        let ranks = all_ranks(x);
        let straight = straight_top(ranks as u64);
        assert(!(suited5(x) && straight is Some && straight_flush_top(x) is Some));
        assert(first_stop_below(x, 13) is None);
        assert(lowest_with(x, 0, 13, 3) is None);
        assert(highest_with(x, 0, 13, 2) is Some);
        let p = highest_with(x, 0, 13, 2).unwrap();
        lemma_highest_within(x, 0, 13, 2);
        Rank::lemma_from_nat_roundtrip(p);
        lemma_kickers_fit(ranks_without(x, single(p) as u16), 3);
        lemma_top_others(x, p, 3);
    }
}

/// Four of a kind is a rank held four times, with the highest other rank held as its kicker,
/// never the rank of the four itself.
pub proof fn lemma_quads_kicker(x: u64)
    ensures
        ref_hand5(x) matches Hand::FourOfAKind { quad, kickers } ==> rank_count(x, quad.spec_index()) == 4
            && top_others(x, quad.spec_index(), kickers.0 as u64, 1),
{
    if let Hand::FourOfAKind { quad, kickers } = ref_hand5(x) {
        let ranks = all_ranks(x);
        let straight = straight_top(ranks as u64);
        assert(!(suited5(x) && straight is Some && straight_flush_top(x) is Some));
        assert(first_stop_below(x, 13) is Some);
        let r = first_stop_below(x, 13).unwrap();
        lemma_stop_within(x, 13);
        Rank::lemma_from_nat_roundtrip(r);
        lemma_kickers_fit(ranks_without(x, single(r) as u16), 1);
        lemma_top_others(x, r, 1);
    }
}

/// The search from `j` down finds the highest position ending a straight, if any.
pub(crate) proof fn lemma_straight_found(r: u64, j: nat)
    requires
        j <= 12,
    ensures
        straight_top_below(r, j) matches Some(t) ==> t <= j && straight_at(r, t) && forall|q: nat| t < q <= j ==> !#[trigger] straight_at(r, q),
        straight_top_below(r, j) is None ==> forall|q: nat| q <= j ==> !#[trigger] straight_at(r, q),
    decreases j,
{
    if j >= 3 && !straight_at(r, j) {
        lemma_straight_found(r, (j - 1) as nat);
    } else if j < 3 {
        assert forall|q: nat| q <= j implies !#[trigger] straight_at(r, q) by {}
    }
}

/// High card is the five highest ranks held, or all of them when fewer, with no rank held twice
/// and no straight.
pub proof fn lemma_high_card(x: u64)
    ensures
        ref_hand5(x) matches Hand::HighCard { kickers } ==> {
            &&& top_others(x, 13, kickers.0 as u64, 5)
            &&& forall|r: nat| r < 13 ==> #[trigger] rank_count(x, r) <= 1
            &&& forall|q: nat| q <= 12 ==> !#[trigger] straight_at(all_ranks(x) as u64, q)
        },
{
    if let Hand::HighCard { kickers } = ref_hand5(x) {
        let ranks = all_ranks(x);
        assert(first_stop_below(x, 13) is None);
        assert(straight_top(ranks as u64) is None);
        assert(lowest_with(x, 0, 13, 3) is None);
        assert(highest_with(x, 0, 13, 2) is None);
        lemma_straight_found(ranks as u64, 12);
        lemma_kickers_fit(ranks as u64, 5);
        assert forall|i: nat| #[trigger] bit(ranks as u64, i) == (i < 13 && bit(all_ranks(x) as u64, i) && i != 13) by {
            if i >= 13 {
                lemma_kickers_fit(ranks as u64, 5);
                crate::hand::refbest5::lemma_ranks_count(x);
                if i < 16 {
                    crate::hand::refbest5::lemma_all_ranks_bit(x, i);
                } else {
                    crate::hand::refbest5::lemma_u16_high_bit(ranks, i);
                }
            }
        }
        lemma_top_others_of(x, 13, ranks as u64, 5);
        assert forall|r: nat| r < 13 implies #[trigger] rank_count(x, r) <= 1 by {
            lemma_no_count(x, 0, 13, r);
        }
    }
}

/// With no rank held exactly `k` times between `lo` and `hi`, and none of four or three, counts
/// stay below two.
proof fn lemma_no_count(x: u64, lo: nat, hi: nat, r: nat)
    requires
        lo <= r < hi <= 13,
        highest_with(x, lo, hi, 2) is None,
        lowest_with(x, lo, hi, 3) is None,
        first_stop_below(x, hi) is None,
    ensures
        rank_count(x, r) <= 1,
    decreases hi,
{
    if r < hi - 1 {
        lemma_highest_lower_none(x, lo, hi);
        lemma_lowest_upper_none(x, lo, hi);
        assert(first_stop_below(x, (hi - 1) as nat) is None);
        lemma_no_count(x, lo, (hi - 1) as nat, r);
    } else {
        assert(rank_count(x, r) != 2);
        lemma_lowest_none_at(x, lo, hi, r);
        assert(!stops_at(x, r));
    }
}

/// With nothing found in a range, nothing is found in its lower part.
proof fn lemma_highest_lower_none(x: u64, lo: nat, hi: nat)
    requires
        lo < hi,
        highest_with(x, lo, hi, 2) is None,
    ensures
        highest_with(x, lo, (hi - 1) as nat, 2) is None,
{
}

/// With nothing found in a range, nothing is found in its lower part.
proof fn lemma_lowest_upper_none(x: u64, lo: nat, hi: nat)
    requires
        lo < hi,
        lowest_with(x, lo, hi, 3) is None,
    ensures
        lowest_with(x, lo, (hi - 1) as nat, 3) is None,
        rank_count(x, (hi - 1) as nat) != 3,
    decreases hi - lo,
{
    lemma_lowest_none_at(x, lo, hi, (hi - 1) as nat);
    if lo + 1 < hi {
        lemma_lowest_upper_none(x, lo + 1, hi);
    }
}

/// With nothing found in a range, no rank of it is held `3` times.
proof fn lemma_lowest_none_at(x: u64, lo: nat, hi: nat, r: nat)
    requires
        lo <= r < hi,
        lowest_with(x, lo, hi, 3) is None,
    ensures
        rank_count(x, r) != 3,
    decreases hi - lo,
{
    if lo < r {
        lemma_lowest_none_at(x, lo + 1, hi, r);
    }
}

/// A straight is five consecutive ranks held, the ace also below the two, topped by the highest
/// rank that tops such a run.
pub proof fn lemma_straight_hand(x: u64)
    ensures
        ref_hand5(x) matches Hand::Straight { top } ==> {
            &&& straight_at(all_ranks(x) as u64, top.spec_index())
            &&& forall|q: nat| top.spec_index() < q <= 12 ==> !#[trigger] straight_at(all_ranks(x) as u64, q)
        },
{
    if let Hand::Straight { top } = ref_hand5(x) {
        let ranks = all_ranks(x);
        assert(straight_top(ranks as u64) is Some);
        lemma_straight_found(ranks as u64, 12);
        Rank::lemma_from_nat_roundtrip(straight_top(ranks as u64).unwrap());
    }
}

/// A full house is a rank held three times and another rank held at least twice.
pub proof fn lemma_full_house(x: u64)
    ensures
        ref_hand5(x) matches Hand::FullHouse { trip, pair } ==> {
            &&& rank_count(x, trip.spec_index()) == 3
            &&& rank_count(x, pair.spec_index()) >= 2
            &&& trip != pair
        },
{
    if let Hand::FullHouse { trip, pair } = ref_hand5(x) {
        let ranks = all_ranks(x);
        let straight = straight_top(ranks as u64);
        assert(!(suited5(x) && straight is Some && straight_flush_top(x) is Some));
        assert(first_stop_below(x, 13) is Some);
        let r = first_stop_below(x, 13).unwrap();
        lemma_stop_within(x, 13);
        lemma_highest_within(x, r + 1, 13, 2);
        lemma_lowest_within(x, r + 1, 13, 3);
        Rank::lemma_from_nat_roundtrip(r);
        if rank_count(x, r) == 3 && highest_with(x, r + 1, 13, 2) is Some {
            Rank::lemma_from_nat_roundtrip(highest_with(x, r + 1, 13, 2).unwrap());
        } else {
            Rank::lemma_from_nat_roundtrip(lowest_with(x, r + 1, 13, 3).unwrap());
        }
    }
}

/// What `highest_with` finds is the highest rank of its range held `k` times; when it finds none,
/// no rank of the range is.
proof fn lemma_highest_top(x: u64, lo: nat, hi: nat, k: nat)
    ensures
        highest_with(x, lo, hi, k) matches Some(v) ==> lo <= v < hi && rank_count(x, v) == k
            && forall|q: nat| v < q < hi ==> #[trigger] rank_count(x, q) != k,
        highest_with(x, lo, hi, k) is None ==> forall|q: nat| lo <= q < hi ==> #[trigger] rank_count(x, q) != k,
    decreases hi,
{
    if hi > lo && rank_count(x, (hi - 1) as nat) != k {
        lemma_highest_top(x, lo, (hi - 1) as nat, k);
    }
}

/// The ranks held other than those of the mask `m`.
proof fn lemma_ranks_without_mask(x: u64, m: u16, i: nat)
    ensures
        bit(ranks_without(x, m), i) == (i < 13 && bit(all_ranks(x) as u64, i) && !bit(m as u64, i)),
{
    if i < 64 {
        let a = all_ranks(x);
        let ii = i as u64;
        crate::bits::lemma_mask13(0u16, x | (x >> 13u64) | (x >> 26u64) | (x >> 39u64));
        assert(a < 0x2000);
        assert(((((a & (0x1fffu16 ^ m)) as u64) >> ii) & 1u64 == 1u64) == (ii < 13 && ((a as u64) >> ii) & 1u64 == 1u64
            && !(((m as u64) >> ii) & 1u64 == 1u64))) by (bit_vector)
            requires
                ii < 64,
                a < 0x2000,
        ;
    }
}

/// Two pairs are the two highest ranks held exactly twice, with the highest rank held other
/// than theirs as the kicker.
pub proof fn lemma_two_pair(x: u64)
    ensures
        ref_hand5(x) matches Hand::TwoPair { pairs, kickers } ==> {
            let p = pairs.0 as u64;
            let k = kickers.0 as u64;
            let held = all_ranks(x) as u64;
            &&& count_below(p, 13) == 2
            &&& forall|r: nat| #[trigger] bit(p, r) ==> r < 13 && rank_count(x, r) == 2
            &&& forall|r: nat, q: nat| #[trigger] bit(p, r) && r < q < 13 && #[trigger] rank_count(x, q) == 2 ==> bit(p, q)
            &&& forall|i: nat| #[trigger] bit(k, i) ==> i < 13 && !bit(p, i) && bit(held, i)
            &&& count_below(k, 13) <= 1
            &&& forall|i: nat, j: nat| #[trigger] bit(k, i) && i < j < 13 && !bit(p, j) && #[trigger] bit(held, j) ==> bit(k, j)
            &&& forall|j: nat| j < 13 && !bit(p, j) && #[trigger] bit(held, j) && !bit(k, j) ==> count_below(k, 13) == 1
        },
{
    if let Hand::TwoPair { pairs, kickers } = ref_hand5(x) {
        let ranks = all_ranks(x);
        let straight = straight_top(ranks as u64);
        assert(!(suited5(x) && straight is Some && straight_flush_top(x) is Some));
        assert(first_stop_below(x, 13) is None);
        assert(lowest_with(x, 0, 13, 3) is None);
        let p1 = highest_with(x, 0, 13, 2).unwrap();
        let p2 = second_pair(x, 0).unwrap();
        lemma_highest_top(x, 0, 13, 2);
        lemma_highest_top(x, 0, p1, 2);
        lemma_two_ranks(p1, p2);
        let m = single(p1) | single(p2);
        let p = m;
        assert(pairs.0 as u64 == m);
        assert forall|r: nat| #[trigger] bit(p, r) == (r == p1 || r == p2) by {
            lemma_bit_ops(single(p1), single(p2), r);
            lemma_bit_single(p1, r);
            lemma_bit_single(p2, r);
        }
        assert((m as u16) as u64 == m);
        let y = ranks_without(x, m as u16);
        assert forall|i: nat| #[trigger] bit(y, i) == (i < 13 && bit(ranks as u64, i) && !bit(p, i)) by {
            lemma_ranks_without_mask(x, m as u16, i);
        }
        let k = top_bits(y, 13, 1);
        lemma_kickers_fit(y, 1);
        assert(kickers.0 as u64 == k);
        lemma_top_bits_count(y, 13, 1);
        assert forall|i: nat| #[trigger] bit(k, i) implies i < 13 && !bit(p, i) && bit(ranks as u64, i) by {
            lemma_top_bits_subset(y, 13, 1, i);
        }
        assert forall|i: nat, j: nat| #[trigger] bit(k, i) && i < j < 13 && !bit(p, j) && #[trigger] bit(ranks as u64, j) implies bit(k, j) by {
            lemma_top_bits_max(y, 13, 1, i, j);
        }
        assert forall|j: nat| j < 13 && !bit(p, j) && #[trigger] bit(ranks as u64, j) && !bit(k, j) implies count_below(k, 13) == 1 by {
            if count_below(y, 13) <= 1 {
                lemma_top_bits_keep(y, 13, 1);
            }
        }
    }
}

/// Where the scan stops lies below `hi`.
proof fn lemma_stop_within(x: u64, hi: nat)
    ensures
        first_stop_below(x, hi) matches Some(r) ==> r < hi && stops_at(x, r),
    decreases hi,
{
    if hi > 0 {
        lemma_stop_within(x, (hi - 1) as nat);
    }
}

/// Every hand that the reference engine finds can be written out.
pub proof fn lemma_ref_hand5_displayable(x: u64)
    ensures
        displayable(ref_hand5(x)),
{
    let ranks = all_ranks(x);
    let straight = straight_top(ranks as u64);
    if suited5(x) && straight is Some && straight_flush_top(x) is Some {
    } else if first_stop_below(x, 13) is Some {
        let r = first_stop_below(x, 13).unwrap();
        lemma_kickers_fit(ranks_without(x, single(r) as u16), 1);
    } else if flush_ranks(x) is Some {
    } else if straight is Some {
    } else if lowest_with(x, 0, 13, 3) is Some {
        let t = lowest_with(x, 0, 13, 3).unwrap();
        lemma_kickers_fit(ranks_without(x, single(t) as u16), 2);
    } else if highest_with(x, 0, 13, 2) is Some {
        let p1 = highest_with(x, 0, 13, 2).unwrap();
        lemma_highest_within(x, 0, 13, 2);
        match second_pair(x, 0) {
            Some(p2) => {
                lemma_highest_within(x, 0, p1, 2);
                lemma_two_ranks(p1, p2);
                lemma_kickers_fit(ranks_without(x, (single(p1) | single(p2)) as u16), 1);
            },
            None => {
                lemma_kickers_fit(ranks_without(x, single(p1) as u16), 3);
            },
        }
    } else {
        lemma_kickers_fit(ranks as u64, 5);
    }
}

} // verus!

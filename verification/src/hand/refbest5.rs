//! Reference engine for finding the best hand of five cards or fewer together with the cards
//! that make it, checking each category in turn from the strongest down.

use vstd::prelude::*;
use crate::bits::{bit, count_below, single, top_bits, lemma_top_bits_gap, lemma_top_bits_shift, lemma_top_bits_max, lemma_count_at_least, lemma_count_zero_bits, lemma_bit_ops, lemma_top_bits_count, lemma_top_bits_subset, lemma_count_below_full, lemma_count_below_same, lemma_u16_single, lemma_u16_ops, lemma_or_laws};
use crate::deck::{CardMask, Rank, RankMask, Suit, all_ranks, suit_ranks, rank_count, rank_column};
use crate::hand::{Best5, Hand, displayable};
use crate::hand::lutrank::held;
use crate::deck::{lemma_count_remove, lemma_full_bits};
use crate::hand::refhand5::{top_others, lemma_top_others_of, straight_at, straight_top, straight_top_below, lemma_kickers_fit, lemma_straight_top_none, lemma_two_ranks};

verus! {

/// Every card.
pub open spec fn full_cards() -> u64 {
    0xf_ffff_ffff_ffffu64
}

/// Every card of suit `s`.
pub open spec fn suit_column(s: nat) -> u64 {
    0x1fffu64 << ((13 * s) as u64)
}

/// The highest rank below `hi` held at least `k` times by the card bits `x`.
pub open spec fn top_with_at_least(x: u64, hi: nat, k: nat) -> Option<nat>
    decreases hi,
{
    if hi == 0 {
        None
    } else if rank_count(x, (hi - 1) as nat) >= k {
        Some((hi - 1) as nat)
    } else {
        top_with_at_least(x, (hi - 1) as nat, k)
    }
}

/// The highest card of rank `r` held by `x`, as bits.
pub open spec fn rank_top_card(x: u64, r: nat) -> u64 {
    top_bits(x & rank_column(r), 52, 1)
}

/// The cards used for the straight ending at rank `t`: the highest card of each of its ranks,
/// from the top down, the ace last for the straight to the five.
pub open spec fn straight_cards(x: u64, t: nat) -> u64 {
    if t == 3 {
        0u64 | rank_top_card(x, 3) | rank_top_card(x, 2) | rank_top_card(x, 1) | rank_top_card(
            x,
            0,
        ) | rank_top_card(x, 12)
    } else {
        0u64 | rank_top_card(x, t) | rank_top_card(x, (t - 1) as nat) | rank_top_card(
            x,
            (t - 2) as nat,
        ) | rank_top_card(x, (t - 3) as nat) | rank_top_card(x, (t - 4) as nat)
    }
}

/// The best straight of the card bits `x`: the cards used and the top rank.
pub open spec fn best_straight_of(x: u64) -> Option<(u64, nat)> {
    match straight_top(all_ranks(x) as u64) {
        Some(t) => Some((straight_cards(x, t), t)),
        None => None,
    }
}

/// The best straight flush among the suits below `n`, a later suit winning a tie.
pub open spec fn best_straightflush_below(x: u64, n: nat) -> Option<(u64, nat)>
    decreases n,
{
    if n == 0 {
        None
    } else {
        let prev = best_straightflush_below(x, (n - 1) as nat);
        match best_straight_of(x & suit_column((n - 1) as nat)) {
            None => prev,
            Some(c) => match prev {
                Some(p) => if c.1 >= p.1 {
                    Some(c)
                } else {
                    Some(p)
                },
                None => Some(c),
            },
        }
    }
}

/// The best straight flush of the card bits `x`.
pub open spec fn best_straightflush_of(x: u64) -> Option<(u64, nat)> {
    best_straightflush_below(x, 4)
}

/// The best group of `k` cards of a rank: the highest rank held at least `k` times, and its `k`
/// highest cards.
pub open spec fn best_group_of(x: u64, k: nat) -> Option<(u64, nat)> {
    match top_with_at_least(x, 13, k) {
        Some(r) => Some((top_bits(x & rank_column(r), 52, k), r)),
        None => None,
    }
}

/// The best full house of the card bits `x`: the best three of a kind, then the best pair of the
/// other cards.
pub open spec fn best_fullhouse_of(x: u64) -> Option<(u64, (nat, nat))> {
    match best_group_of(x, 3) {
        Some((u1, t)) => match best_group_of(x & (full_cards() ^ u1), 2) {
            Some((u2, p)) => Some((u1 | u2, (t, p))),
            None => None,
        },
        None => None,
    }
}

/// The best two pairs of the card bits `x`: the best pair, then the best pair of the cards of
/// the other ranks.
pub open spec fn best_twopair_of(x: u64) -> Option<(u64, (nat, nat))> {
    match best_group_of(x, 2) {
        Some((u1, p1)) => match best_group_of(x & (full_cards() ^ rank_column(p1)), 2) {
            Some((u2, p2)) => Some((u1 | u2, (p1, p2))),
            None => None,
        },
        None => None,
    }
}

/// The best flush among the suits below `n` holding five cards or more: the greatest top five
/// ranks, a later suit winning a tie.
pub open spec fn best_flush_below(x: u64, n: nat) -> Option<(nat, u16)>
    decreases n,
{
    if n == 0 {
        None
    } else {
        let prev = best_flush_below(x, (n - 1) as nat);
        let s = (n - 1) as nat;
        let ranks = suit_ranks(x, s);
        if count_below(ranks as u64, 16) >= 5 {
            let top = top_bits(ranks as u64, 13, 5) as u16;
            match prev {
                Some(p) => if top >= p.1 {
                    Some((s, top))
                } else {
                    Some(p)
                },
                None => Some((s, top)),
            }
        } else {
            prev
        }
    }
}

/// The best flush of the card bits `x`: the five highest cards of the winning suit, and their
/// ranks.
pub open spec fn best_flush_of(x: u64) -> Option<(u64, u16)> {
    match best_flush_below(x, 4) {
        Some((s, ranks)) => Some((top_bits(x & suit_column(s), 52, 5), ranks)),
        None => None,
    }
}

/// The cards of every suit of the ranks below `n` set in the rank bits `m`.
pub open spec fn mask_columns(m: u16, n: nat) -> u64
    decreases n,
{
    if n == 0 {
        0
    } else {
        mask_columns(m, (n - 1) as nat) | if bit(m as u64, (n - 1) as nat) {
            rank_column((n - 1) as nat)
        } else {
            0
        }
    }
}

/// The rank bits of the cards `x` not among `used`.
pub open spec fn rest_ranks(x: u64, used: u64) -> u16 {
    all_ranks(x & (full_cards() ^ used))
}

/// The number of cards of suit `s` among the ranks below `n`.
pub open spec fn suit_count_below(y: u64, s: nat, n: nat) -> nat
    decreases n,
{
    if n == 0 {
        0
    } else {
        suit_count_below(y, s, (n - 1) as nat) + if bit(y, ((n - 1) + 13 * s) as nat) { 1nat } else { 0nat }
    }
}

/// Counting the positions of a suit's block one rank at a time.
proof fn lemma_count_blocks(y: u64, s: nat, n: nat)
    requires
        n <= 13,
    ensures
        count_below(y, 13 * s + n) == count_below(y, 13 * s) + suit_count_below(y, s, n),
    decreases n,
{
    if n > 0 {
        lemma_count_blocks(y, s, (n - 1) as nat);
        assert((13 * s + n - 1) as nat == ((n - 1) + 13 * s) as nat);
    }
}

/// Counting the cards of the ranks below `n` suit by suit.
proof fn lemma_held_blocks(y: u64, n: nat)
    ensures
        held(y, n) == suit_count_below(y, 0, n) + suit_count_below(y, 1, n) + suit_count_below(y, 2, n)
            + suit_count_below(y, 3, n),
    decreases n,
{
    if n > 0 {
        lemma_held_blocks(y, (n - 1) as nat);
        let r = (n - 1) as nat;
        assert(r + 13 * 0 == r && r + 13 * 1 == r + 13 && r + 13 * 2 == r + 26 && r + 13 * 3 == r + 39);
    }
}

/// The cards counted rank by rank are the cards counted position by position.
pub proof fn lemma_held_count(y: u64)
    ensures
        held(y, 13) == count_below(y, 52),
{
    lemma_count_blocks(y, 0, 13);
    lemma_count_blocks(y, 1, 13);
    lemma_count_blocks(y, 2, 13);
    lemma_count_blocks(y, 3, 13);
    lemma_held_blocks(y, 13);
}

/// A rank is held exactly when one of its four cards is.
pub(crate) proof fn lemma_all_ranks_bit(y: u64, r: nat)
    requires
        r < 16,
    ensures
        bit(all_ranks(y) as u64, r) == (r < 13 && (bit(y, r) || bit(y, r + 13) || bit(y, r + 26) || bit(y, r + 39))),
{
    let rr = r as u64;
    assert((((((y | (y >> 13u64) | (y >> 26u64) | (y >> 39u64)) & 0x1fffu64) as u16) as u64 >> rr) & 1u64 == 1u64)
        == (rr < 13 && ((y >> rr) & 1u64 == 1u64 || (y >> (rr + 13)) & 1u64 == 1u64 || (y >> (rr + 26)) & 1u64
        == 1u64 || (y >> (rr + 39)) & 1u64 == 1u64))) by (bit_vector)
        requires
            rr < 16,
    ;
}

/// The ranks held are no more than the cards held.
proof fn lemma_ranks_below_cards(y: u64, n: nat)
    requires
        n <= 13,
    ensures
        count_below(all_ranks(y) as u64, n) <= held(y, n),
    decreases n,
{
    if n > 0 {
        lemma_ranks_below_cards(y, (n - 1) as nat);
        lemma_all_ranks_bit(y, (n - 1) as nat);
    }
}

/// The ranks of some cards are no more than the cards.
pub proof fn lemma_ranks_count(y: u64)
    ensures
        count_below(all_ranks(y) as u64, 16) <= count_below(y, 52),
        count_below(all_ranks(y) as u64, 16) == count_below(all_ranks(y) as u64, 13),
{
    assert forall|i: nat| 13 <= i < 16 implies !#[trigger] bit(all_ranks(y) as u64, i) by {
        lemma_all_ranks_bit(y, i);
    }
    lemma_count_below_full(all_ranks(y) as u64, 13, 16);
    lemma_ranks_below_cards(y, 13);
    lemma_held_count(y);
}

/// The four cards of a rank.
proof fn lemma_rank_column_bit(r: nat, b: nat)
    requires
        r < 13,
    ensures
        bit(rank_column(r), b) == (b == r || b == r + 13 || b == r + 26 || b == r + 39),
{
    if b < 64 {
        let rr = r as u64;
        let bb = b as u64;
        assert((((0x80_0400_2001u64 << rr) >> bb) & 1u64 == 1u64) == (bb == rr || bb == rr + 13 || bb == rr + 26
            || bb == rr + 39)) by (bit_vector)
            requires
                rr < 13,
                bb < 64,
        ;
    }
}

/// The cards of `x` of rank `r` counted rank by rank: those of `r`, once past it.
proof fn lemma_column_held(x: u64, r: nat, n: nat)
    requires
        r < 13,
        n <= 13,
    ensures
        held(x & rank_column(r), n) == if n > r { rank_count(x, r) } else { 0 },
    decreases n,
{
    if n > 0 {
        lemma_column_held(x, r, (n - 1) as nat);
        let q = (n - 1) as nat;
        let c = rank_column(r);
        lemma_bit_ops(x, c, q);
        lemma_bit_ops(x, c, q + 13);
        lemma_bit_ops(x, c, q + 26);
        lemma_bit_ops(x, c, q + 39);
        lemma_rank_column_bit(r, q);
        lemma_rank_column_bit(r, q + 13);
        lemma_rank_column_bit(r, q + 26);
        lemma_rank_column_bit(r, q + 39);
    }
}

/// Counting the cards of rank `r` position by position.
proof fn lemma_column_count(x: u64, r: nat)
    requires
        r < 13,
    ensures
        count_below(x & rank_column(r), 52) == rank_count(x, r),
{
    lemma_column_held(x, r, 13);
    lemma_held_count(x & rank_column(r));
}

/// What the search for a rank held at least `k` times finds, or that none below `hi` is.
proof fn lemma_top_with(x: u64, hi: nat, k: nat)
    ensures
        top_with_at_least(x, hi, k) matches Some(r) ==> r < hi && rank_count(x, r) >= k,
        top_with_at_least(x, hi, k) is None ==> forall|r: nat| r < hi ==> rank_count(x, r) < k,
    decreases hi,
{
    if hi > 0 && rank_count(x, (hi - 1) as nat) < k {
        lemma_top_with(x, (hi - 1) as nat, k);
    }
}

/// The best group of `k` cards of a rank held at least `k` times is `k` cards of `x`, all of
/// that rank.
proof fn lemma_group(x: u64, k: nat)
    requires
        best_group_of(x, k) is Some,
    ensures
        ({
            let (used, r) = best_group_of(x, k).unwrap();
            &&& r < 13
            &&& rank_count(x, r) >= k
            &&& count_below(used, 52) == if k < rank_count(x, r) { k } else { rank_count(x, r) }
            &&& forall|b: nat| #[trigger] bit(used, b) ==> bit(x, b) && bit(rank_column(r), b) && b < 52
        }),
{
    lemma_top_with(x, 13, k);
    let r = top_with_at_least(x, 13, k).unwrap();
    let y = x & rank_column(r);
    lemma_top_bits_count(y, 52, k);
    lemma_column_count(x, r);
    assert forall|b: nat| #[trigger] bit(top_bits(y, 52, k), b) implies bit(x, b) && bit(rank_column(r), b) && b < 52 by {
        lemma_top_bits_subset(y, 52, k, b);
        lemma_bit_ops(x, rank_column(r), b);
    }
}

/// Taking out some cards of rank `r` leaves the rest of that rank.
proof fn lemma_rank_count_remove(x: u64, u: u64, r: nat)
    requires
        r < 13,
        forall|b: nat| #[trigger] bit(u, b) ==> bit(x, b) && bit(rank_column(r), b) && b < 52,
    ensures
        rank_count(x & (0xf_ffff_ffff_ffffu64 ^ u), r) + count_below(u, 52) == rank_count(x, r),
{
    let f = 0xf_ffff_ffff_ffffu64;
    lemma_bit_ops(x, f ^ u, r);
    lemma_bit_ops(x, f ^ u, r + 13);
    lemma_bit_ops(x, f ^ u, r + 26);
    lemma_bit_ops(x, f ^ u, r + 39);
    lemma_bit_ops(f, u, r);
    lemma_bit_ops(f, u, r + 13);
    lemma_bit_ops(f, u, r + 26);
    lemma_bit_ops(f, u, r + 39);
    lemma_full_bits(r);
    lemma_full_bits(r + 13);
    lemma_full_bits(r + 26);
    lemma_full_bits(r + 39);
    // `u` lies in the column of `r`, so it counts the same as its part there
    assert forall|b: nat| b < 52 implies bit(u & rank_column(r), b) == bit(u, b) by {
        lemma_bit_ops(u, rank_column(r), b);
    }
    lemma_count_below_same(u & rank_column(r), u, 52);
    lemma_column_count(u, r);
}

/// Whether the card bits `x` and `y` hold each rank the same number of times.
pub open spec fn same_ranks(x: u64, y: u64) -> bool {
    forall|r: nat| r < 13 ==> #[trigger] rank_count(x, r) == rank_count(y, r)
}

/// Whether no suit of the card bits `x` holds five cards.
pub open spec fn no_flush(x: u64) -> bool {
    forall|s: nat| s < 4 ==> count_below(#[trigger] suit_ranks(x, s) as u64, 16) < 5 && count_below(
        x & suit_column(s),
        52,
    ) < 5
}

/// A `u16` has no position set from 16 up.
pub(crate) proof fn lemma_u16_high_bit(v: u16, i: nat)
    requires
        i >= 16,
    ensures
        !bit(v as u64, i),
{
    if i < 64 {
        let ii = i as u64;
        assert(((v as u64) >> ii) & 1u64 == 0u64) by (bit_vector)
            requires
                16 <= ii < 64,
        ;
    }
}

/// Cards holding each rank the same number of times hold the same ranks.
pub proof fn lemma_same_all_ranks(x: u64, y: u64)
    requires
        same_ranks(x, y),
    ensures
        all_ranks(x) == all_ranks(y),
{
    assert forall|i: nat| i < 64 implies #[trigger] bit(all_ranks(x) as u64, i) == bit(all_ranks(y) as u64, i) by {
        if i < 16 {
            lemma_all_ranks_bit(x, i);
            lemma_all_ranks_bit(y, i);
            if i < 13 {
                assert(rank_count(x, i) == rank_count(y, i));
            }
        } else {
            lemma_u16_high_bit(all_ranks(x), i);
            lemma_u16_high_bit(all_ranks(y), i);
        }
    }
    crate::bits::lemma_bits_ext(all_ranks(x) as u64, all_ranks(y) as u64);
}

/// Cards holding each rank the same number of times meet the same searches for ranks.
proof fn lemma_same_top_with(x: u64, y: u64, hi: nat, k: nat)
    requires
        same_ranks(x, y),
        hi <= 13,
    ensures
        top_with_at_least(x, hi, k) == top_with_at_least(y, hi, k),
    decreases hi,
{
    if hi > 0 {
        assert(rank_count(x, (hi - 1) as nat) == rank_count(y, (hi - 1) as nat));
        lemma_same_top_with(x, y, (hi - 1) as nat, k);
    }
}

/// With no three of a kind, the best pair takes every card of its rank.
proof fn lemma_pair_column(x: u64)
    requires
        best_group_of(x, 2) is Some,
        top_with_at_least(x, 13, 3) is None,
    ensures
        x & (full_cards() ^ best_group_of(x, 2).unwrap().0) == x & (full_cards() ^ rank_column(best_group_of(x, 2).unwrap().1)),
{
    let (u1, p1) = best_group_of(x, 2).unwrap();
    let f = full_cards();
    let col = rank_column(p1);
    lemma_group(x, 2);
    lemma_top_with(x, 13, 3);
    lemma_column_count(x, p1);
    assert(p1 < 13);
    assert(rank_count(x, p1) < 3);
    assert(u1 == top_bits(x & col, 52, 2));
    lemma_top_bits_keep(x & col, 52, 2);
    assert forall|i: nat| i < 64 implies bit(x & (f ^ u1), i) == bit(x & (f ^ col), i) by {
        lemma_rank_column_bit(p1, i);
        lemma_bit_ops(x, f ^ u1, i);
        lemma_bit_ops(f, u1, i);
        lemma_bit_ops(x, f ^ col, i);
        lemma_bit_ops(f, col, i);
        lemma_bit_ops(x, col, i);
        lemma_full_bits(i);
    }
    crate::bits::lemma_bits_ext(x & (f ^ u1), x & (f ^ col));
}

/// Taking out cards of rank `r` leaves the positions of the other ranks as they were.
proof fn lemma_outside_column(x: u64, used: u64, r: nat, p: nat)
    requires
        r < 13,
        p < 52,
        p % 13 != r,
        forall|b: nat| #[trigger] bit(used, b) ==> bit(x, b) && bit(rank_column(r), b) && b < 52,
    ensures
        bit(x & (0xf_ffff_ffff_ffffu64 ^ used), p) == bit(x, p),
{
    let f = 0xf_ffff_ffff_ffffu64;
    lemma_rank_column_bit(r, p);
    lemma_bit_ops(x, f ^ used, p);
    lemma_bit_ops(f, used, p);
    lemma_full_bits(p);
}

/// Taking out the best group of `k` cards of rank `r` leaves the other ranks as they were, and
/// of `r` what the group did not take.
proof fn lemma_group_rest(x: u64, k: nat)
    requires
        best_group_of(x, k) is Some,
    ensures
        ({
            let (used, r) = best_group_of(x, k).unwrap();
            forall|r2: nat| r2 < 13 ==> #[trigger] rank_count(x & (0xf_ffff_ffff_ffffu64 ^ used), r2) == if r2 == r {
                rank_count(x, r) - (if k < rank_count(x, r) { k } else { rank_count(x, r) })
            } else {
                rank_count(x, r2) as int
            }
        }),
{
    let (used, r) = best_group_of(x, k).unwrap();
    let f = 0xf_ffff_ffff_ffffu64;
    lemma_group(x, k);
    lemma_rank_count_remove(x, used, r);
    assert forall|r2: nat| r2 < 13 && r2 != r implies #[trigger] rank_count(x & (f ^ used), r2) == rank_count(x, r2) by {
        lemma_outside_column(x, used, r, r2);
        lemma_outside_column(x, used, r, r2 + 13);
        lemma_outside_column(x, used, r, r2 + 26);
        lemma_outside_column(x, used, r, r2 + 39);
    }
}

/// Cards holding each rank the same number of times, less their best groups of `k`, still do.
proof fn lemma_same_rest(x: u64, y: u64, k: nat)
    requires
        same_ranks(x, y),
        best_group_of(x, k) is Some,
    ensures
        best_group_of(y, k) is Some,
        best_group_of(x, k).unwrap().1 == best_group_of(y, k).unwrap().1,
        same_ranks(
            x & (0xf_ffff_ffff_ffffu64 ^ best_group_of(x, k).unwrap().0),
            y & (0xf_ffff_ffff_ffffu64 ^ best_group_of(y, k).unwrap().0),
        ),
{
    lemma_same_top_with(x, y, 13, k);
    lemma_group_rest(x, k);
    lemma_group_rest(y, k);
    let r = best_group_of(x, k).unwrap().1;
    assert(rank_count(x, r) == rank_count(y, r)) by {
        lemma_top_with(x, 13, k);
    }
    let xr = x & (0xf_ffff_ffff_ffffu64 ^ best_group_of(x, k).unwrap().0);
    let yr = y & (0xf_ffff_ffff_ffffu64 ^ best_group_of(y, k).unwrap().0);
    assert forall|r2: nat| r2 < 13 implies #[trigger] rank_count(xr, r2) == rank_count(yr, r2) by {
        assert(rank_count(x, r2) == rank_count(y, r2));
    }
}

/// The search for a straight finds only a straight.
proof fn lemma_straight_found(r: u64, j: nat)
    ensures
        straight_top_below(r, j) matches Some(t) ==> straight_at(r, t),
    decreases j,
{
    if j >= 3 && !straight_at(r, j) {
        lemma_straight_found(r, (j - 1) as nat);
    }
}

/// A straight sets five positions.
proof fn lemma_straight_count(v: u64)
    requires
        straight_top(v) is Some,
    ensures
        count_below(v, 16) >= 5,
{
    lemma_straight_found(v, 12);
    let j = straight_top(v).unwrap();
    let e: nat = if j == 3 { 12 } else { (j - 4) as nat };
    let st = Set::<nat>::empty().insert(j).insert((j - 1) as nat).insert((j - 2) as nat).insert((j - 3) as nat).insert(e);
    assert(st.len() == 5);
    lemma_count_at_least(v, 16, st);
}

/// Without five cards of a suit, there is neither a flush nor a straight flush.
proof fn lemma_no_flush_none(x: u64, n: nat)
    requires
        no_flush(x),
        n <= 4,
    ensures
        best_flush_below(x, n) is None,
        best_straightflush_below(x, n) is None,
    decreases n,
{
    if n > 0 {
        let s = (n - 1) as nat;
        lemma_no_flush_none(x, s);
        assert(count_below(suit_ranks(x, s) as u64, 16) < 5);
        let z = x & suit_column(s);
        if straight_top(all_ranks(z) as u64) is Some {
            lemma_straight_count(all_ranks(z) as u64);
            lemma_ranks_count(z);
        }
    }
}

/// Keeping the `k` highest positions keeps all of them when there are no more than `k`.
pub(crate) proof fn lemma_top_bits_keep(x: u64, n: nat, k: nat)
    requires
        n <= 64,
        count_below(x, n) <= k,
    ensures
        forall|i: nat| #[trigger] bit(top_bits(x, n, k), i) == (i < n && bit(x, i)),
    decreases n,
{
    if n == 0 {
        assert forall|i: nat| #[trigger] bit(top_bits(x, n, k), i) == (i < n && bit(x, i)) by {
            lemma_bit_ops(0, 0, i);
        }
    } else if k == 0 {
        lemma_count_zero_bits(x, n);
        assert forall|i: nat| #[trigger] bit(top_bits(x, n, k), i) == (i < n && bit(x, i)) by {
            lemma_bit_ops(0, 0, i);
        }
    } else if bit(x, (n - 1) as nat) {
        let m = (n - 1) as nat;
        lemma_top_bits_keep(x, m, (k - 1) as nat);
        assert(top_bits(x, n, k) == single(m) | top_bits(x, m, (k - 1) as nat));
        assert forall|i: nat| #[trigger] bit(top_bits(x, n, k), i) == (i < n && bit(x, i)) by {
            lemma_bit_ops(single(m), top_bits(x, m, (k - 1) as nat), i);
            crate::bits::lemma_bit_single(m, i);
            assert(bit(top_bits(x, m, (k - 1) as nat), i) == (i < m && bit(x, i)));
        }
    } else {
        let m = (n - 1) as nat;
        lemma_top_bits_keep(x, m, k);
        assert(top_bits(x, n, k) == top_bits(x, m, k));
        assert forall|i: nat| #[trigger] bit(top_bits(x, n, k), i) == (i < n && bit(x, i)) by {
            assert(bit(top_bits(x, m, k), i) == (i < m && bit(x, i)));
        }
    }
}

/// Taking out `a` and then `b` takes out both.
proof fn lemma_take_out_both(x: u64, a: u64, b: u64)
    requires
        x <= 0xf_ffff_ffff_ffffu64,
    ensures
        x & (0xf_ffff_ffff_ffffu64 ^ (a | b)) == (x & (0xf_ffff_ffff_ffffu64 ^ a)) & (0xf_ffff_ffff_ffffu64 ^ b),
{
    assert(x & (0xf_ffff_ffff_ffffu64 ^ (a | b)) == (x & (0xf_ffff_ffff_ffffu64 ^ a)) & (0xf_ffff_ffff_ffffu64 ^ b))
        by (bit_vector)
        requires
            x <= 0xf_ffff_ffff_ffffu64,
    ;
}

/// The ranks of suit `s` are the cards of its block.
pub(crate) proof fn lemma_suit_ranks_bit(x: u64, s: nat, r: nat)
    requires
        s < 4,
        r < 64,
    ensures
        bit(suit_ranks(x, s) as u64, r) == (r < 13 && bit(x, r + 13 * s)),
{
    let ss = (13 * s) as u64;
    let rr = r as u64;
    assert((((((x >> ss) as u16) & 0x1fffu16) as u64 >> rr) & 1u64 == 1u64) == (rr < 13 && (x >> (rr + ss))
        & 1u64 == 1u64)) by (bit_vector)
        requires
            ss <= 39,
            rr < 64,
    ;
}

/// The cards of suit `s` are those of its block.
pub proof fn lemma_suit_column_bit(s: nat, b: nat)
    requires
        s < 4,
    ensures
        bit(suit_column(s), b) == (13 * s <= b < 13 * s + 13),
{
    if b < 64 {
        let ss = (13 * s) as u64;
        let bb = b as u64;
        assert((((0x1fffu64 << ss) >> bb) & 1u64 == 1u64) == (ss <= bb && bb < ss + 13)) by (bit_vector)
            requires
                ss <= 39,
                bb < 64,
        ;
    }
}

/// The ranks of suit `s` counted one rank at a time are the cards of its block.
proof fn lemma_suit_ranks_count_below(x: u64, s: nat, n: nat)
    requires
        s < 4,
        n <= 13,
    ensures
        count_below(suit_ranks(x, s) as u64, n) == suit_count_below(x, s, n),
    decreases n,
{
    if n > 0 {
        lemma_suit_ranks_count_below(x, s, (n - 1) as nat);
        lemma_suit_ranks_bit(x, s, (n - 1) as nat);
    }
}

/// Counting the cards of a suit: by its ranks, or by its positions.
pub proof fn lemma_suit_count(x: u64, s: nat)
    requires
        s < 4,
    ensures
        count_below(suit_ranks(x, s) as u64, 16) == count_below(x & suit_column(s), 52),
        count_below(x & suit_column(s), 52) == suit_count_below(x, s, 13),
{
    let z = x & suit_column(s);
    assert forall|i: nat| 13 <= i < 16 implies !#[trigger] bit(suit_ranks(x, s) as u64, i) by {
        lemma_suit_ranks_bit(x, s, i);
    }
    lemma_count_below_full(suit_ranks(x, s) as u64, 13, 16);
    lemma_suit_ranks_count_below(x, s, 13);
    // the positions of `z` lie in the block of `s`, where they are those of `x`
    assert forall|b: nat| #[trigger] bit(z, b) == (13 * s <= b < 13 * s + 13 && bit(x, b)) by {
        lemma_bit_ops(x, suit_column(s), b);
        lemma_suit_column_bit(s, b);
    }
    lemma_count_blocks(z, s, 13);
    lemma_count_blocks_zero(z, s);
    assert forall|i: nat| 13 * s + 13 <= i < 52 implies !#[trigger] bit(z, i) by {}
    lemma_count_below_full(z, 13 * s + 13, 52);
    lemma_suit_count_same(x, z, s, 13);
}

/// Below the block of `s`, the cards of suit `s` count nothing.
proof fn lemma_count_blocks_zero(z: u64, s: nat)
    requires
        forall|b: nat| #[trigger] bit(z, b) ==> 13 * s <= b,
    ensures
        count_below(z, 13 * s) == 0,
{
    crate::bits::lemma_count_below_zero(13 * s);
    assert forall|b: nat| b < 13 * s implies bit(z, b) == bit(0u64, b) by {
        lemma_bit_ops(0, 0, b);
    }
    lemma_count_below_same(z, 0, 13 * s);
}

/// Positions that agree within the block count the same there.
proof fn lemma_suit_count_same(x: u64, z: u64, s: nat, n: nat)
    requires
        forall|b: nat| 13 * s <= b < 13 * s + n ==> #[trigger] bit(z, b) == bit(x, b),
    ensures
        suit_count_below(x, s, n) == suit_count_below(z, s, n),
    decreases n,
{
    if n > 0 {
        lemma_suit_count_same(x, z, s, (n - 1) as nat);
        assert(bit(z, ((n - 1) + 13 * s) as nat) == bit(x, ((n - 1) + 13 * s) as nat));
    }
}

/// Whether every card of `x` lies in suit `s`.
pub open spec fn in_suit(x: u64, s: nat) -> bool {
    forall|b: nat| #[trigger] bit(x, b) ==> 13 * s <= b < 13 * s + 13
}

/// The hand of cards all of one suit holding five or more: a straight flush to the top of their
/// best straight, or else a flush of their five highest ranks.
pub open spec fn one_suit_hand(r: u16) -> Hand {
    match straight_top(r as u64) {
        Some(t) => Hand::StraightFlush { top: Rank::from_nat(t) },
        None => Hand::Flush { ranks: RankMask(top_bits(r as u64, 13, 5) as u16) },
    }
}

/// Cards all of suit `s` fill only its block: its ranks are all their ranks, the other suits
/// are empty, and no rank is held twice.
pub proof fn lemma_in_suit_facts(x: u64, s: nat)
    requires
        s < 4,
        in_suit(x, s),
    ensures
        x & suit_column(s) == x,
        suit_ranks(x, s) == all_ranks(x),
        forall|r: nat| r < 13 ==> #[trigger] rank_count(x, r) <= 1,
{
    assert forall|b: nat| b < 64 implies #[trigger] bit(x & suit_column(s), b) == bit(x, b) by {
        lemma_bit_ops(x, suit_column(s), b);
        lemma_suit_column_bit(s, b);
    }
    crate::bits::lemma_bits_ext(x & suit_column(s), x);
    assert forall|r: nat| r < 64 implies #[trigger] bit(suit_ranks(x, s) as u64, r) == bit(all_ranks(x) as u64, r) by {
        lemma_suit_ranks_bit(x, s, r);
        if r < 16 {
            lemma_all_ranks_bit(x, r);
        } else {
            lemma_u16_high_bit(all_ranks(x), r);
        }
    }
    crate::bits::lemma_bits_ext(suit_ranks(x, s) as u64, all_ranks(x) as u64);
}

/// Cards all of suit `s` have nothing in another suit.
pub proof fn lemma_other_suit_empty(x: u64, s: nat, s2: nat)
    requires
        s < 4,
        s2 < 4,
        s2 != s,
        in_suit(x, s),
    ensures
        x & suit_column(s2) == 0,
        suit_ranks(x, s2) == 0,
{
    assert forall|b: nat| b < 64 implies #[trigger] bit(x & suit_column(s2), b) == bit(0u64, b) by {
        lemma_bit_ops(x, suit_column(s2), b);
        lemma_suit_column_bit(s2, b);
        lemma_bit_ops(0, 0, b);
    }
    crate::bits::lemma_bits_ext(x & suit_column(s2), 0);
    assert forall|r: nat| r < 64 implies #[trigger] bit(suit_ranks(x, s2) as u64, r) == bit(0u64, r) by {
        lemma_suit_ranks_bit(x, s2, r);
        lemma_bit_ops(0, 0, r);
    }
    crate::bits::lemma_bits_ext(suit_ranks(x, s2) as u64, 0);
}

/// Cards all of suit `s` have as best straight flush their best straight, found in that suit.
proof fn lemma_straightflush_in_suit(x: u64, s: nat, n: nat)
    requires
        s < 4,
        in_suit(x, s),
        n <= 4,
    ensures
        best_straightflush_below(x, n) == if n > s { best_straight_of(x) } else { None },
    decreases n,
{
    if n > 0 {
        lemma_straightflush_in_suit(x, s, (n - 1) as nat);
        lemma_in_suit_facts(x, s);
        let s2 = (n - 1) as nat;
        if s2 != s {
            lemma_other_suit_empty(x, s, s2);
            assert(all_ranks(0) == 0u16) by {
                assert(((0u64 | (0u64 >> 13u64) | (0u64 >> 26u64) | (0u64 >> 39u64)) & 0x1fffu64) as u16 == 0u16)
                    by (bit_vector);
            }
            assert forall|k: nat| k <= 12 implies !#[trigger] straight_at(0, k) by {
                lemma_bit_ops(0, 0, k);
            }
            lemma_straight_top_none(0, 12);
        }
    }
}

/// Cards all of suit `s`, five or more, have as best flush the five highest ranks of that suit.
proof fn lemma_flush_in_suit(x: u64, s: nat, n: nat)
    requires
        s < 4,
        in_suit(x, s),
        count_below(suit_ranks(x, s) as u64, 16) >= 5,
        n <= 4,
    ensures
        best_flush_below(x, n) == if n > s {
            Some((s, top_bits(suit_ranks(x, s) as u64, 13, 5) as u16))
        } else {
            None
        },
    decreases n,
{
    if n > 0 {
        lemma_flush_in_suit(x, s, (n - 1) as nat);
        lemma_in_suit_facts(x, s);
        let s2 = (n - 1) as nat;
        if s2 != s {
            lemma_other_suit_empty(x, s, s2);
            crate::bits::lemma_count_below_zero(16);
        }
    }
}

/// The hand that the reference engine finds among cards all of one suit, five or more, depends
/// only on their ranks.
pub proof fn lemma_best5_in_suit(x: u64, s: nat)
    requires
        s < 4,
        in_suit(x, s),
        count_below(suit_ranks(x, s) as u64, 16) >= 5,
    ensures
        ref_best5(x).1 == one_suit_hand(all_ranks(x)),
{
    reveal(ref_best5);
    lemma_in_suit_facts(x, s);
    lemma_straightflush_in_suit(x, s, 4);
    lemma_flush_in_suit(x, s, 4);
    lemma_top_with(x, 13, 4);
    lemma_top_with(x, 13, 3);
}

/// The hand that the reference engine finds among five cards or fewer, with no five of one suit,
/// depends only on how many cards of each rank they hold.
pub proof fn lemma_best5_same_ranks(x: u64, y: u64)
    requires
        same_ranks(x, y),
        no_flush(x),
        no_flush(y),
        count_below(x, 52) <= 5,
        count_below(y, 52) <= 5,
        forall|i: nat| #[trigger] bit(x, i) ==> i < 52,
        forall|i: nat| #[trigger] bit(y, i) ==> i < 52,
    ensures
        ref_best5(x).1 == ref_best5(y).1,
{
    reveal(ref_best5);
    let f = full_cards();
    crate::bits::lemma_bits_below_converse(x, 52);
    crate::bits::lemma_bits_below_converse(y, 52);
    assert(single(52) == 0x10_0000_0000_0000u64) by {
        assert(1u64 << 52u64 == 0x10_0000_0000_0000u64) by (bit_vector);
    }
    lemma_no_flush_none(x, 4);
    lemma_no_flush_none(y, 4);
    lemma_same_all_ranks(x, y);
    lemma_same_top_with(x, y, 13, 4);
    lemma_same_top_with(x, y, 13, 3);
    lemma_same_top_with(x, y, 13, 2);
    if best_group_of(x, 4) is Some {
        lemma_same_rest(x, y, 4);
        lemma_same_all_ranks(x & (f ^ best_group_of(x, 4).unwrap().0), y & (f ^ best_group_of(y, 4).unwrap().0));
    } else if best_group_of(x, 3) is Some {
        lemma_same_rest(x, y, 3);
        let x3 = x & (f ^ best_group_of(x, 3).unwrap().0);
        let y3 = y & (f ^ best_group_of(y, 3).unwrap().0);
        lemma_same_top_with(x3, y3, 13, 2);
        lemma_same_all_ranks(x3, y3);
    } else if best_group_of(x, 2) is Some {
        lemma_pair_column(x);
        lemma_pair_column(y);
        lemma_same_rest(x, y, 2);
        let (u1x, _) = best_group_of(x, 2).unwrap();
        let (u1y, _) = best_group_of(y, 2).unwrap();
        let x2 = x & (f ^ u1x);
        let y2 = y & (f ^ u1y);
        lemma_same_top_with(x2, y2, 13, 2);
        lemma_same_all_ranks(x2, y2);
        if best_group_of(x2, 2) is Some {
            lemma_same_rest(x2, y2, 2);
            let (u2x, _) = best_group_of(x2, 2).unwrap();
            let (u2y, _) = best_group_of(y2, 2).unwrap();
            lemma_take_out_both(x, u1x, u2x);
            lemma_take_out_both(y, u1y, u2y);
            lemma_same_all_ranks(x2 & (f ^ u2x), y2 & (f ^ u2y));
        }
    } else {
        lemma_top_bits_keep(x, 52, 5);
        lemma_top_bits_keep(y, 52, 5);
        crate::bits::lemma_bits_ext(top_bits(x, 52, 5), x);
        crate::bits::lemma_bits_ext(top_bits(y, 52, 5), y);
    }
}

/// The best flush found among the suits below `n` is of one of those suits, holding five cards
/// or more, and its ranks are the top five of that suit.
proof fn lemma_flush_below(x: u64, n: nat)
    ensures
        best_flush_below(x, n) matches Some((s, r)) ==> s < n && count_below(suit_ranks(x, s) as u64, 16) >= 5
            && r == top_bits(suit_ranks(x, s) as u64, 13, 5) as u16,
    decreases n,
{
    if n > 0 {
        lemma_flush_below(x, (n - 1) as nat);
    }
}

/// The ranks of the cards left after taking out every card of the best group of `k` cards of a
/// rank, when that rank has no more: the ranks held, less that one.
proof fn lemma_rest_without(x: u64, k: nat)
    requires
        best_group_of(x, k) is Some,
        rank_count(x, best_group_of(x, k).unwrap().1) <= k,
    ensures
        ({
            let (used, r) = best_group_of(x, k).unwrap();
            &&& r < 13
            &&& rank_count(x, r) >= k
            &&& forall|i: nat| #[trigger] bit(rest_ranks(x, used) as u64, i) == (i < 13 && bit(all_ranks(x) as u64, i) && i != r)
        }),
{
    let (used, r) = best_group_of(x, k).unwrap();
    lemma_group(x, k);
    lemma_group_rest(x, k);
    let y = x & (0xf_ffff_ffff_ffffu64 ^ used);
    assert forall|i: nat| #[trigger] bit(rest_ranks(x, used) as u64, i) == (i < 13 && bit(all_ranks(x) as u64, i) && i != r) by {
        if i < 16 {
            lemma_all_ranks_bit(y, i);
            lemma_all_ranks_bit(x, i);
            if i < 13 {
                assert(rank_count(y, i) == if i == r { rank_count(x, r) - (if k < rank_count(x, r) { k } else { rank_count(x, r) }) } else { rank_count(x, i) as int });
            }
        } else {
            lemma_u16_high_bit(rest_ranks(x, used), i);
            lemma_u16_high_bit(all_ranks(x), i);
        }
    }
}

/// Three of a kind, as the best five cards: a rank held three times, with the highest other
/// ranks held as kickers, two of them or all there are, never the rank of the three.
pub proof fn lemma_best5_trips(x: u64)
    ensures
        ref_best5(x).1 matches Hand::ThreeOfAKind { trip, kickers } ==> rank_count(x, trip.spec_index()) == 3
            && top_others(x, trip.spec_index(), kickers.0 as u64, 2),
{
    reveal(ref_best5);
    if let Hand::ThreeOfAKind { trip, kickers } = ref_best5(x).1 {
        assert(best_group_of(x, 4) is None);
        assert(best_group_of(x, 3) is Some);
        lemma_top_with(x, 13, 4);
        let (used, r) = best_group_of(x, 3).unwrap();
        lemma_group(x, 3);
        assert(rank_count(x, r) < 4);
        lemma_rest_without(x, 3);
        Rank::lemma_from_nat_roundtrip(r);
        lemma_kickers_fit(rest_ranks(x, used) as u64, 2);
        lemma_top_others_of(x, r, rest_ranks(x, used) as u64, 2);
    }
}

/// High card, as the best five cards: the five highest ranks held, or all of them when fewer.
pub proof fn lemma_best5_high(x: u64)
    ensures
        ref_best5(x).1 matches Hand::HighCard { kickers } ==> top_others(x, 13, kickers.0 as u64, 5),
{
    reveal(ref_best5);
    if let Hand::HighCard { kickers } = ref_best5(x).1 {
        let ranks = all_ranks(x);
        lemma_kickers_fit(ranks as u64, 5);
        assert forall|i: nat| #[trigger] bit(ranks as u64, i) == (i < 13 && bit(all_ranks(x) as u64, i) && i != 13) by {
            if i >= 13 {
                if i < 16 {
                    lemma_all_ranks_bit(x, i);
                } else {
                    lemma_u16_high_bit(ranks, i);
                }
            }
        }
        lemma_top_others_of(x, 13, ranks as u64, 5);
    }
}

/// Four of a kind, as the best five cards: a rank held four times, with the highest other rank
/// held as its kicker, never the rank of the four.
pub proof fn lemma_best5_quads(x: u64)
    ensures
        ref_best5(x).1 matches Hand::FourOfAKind { quad, kickers } ==> rank_count(x, quad.spec_index()) == 4
            && top_others(x, quad.spec_index(), kickers.0 as u64, 1),
{
    reveal(ref_best5);
    if let Hand::FourOfAKind { quad, kickers } = ref_best5(x).1 {
        assert(best_straightflush_of(x) is None);
        assert(best_group_of(x, 4) is Some);
        let (used, r) = best_group_of(x, 4).unwrap();
        lemma_group(x, 4);
        lemma_rest_without(x, 4);
        Rank::lemma_from_nat_roundtrip(r);
        lemma_kickers_fit(rest_ranks(x, used) as u64, 1);
        lemma_top_others_of(x, r, rest_ranks(x, used) as u64, 1);
    }
}

/// A straight, as the best five cards: five consecutive ranks held, the ace also below the two,
/// topped by the highest rank that tops such a run.
pub proof fn lemma_best5_straight(x: u64)
    ensures
        ref_best5(x).1 matches Hand::Straight { top } ==> {
            &&& straight_at(all_ranks(x) as u64, top.spec_index())
            &&& forall|q: nat| top.spec_index() < q <= 12 ==> !#[trigger] straight_at(all_ranks(x) as u64, q)
        },
{
    reveal(ref_best5);
    if let Hand::Straight { top } = ref_best5(x).1 {
        assert(best_straight_of(x) is Some);
        crate::hand::refhand5::lemma_straight_found(all_ranks(x) as u64, 12);
        Rank::lemma_from_nat_roundtrip(straight_top(all_ranks(x) as u64).unwrap());
    }
}

/// A full house, as the best five cards: the highest rank held three times, and another rank
/// held at least twice, the highest such.
pub proof fn lemma_best5_full_house(x: u64)
    ensures
        ref_best5(x).1 matches Hand::FullHouse { trip, pair } ==> {
            &&& rank_count(x, trip.spec_index()) == 3
            &&& rank_count(x, pair.spec_index()) >= 2
            &&& trip != pair
            &&& forall|q: nat| trip.spec_index() < q < 13 ==> #[trigger] rank_count(x, q) < 3
            &&& forall|q: nat| pair.spec_index() < q < 13 && q != trip.spec_index() ==> #[trigger] rank_count(x, q) < 2
        },
{
    reveal(ref_best5);
    if let Hand::FullHouse { trip, pair } = ref_best5(x).1 {
        assert(best_group_of(x, 4) is None);
        assert(best_fullhouse_of(x) is Some);
        lemma_top_with(x, 13, 4);
        let (u1, t) = best_group_of(x, 3).unwrap();
        lemma_group(x, 3);
        lemma_group_rest(x, 3);
        let y = x & (0xf_ffff_ffff_ffffu64 ^ u1);
        let (u2, p) = best_group_of(y, 2).unwrap();
        lemma_group(y, 2);
        lemma_top_with_high(x, 13, 3);
        lemma_top_with_high(y, 13, 2);
        Rank::lemma_from_nat_roundtrip(t);
        Rank::lemma_from_nat_roundtrip(p);
        assert(rank_count(y, t) == 0);
        assert forall|q: nat| p < q < 13 && q != t implies #[trigger] rank_count(x, q) < 2 by {
            assert(rank_count(y, q) == rank_count(x, q));
        }
    }
}

/// What the search for a rank held at least `k` times finds is the highest such.
proof fn lemma_top_with_high(x: u64, hi: nat, k: nat)
    ensures
        top_with_at_least(x, hi, k) matches Some(r) ==> forall|q: nat| r < q < hi ==> #[trigger] rank_count(x, q) < k,
    decreases hi,
{
    if hi > 0 && rank_count(x, (hi - 1) as nat) < k {
        lemma_top_with_high(x, (hi - 1) as nat, k);
    }
}

/// Two pairs, as the best five cards: the two highest ranks held twice, with the highest rank
/// held other than theirs as the kicker.
pub proof fn lemma_best5_two_pair(x: u64)
    ensures
        ref_best5(x).1 matches Hand::TwoPair { pairs, kickers } ==> {
            let p = pairs.0 as u64;
            let k = kickers.0 as u64;
            let held = all_ranks(x) as u64;
            &&& count_below(p, 13) == 2
            &&& forall|r: nat| #[trigger] bit(p, r) ==> r < 13 && rank_count(x, r) == 2
            &&& forall|r: nat, q: nat| #[trigger] bit(p, r) && r < q < 13 && #[trigger] rank_count(x, q) == 2 ==> bit(p, q)
            &&& forall|i: nat| #[trigger] bit(k, i) ==> i < 13 && !bit(p, i) && bit(held, i)
            &&& count_below(k, 13) <= 1
            &&& forall|i: nat, j: nat| #[trigger] bit(k, i) && i < j < 13 && !bit(p, j) && #[trigger] bit(held, j) ==> bit(k, j)
            &&& forall|j: nat| j < 13 && !bit(p, j) && #[trigger] bit(held, j) && !bit(k, j) ==> count_below(k, 13) == 1
        },
{
    reveal(ref_best5);
    if let Hand::TwoPair { pairs, kickers } = ref_best5(x).1 {
        let f = full_cards();
        assert(best_group_of(x, 3) is None);
        assert(best_twopair_of(x) is Some);
        lemma_top_with(x, 13, 3);
        lemma_pair_column(x);
        let (u1, p1) = best_group_of(x, 2).unwrap();
        lemma_group(x, 2);
        lemma_group_rest(x, 2);
        lemma_top_with_high(x, 13, 2);
        let x2 = x & (f ^ rank_column(p1));
        let (u2, p2) = best_group_of(x2, 2).unwrap();
        lemma_group(x2, 2);
        lemma_group_rest(x2, 2);
        lemma_top_with_high(x2, 13, 2);
        // the other ranks keep their counts once the first pair is out
        assert forall|q: nat| q < 13 implies #[trigger] rank_count(x2, q) == if q == p1 { 0 } else { rank_count(x, q) } by {
            assert(rank_count(x & (f ^ u1), q) == if q == p1 { 0 } else { rank_count(x, q) as int });
        }
        assert(p2 != p1);
        assert(p2 < p1) by {
            if p2 > p1 {
                assert(rank_count(x, p2) >= 2);
            }
        }
        let used = u1 | u2;
        let rest = x & (f ^ used);
        let y = x2 & (f ^ u2);
        assert forall|q: nat| q < 13 implies #[trigger] rank_count(rest, q) == rank_count(y, q) by {
            assert forall|b: nat| b < 52 implies bit(rest, b) == bit(y, b) by {
                lemma_bit_ops(x, f ^ used, b);
                lemma_bit_ops(f, used, b);
                lemma_bit_ops(u1, u2, b);
                lemma_bit_ops(x2, f ^ u2, b);
                lemma_bit_ops(f, u2, b);
                lemma_bit_ops(x, f ^ u1, b);
                lemma_bit_ops(f, u1, b);
                lemma_full_bits(b);
            }
            assert(q + 39 < 52);
        }
        let rr = rest_ranks(x, used);
        assert forall|i: nat| #[trigger] bit(rr as u64, i) == (i < 13 && bit(all_ranks(x) as u64, i) && i != p1 && i != p2) by {
            if i < 16 {
                lemma_all_ranks_bit(rest, i);
                lemma_all_ranks_bit(x, i);
                if i < 13 {
                    assert(rank_count(y, i) == if i == p2 { 0 } else { rank_count(x2, i) as int });
                    assert(rank_count(rest, i) == rank_count(y, i));
                    assert(rank_count(x2, i) == if i == p1 { 0 } else { rank_count(x, i) });
                    assert(rank_count(x, p2) < 3);
                    assert(rank_count(x2, p2) == rank_count(x, p2));
                }
            } else {
                lemma_u16_high_bit(rr, i);
                lemma_u16_high_bit(all_ranks(x), i);
            }
        }
        let pm = (single(p1) as u16) | (single(p2) as u16);
        lemma_u16_single(p1 as u16);
        lemma_u16_single(p2 as u16);
        lemma_u16_ops(single(p1) as u16, single(p2) as u16);
        lemma_two_ranks(p1, p2);
        let p = pm as u64;
        assert(p == single(p1) | single(p2));
        assert forall|r: nat| #[trigger] bit(p, r) == (r == p1 || r == p2) by {
            lemma_bit_ops(single(p1), single(p2), r);
            crate::bits::lemma_bit_single(p1, r);
            crate::bits::lemma_bit_single(p2, r);
        }
        assert(pairs.0 as u64 == p);
        let k = top_bits(rr as u64, 13, 1);
        lemma_kickers_fit(rr as u64, 1);
        assert(kickers.0 as u64 == k);
        lemma_top_bits_count(rr as u64, 13, 1);
        assert forall|i: nat| #[trigger] bit(k, i) implies i < 13 && !bit(p, i) && bit(all_ranks(x) as u64, i) by {
            lemma_top_bits_subset(rr as u64, 13, 1, i);
        }
        assert forall|i: nat, j: nat| #[trigger] bit(k, i) && i < j < 13 && !bit(p, j) && #[trigger] bit(all_ranks(x) as u64, j)
            implies bit(k, j) by {
            lemma_top_bits_max(rr as u64, 13, 1, i, j);
        }
        assert forall|j: nat| j < 13 && !bit(p, j) && #[trigger] bit(all_ranks(x) as u64, j) && !bit(k, j) implies count_below(k, 13) == 1 by {
            if count_below(rr as u64, 13) <= 1 {
                lemma_top_bits_keep(rr as u64, 13, 1);
            }
        }
        assert forall|r: nat, q: nat| #[trigger] bit(p, r) && r < q < 13 && #[trigger] rank_count(x, q) == 2 implies bit(p, q) by {
            if q != p1 && q != p2 {
                if q > p1 {
                } else {
                    assert(rank_count(x2, q) == 2);
                }
            }
        }
    }
}

/// One pair, as the best five cards: a rank held twice, with the highest other ranks held as
/// kickers, three of them or all there are, never the rank of the pair.
pub proof fn lemma_best5_pair(x: u64)
    ensures
        ref_best5(x).1 matches Hand::OnePair { pair, kickers } ==> rank_count(x, pair.spec_index()) == 2
            && top_others(x, pair.spec_index(), kickers.0 as u64, 3),
{
    reveal(ref_best5);
    if let Hand::OnePair { pair, kickers } = ref_best5(x).1 {
        assert(best_group_of(x, 3) is None);
        assert(best_group_of(x, 2) is Some);
        lemma_top_with(x, 13, 3);
        let (used, r) = best_group_of(x, 2).unwrap();
        lemma_group(x, 2);
        assert(rank_count(x, r) < 3);
        lemma_rest_without(x, 2);
        Rank::lemma_from_nat_roundtrip(r);
        lemma_kickers_fit(rest_ranks(x, used) as u64, 3);
        lemma_top_others_of(x, r, rest_ranks(x, used) as u64, 3);
    }
}

/// Whether `used` are five cards of `x` all of suit `s`, the highest of that suit, with the
/// ranks `ranks`: the ranks of those cards and of no other card.
pub open spec fn flush_of_suit(x: u64, used: u64, ranks: u64, s: nat) -> bool {
    &&& s < 4
    &&& forall|b: nat| #[trigger] bit(used, b) ==> bit(x, b) && 13 * s <= b < 13 * s + 13
    &&& forall|r: nat| r < 13 ==> (#[trigger] bit(ranks, r) <==> bit(used, r + 13 * s))
    &&& forall|r: nat| 13 <= r ==> !#[trigger] bit(ranks, r)
    &&& count_below(ranks, 13) == 5
    &&& forall|r: nat, q: nat| r < q < 13 && #[trigger] bit(ranks, r) && #[trigger] bit(x, q + 13 * s) ==> bit(ranks, q)
}

/// A flush is five cards of one suit, the highest of that suit, and its ranks are the ranks of
/// those five cards: no card of another suit counts.
pub proof fn lemma_flush_cards(x: u64)
    ensures
        ref_best5(x).1 is Flush ==> exists|s: nat| #[trigger] flush_of_suit(x, ref_best5(x).0, ref_best5(x).1->Flush_ranks.0 as u64, s),
{
    reveal(ref_best5);
    if ref_best5(x).1 is Flush {
        assert(best_straightflush_of(x) is None);
        assert(best_group_of(x, 4) is None);
        assert(best_fullhouse_of(x) is None);
        assert(best_flush_of(x) is Some);
        lemma_flush_below(x, 4);
        let (s, r5) = best_flush_below(x, 4).unwrap();
        let v = suit_ranks(x, s) as u64;
        let col = x & suit_column(s);
        let o = 13 * s;
        let used = top_bits(col, 52, 5);
        assert(ref_best5(x).0 == used);
        assert(ref_best5(x).1->Flush_ranks.0 == r5);
        assert forall|i: nat| i < 13 implies #[trigger] bit(col, o + i) == bit(v, i) by {
            lemma_bit_ops(x, suit_column(s), o + i);
            lemma_suit_column_bit(s, o + i);
            lemma_suit_ranks_bit(x, s, i);
        }
        assert forall|b: nat| b < o implies !#[trigger] bit(col, b) by {
            lemma_bit_ops(x, suit_column(s), b);
            lemma_suit_column_bit(s, b);
        }
        assert forall|b: nat| o + 13 <= b < 52 implies !#[trigger] bit(col, b) by {
            lemma_bit_ops(x, suit_column(s), b);
            lemma_suit_column_bit(s, b);
        }
        lemma_top_bits_gap(col, o + 13, 52, 5);
        lemma_top_bits_shift(col, v, o, 13, 5);
        lemma_kickers_fit(v, 5);
        let ranks = r5 as u64;
        assert(ranks == top_bits(v, 13, 5));
        assert forall|b: nat| #[trigger] bit(used, b) implies bit(x, b) && o <= b < o + 13 by {
            lemma_top_bits_subset(col, 52, 5, b);
            lemma_bit_ops(x, suit_column(s), b);
            lemma_suit_column_bit(s, b);
            if b < o {
                assert(!bit(top_bits(col, o + 13, 5), b));
            }
        }
        assert forall|r: nat| r < 13 implies (#[trigger] bit(ranks, r) <==> bit(used, r + o)) by {
            assert(bit(top_bits(col, o + 13, 5), o + r) == bit(top_bits(v, 13, 5), r));
        }
        assert forall|r: nat| 13 <= r implies !#[trigger] bit(ranks, r) by {
            lemma_top_bits_subset(v, 13, 5, r);
        }
        lemma_top_bits_count(v, 13, 5);
        assert forall|i: nat| 13 <= i < 16 implies !#[trigger] bit(v, i) by {
            lemma_suit_ranks_bit(x, s, i);
        }
        crate::bits::lemma_count_below_full(v, 13, 16);
        assert forall|r: nat, q: nat| r < q < 13 && #[trigger] bit(ranks, r) && #[trigger] bit(x, q + o) implies bit(ranks, q) by {
            lemma_suit_ranks_bit(x, s, q);
            lemma_top_bits_max(v, 13, 5, r, q);
        }
        assert(flush_of_suit(x, used, ranks, s));
    }
}

/// Every hand that the reference engine finds among five cards or fewer can be written out.
pub proof fn lemma_best5_displayable(x: u64)
    requires
        count_below(x, 52) <= 5,
    ensures
        displayable(ref_best5(x).1),
{
    reveal(ref_best5);
    let f = full_cards();
    if best_straightflush_of(x) is Some {
    } else if best_group_of(x, 4) is Some {
        let (used, r) = best_group_of(x, 4).unwrap();
        lemma_kickers_fit(rest_ranks(x, used) as u64, 1);
    } else if best_fullhouse_of(x) is Some {
    } else if best_flush_of(x) is Some {
    } else if best_straight_of(x) is Some {
    } else if best_group_of(x, 3) is Some {
        let (used, r) = best_group_of(x, 3).unwrap();
        lemma_kickers_fit(rest_ranks(x, used) as u64, 2);
    } else if best_twopair_of(x) is Some {
        lemma_pair_column(x);
        let (u1, p1) = best_group_of(x, 2).unwrap();
        lemma_group(x, 2);
        let x2 = x & (f ^ u1);
        let (u2, p2) = best_group_of(x2, 2).unwrap();
        lemma_group(x2, 2);
        lemma_top_with(x, 13, 4);
        lemma_rank_count_remove(x, u1, p1);
        assert(p1 != p2);
        lemma_u16_single(p1 as u16);
        lemma_u16_single(p2 as u16);
        lemma_u16_ops(single(p1) as u16, single(p2) as u16);
        lemma_or_laws(single(p1), single(p2), 0);
        if p2 < p1 {
            lemma_two_ranks(p1, p2);
        } else {
            lemma_two_ranks(p2, p1);
        }
        let (used, _) = best_twopair_of(x).unwrap();
        lemma_kickers_fit(rest_ranks(x, used) as u64, 1);
    } else if best_group_of(x, 2) is Some {
        let (used, r) = best_group_of(x, 2).unwrap();
        lemma_kickers_fit(rest_ranks(x, used) as u64, 3);
    } else {
        lemma_kickers_fit(all_ranks(x) as u64, 5);
    }
}

/// The best hand of the card bits `x` and the cards used to make it, checking in turn a straight
/// flush, four of a kind, a full house, a flush, a straight, three of a kind, two pairs, one pair,
/// and otherwise the cards of the five highest ranks.
#[verifier::opaque]
pub open spec fn ref_best5(x: u64) -> (u64, Hand) {
    if let Some((used, r)) = best_straightflush_of(x) {
        (used, Hand::StraightFlush { top: Rank::from_nat(r) })
    } else if let Some((used, r)) = best_group_of(x, 4) {
        (
            used,
            Hand::FourOfAKind {
                quad: Rank::from_nat(r),
                kickers: RankMask(top_bits(rest_ranks(x, used) as u64, 13, 1) as u16),
            },
        )
    } else if let Some((used, (t, p))) = best_fullhouse_of(x) {
        (used, Hand::FullHouse { trip: Rank::from_nat(t), pair: Rank::from_nat(p) })
    } else if let Some((used, ranks)) = best_flush_of(x) {
        (used, Hand::Flush { ranks: RankMask(ranks) })
    } else if let Some((used, r)) = best_straight_of(x) {
        (used, Hand::Straight { top: Rank::from_nat(r) })
    } else if let Some((used, r)) = best_group_of(x, 3) {
        (
            used,
            Hand::ThreeOfAKind {
                trip: Rank::from_nat(r),
                kickers: RankMask(top_bits(rest_ranks(x, used) as u64, 13, 2) as u16),
            },
        )
    } else if let Some((used, (p1, p2))) = best_twopair_of(x) {
        (
            used,
            Hand::TwoPair {
                pairs: RankMask((crate::bits::single(p1) as u16) | (crate::bits::single(p2) as u16)),
                kickers: RankMask(top_bits(rest_ranks(x, used) as u64, 13, 1) as u16),
            },
        )
    } else if let Some((used, r)) = best_group_of(x, 2) {
        (
            used,
            Hand::OnePair {
                pair: Rank::from_nat(r),
                kickers: RankMask(top_bits(rest_ranks(x, used) as u64, 13, 3) as u16),
            },
        )
    } else {
        let kickers = top_bits(all_ranks(x) as u64, 13, 5) as u16;
        (x & mask_columns(kickers, 13), Hand::HighCard { kickers: RankMask(kickers) })
    }
}

/// Position `j` of the run-of-five convolution of `b` is set exactly when positions `j` to
/// `j + 4` of `b` all are.
proof fn lemma_conv5_bit(b: u64, j: u64)
    requires
        j < 59,
    ensures
        ((b & (b >> 1u64) & (b >> 2u64) & (b >> 3u64) & (b >> 4u64)) >> j) & 1u64 == 1u64 <==> (
        bit(b, j as nat) && bit(b, (j + 1) as nat) && bit(b, (j + 2) as nat) && bit(b, (j + 3) as nat)
            && bit(b, (j + 4) as nat)),
{
    let j1 = (j + 1) as u64;
    let j2 = (j + 2) as u64;
    let j3 = (j + 3) as u64;
    let j4 = (j + 4) as u64;
    assert(((b & (b >> 1u64) & (b >> 2u64) & (b >> 3u64) & (b >> 4u64)) >> j) & 1u64 == 1u64 <==> (
    (b >> j) & 1u64 == 1u64 && (b >> j1) & 1u64 == 1u64 && (b >> j2) & 1u64 == 1u64 && (b >> j3)
        & 1u64 == 1u64 && (b >> j4) & 1u64 == 1u64)) by (bit_vector)
        requires
            j < 59,
            j1 == j + 1,
            j2 == j + 2,
            j3 == j + 3,
            j4 == j + 4,
    ;
}

/// Reference engine for the best hand of five cards or fewer and the cards that make it.
pub struct RefBest5 {}

impl RefBest5 {
    pub fn new() -> (r: RefBest5) {
        RefBest5 {  }
    }

    /// The best straight flush of the given cards, if any: the cards used and its top rank.
    pub fn best_straightflush(cards: CardMask) -> (r: Option<(CardMask, Rank)>)
        ensures
            r is Some <==> best_straightflush_of(cards.0) is Some,
            r matches Some((u, k)) ==> best_straightflush_of(cards.0) == Some(
                (u.0, k.spec_index()),
            ),
    {
        let mut best: Option<(CardMask, Rank)> = None;
        let mut s: u8 = 0;
        while s < 4
            invariant
                s <= 4,
                best is Some <==> best_straightflush_below(cards.0, s as nat) is Some,
                best matches Some((u, k)) ==> best_straightflush_below(cards.0, s as nat) == Some(
                    (u.0, k.spec_index()),
                ),
            decreases 4 - s,
        {
            let suit = Suit::from_index(s);
            let found = Self::best_straight(cards.intersect(CardMask::from_suit(suit)));
            if let Some((u, k)) = found {
                match best {
                    Some((_, bk)) => {
                        if k.index() >= bk.index() {
                            best = Some((u, k));
                        }
                    },
                    None => {
                        best = Some((u, k));
                    },
                }
            }
            s = s + 1;
        }
        best
    }

    /// The best four of a kind of the given cards, if any: its four cards and its rank.
    pub fn best_fourofakind(cards: CardMask) -> (r: Option<(CardMask, Rank)>)
        ensures
            r is Some <==> best_group_of(cards.0, 4) is Some,
            r matches Some((u, k)) ==> best_group_of(cards.0, 4) == Some((u.0, k.spec_index())),
    {
        match Self::best_rank_with(cards, 4) {
            Some(rank) => Some((cards.intersect(CardMask::from_rank(rank)).top4(), rank)),
            None => None,
        }
    }

    /// The best full house of the given cards, if any: the best three of a kind, and then the
    /// best pair among the other cards.
    pub fn best_fullhouse(cards: CardMask) -> (r: Option<(CardMask, (Rank, Rank))>)
        ensures
            r is Some <==> best_fullhouse_of(cards.0) is Some,
            r matches Some((u, (t, p))) ==> best_fullhouse_of(cards.0) == Some(
                (u.0, (t.spec_index(), p.spec_index())),
            ),
    {
        match Self::best_threeofakind(cards) {
            Some((used1, triple)) => {
                let rest = cards.intersect(used1.inverse());
                match Self::best_pair(rest) {
                    Some((used2, pair)) => Some((used1.union(used2), (triple, pair))),
                    None => None,
                }
            },
            None => None,
        }
    }

    /// The best flush of the given cards, if any: the five highest cards of the suit whose top
    /// five ranks are greatest, and those ranks.
    pub fn best_flush(cards: CardMask) -> (r: Option<(CardMask, RankMask)>)
        ensures
            r is Some <==> best_flush_of(cards.0) is Some,
            r matches Some((u, k)) ==> best_flush_of(cards.0) == Some((u.0, k.0)),
    {
        let mut best: Option<(Suit, RankMask)> = None;
        let each = cards.each_suit();
        let mut s: usize = 0;
        while s < 4
            invariant
                s <= 4,
                each.len() == 4,
                forall|i: int| 0 <= i < 4 ==> (#[trigger] each[i]).0 == Suit::from_nat(i as nat)
                    && each[i].1.0 == suit_ranks(cards.0, i as nat),
                best is Some <==> best_flush_below(cards.0, s as nat) is Some,
                best matches Some((bs, bk)) ==> best_flush_below(cards.0, s as nat) == Some(
                    (bs.spec_index(), bk.0),
                ),
            decreases 4 - s,
        {
            let (suit, ranks) = each[s];
            proof {
                Suit::lemma_from_nat_roundtrip(s as nat);
            }
            if ranks.count() >= 5 {
                let top = ranks.top5();
                match best {
                    Some((_, bk)) => {
                        if top.0 >= bk.0 {
                            best = Some((suit, top));
                        }
                    },
                    None => {
                        best = Some((suit, top));
                    },
                }
            }
            s = s + 1;
        }
        match best {
            Some((suit, ranks)) => {
                let used = cards.intersect(CardMask::from_suit(suit)).top5();
                Some((used, ranks))
            },
            None => None,
        }
    }

    /// The best straight of the given cards, if any: the highest card of each of its ranks, and
    /// its top rank; the straight from the ace to the five counts as the lowest.
    pub fn best_straight(cards: CardMask) -> (r: Option<(CardMask, Rank)>)
        ensures
            r is Some <==> best_straight_of(cards.0) is Some,
            r matches Some((u, k)) ==> best_straight_of(cards.0) == Some((u.0, k.spec_index())),
    {
        // straights only depend on the ranks
        let ranks = cards.unsuited();
        let bits = ranks.to_bits() as u64;
        // bit `j` of the convolution is set when ranks `j` to `j + 4` all are
        let bits_conv5 = bits & (bits >> 1) & (bits >> 2) & (bits >> 3) & (bits >> 4);
        let ghost r = all_ranks(cards.0) as u64;
        assert(bits == r);
        // the highest set position of the convolution gives the top of the best straight
        let mut j: u64 = 9;
        while j > 0
            invariant
                j <= 9,
                bits == r,
                r == all_ranks(cards.0) as u64,
                bits_conv5 == bits & (bits >> 1) & (bits >> 2) & (bits >> 3) & (bits >> 4),
                straight_top_below(r, 12) == straight_top_below(r, (j + 3) as nat),
            decreases j,
        {
            let i = j - 1;
            proof {
                lemma_conv5_bit(bits, i);
            }
            if (bits_conv5 >> i) & 1 == 1 {
                let top = i + 4;
                proof {
                    assert(straight_at(r, top as nat));
                }
                let mut used = CardMask::none();
                let mut d: u64 = 0;
                while d < 5
                    invariant
                        d <= 5,
                        top == i + 4,
                        4 <= top <= 12,
                        used.0 == Self::partial_straight(cards.0, top as nat, d as nat),
                    decreases 5 - d,
                {
                    let rank = Rank::from_index((top - d) as u8);
                    used = used.union(cards.intersect(CardMask::from_rank(rank)).top1());
                    d = d + 1;
                }
                proof {
                    reveal_with_fuel(RefBest5::partial_straight, 6);
                    assert(used.0 == straight_cards(cards.0, top as nat));
                    assert(straight_top_below(r, top as nat) == Some(top as nat));
                }
                return Some((used, Rank::from_index(top as u8)));
            }
            proof {
                assert(!straight_at(r, (i + 4) as nat));
            }
            j = i;
        }
        // the straight from the ace to the five, checked last as the lowest
        let wheel = RankMask::from_bits(0x100f);
        if wheel.intersect(ranks) == wheel {
            proof {
                assert(straight_at(r, 3)) by {
                    crate::bits::lemma_test_bit(r, 0);
                    crate::bits::lemma_test_bit(r, 1);
                    crate::bits::lemma_test_bit(r, 2);
                    crate::bits::lemma_test_bit(r, 3);
                    crate::bits::lemma_test_bit(r, 12);
                    lemma_wheel_bits(ranks.0);
                }
            }
            let mut used = CardMask::none();
            used = used.union(cards.intersect(CardMask::from_rank(Rank::Five)).top1());
            used = used.union(cards.intersect(CardMask::from_rank(Rank::Four)).top1());
            used = used.union(cards.intersect(CardMask::from_rank(Rank::Three)).top1());
            used = used.union(cards.intersect(CardMask::from_rank(Rank::Two)).top1());
            used = used.union(cards.intersect(CardMask::from_rank(Rank::Ace)).top1());
            return Some((used, Rank::Five));
        }
        proof {
            assert(!straight_at(r, 3)) by {
                lemma_wheel_bits(ranks.0);
            }
            assert(straight_top_below(r, 2) is None);
        }
        None
    }

    /// The cards used for the first `d` ranks of the straight down from `top`.
    spec fn partial_straight(x: u64, top: nat, d: nat) -> u64
        decreases d,
    {
        if d == 0 {
            0
        } else {
            Self::partial_straight(x, top, (d - 1) as nat) | rank_top_card(
                x,
                (top - (d - 1)) as nat,
            )
        }
    }

    /// The best three of a kind of the given cards, if any: its three highest cards and its rank.
    pub fn best_threeofakind(cards: CardMask) -> (r: Option<(CardMask, Rank)>)
        ensures
            r is Some <==> best_group_of(cards.0, 3) is Some,
            r matches Some((u, k)) ==> best_group_of(cards.0, 3) == Some((u.0, k.spec_index())),
    {
        match Self::best_rank_with(cards, 3) {
            Some(rank) => Some((cards.intersect(CardMask::from_rank(rank)).top3(), rank)),
            None => None,
        }
    }

    /// The best two pairs of the given cards, if any: the best pair, and then the best pair among
    /// the cards of the other ranks.
    pub fn best_twopair(cards: CardMask) -> (r: Option<(CardMask, (Rank, Rank))>)
        ensures
            r is Some <==> best_twopair_of(cards.0) is Some,
            r matches Some((u, (a, b))) ==> best_twopair_of(cards.0) == Some(
                (u.0, (a.spec_index(), b.spec_index())),
            ),
    {
        match Self::best_pair(cards) {
            Some((cards1, pair1)) => {
                let rest1 = cards.intersect(CardMask::from_rank(pair1).inverse());
                match Self::best_pair(rest1) {
                    Some((cards2, pair2)) => Some((cards1.union(cards2), (pair1, pair2))),
                    None => None,
                }
            },
            None => None,
        }
    }

    /// The best pair of the given cards, if any: its two highest cards and its rank.
    pub fn best_pair(cards: CardMask) -> (r: Option<(CardMask, Rank)>)
        ensures
            r is Some <==> best_group_of(cards.0, 2) is Some,
            r matches Some((u, k)) ==> best_group_of(cards.0, 2) == Some((u.0, k.spec_index())),
    {
        match Self::best_rank_with(cards, 2) {
            Some(rank) => Some((cards.intersect(CardMask::from_rank(rank)).top2(), rank)),
            None => None,
        }
    }

    /// The `N` highest cards (one when `N` is 0).
    pub fn best_high<const N: usize>(cards: CardMask) -> (r: CardMask)
        ensures
            r.0 == top_bits(cards.0, 52, if N == 0 { 1nat } else { N as nat }),
    {
        cards.topn::<N>()
    }

    /// The cards of every suit of the ranks of `ranks`.
    fn columns_of(ranks: RankMask) -> (r: CardMask)
        ensures
            r.0 == mask_columns(ranks.0, 13),
    {
        let m = ranks.0 as u64;
        let mut out = CardMask(0);
        let mut i: u8 = 0;
        while i < 13
            invariant
                i <= 13,
                m == ranks.0 as u64,
                out.0 == mask_columns(ranks.0, i as nat),
            decreases 13 - i,
        {
            if (m >> (i as u64)) & 1 == 1 {
                out = out.union(CardMask::from_rank(Rank::from_index(i)));
            } else {
                proof {
                    assert(out.0 | 0 == out.0) by (bit_vector);
                }
            }
            i = i + 1;
        }
        out
    }

    /// The highest rank held at least `k` times.
    fn best_rank_with(cards: CardMask, k: usize) -> (r: Option<Rank>)
        ensures
            r is Some <==> top_with_at_least(cards.0, 13, k as nat) is Some,
            r matches Some(rank) ==> top_with_at_least(cards.0, 13, k as nat) == Some(
                rank.spec_index(),
            ),
    {
        let mut i: u8 = 13;
        while i > 0
            invariant
                i <= 13,
                top_with_at_least(cards.0, 13, k as nat) == top_with_at_least(
                    cards.0,
                    i as nat,
                    k as nat,
                ),
            decreases i,
        {
            let rank = Rank::from_index(i - 1);
            if cards.of_rank_count(rank) >= k {
                return Some(rank);
            }
            i = i - 1;
        }
        None
    }
}

/// The ace-to-five mask is within the ranks exactly when each of its five positions is set.
proof fn lemma_wheel_bits(m: u16)
    ensures
        (0x100fu16 & m == 0x100fu16) <==> ((m >> 0u16) & 1 == 1 && (m >> 1u16) & 1 == 1 && (m
            >> 2u16) & 1 == 1 && (m >> 3u16) & 1 == 1 && (m >> 12u16) & 1 == 1),
{
    assert((0x100fu16 & m == 0x100fu16) <==> ((m >> 0u16) & 1 == 1 && (m >> 1u16) & 1 == 1 && (m
        >> 2u16) & 1 == 1 && (m >> 3u16) & 1 == 1 && (m >> 12u16) & 1 == 1)) by (bit_vector);
}

impl Best5 for RefBest5 {
    fn best5(&self, cards: CardMask) -> (r: (CardMask, Hand))
        ensures
            (r.0.0, r.1) == ref_best5(cards.0),
    {
        reveal(ref_best5);
        if let Some((used, rank)) = Self::best_straightflush(cards) {
            (used, Hand::StraightFlush { top: rank })
        } else if let Some((used, rank)) = Self::best_fourofakind(cards) {
            let rest = cards.intersect(used.inverse());
            let kicker = rest.unsuited().top1();
            (used, Hand::FourOfAKind { quad: rank, kickers: kicker })
        } else if let Some((used, rank)) = Self::best_fullhouse(cards) {
            (used, Hand::FullHouse { trip: rank.0, pair: rank.1 })
        } else if let Some((used, rank)) = Self::best_flush(cards) {
            (used, Hand::Flush { ranks: rank })
        } else if let Some((used, rank)) = Self::best_straight(cards) {
            (used, Hand::Straight { top: rank })
        } else if let Some((used, rank)) = Self::best_threeofakind(cards) {
            let rest = cards.intersect(used.inverse());
            (used, Hand::ThreeOfAKind { trip: rank, kickers: rest.unsuited().top2() })
        } else if let Some((used, ranks)) = Self::best_twopair(cards) {
            let rest = cards.intersect(used.inverse());
            let pairs = RankMask::from_single(ranks.0).union(RankMask::from_single(ranks.1));
            (used, Hand::TwoPair { pairs, kickers: rest.unsuited().top1() })
        } else if let Some((used, rank)) = Self::best_pair(cards) {
            let rest = cards.intersect(used.inverse());
            (used, Hand::OnePair { pair: rank, kickers: rest.unsuited().top3() })
        } else {
            let kickers = cards.unsuited().top5();
            let used = cards.intersect(Self::columns_of(kickers));
            (used, Hand::HighCard { kickers })
        }
    }
}

} // verus!

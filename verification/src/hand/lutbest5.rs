//! A lookup table of the best hand of exactly five cards. Every bag of five ranks is keyed by its
//! index among the bags of five out of thirteen ranks, and each table gives the order of the hand
//! of its key: one table for five cards of one suit, one for all others.

use vstd::prelude::*;
use vstd::set_lib::{lemma_int_range, lemma_len_subset, set_int_range};
use indexmap::IndexMap;
use itertools::Itertools;
use crate::bits::{bit, count_below, popcount, single, lemma_bit_ops, lemma_bit_single, lemma_bits_ext};
use crate::combrs::{binom_fits, comb, lemma_comb_monotone};
use crate::combrs::bagspace::{BagSpace, bag_code, lemma_bag_code_below, lemma_bag_roundtrip, sorted_bag, lemma_bag_code_bounds, lemma_bag_code_injective, bag_decode, bag_decode_fits, greedy_top, lemma_bag_decode_range, lemma_greedy_top};
use crate::deck::{Card, CardMask, Rank, Suit, rank_char, rank_count};
use crate::hand::Hand;
use crate::hand::keys::{sorted_keys, strictly_increasing};
use crate::hand::lutrank::{HandMap, entry_of, lex_less, lemma_small_bag_fits, map_grows, record, sorted_bags, strength_key};
use crate::hand::refbest5::{RefBest5, in_suit, lemma_best5_displayable, lemma_best5_in_suit, lemma_best5_same_ranks, lemma_held_count, lemma_in_suit_facts, lemma_same_all_ranks, lemma_suit_column_bit, lemma_suit_count, no_flush, ref_best5, same_ranks, suit_column};
use crate::deck::{lemma_count_remove, lemma_full_bits, suit_ranks};
use crate::hand::lutrank::held;
use crate::hand::{Best5, Rank5, displayable, hand_code, hand_text};
use crate::text::{dec_text, decimal, pad_left, pad_right, push_pad_left, push_pad_right};
use std::collections::BTreeMap;

verus! {

/// The maps of keys to orders, from the indexmap crate, which keep their entries in the order
/// the keys were first inserted.
#[verifier::external_type_specification]
#[verifier::external_body]
#[verifier::reject_recursive_types(K)]
#[verifier::reject_recursive_types(V)]
#[verifier::reject_recursive_types(S)]
pub struct ExIndexMap<K, V, S>(IndexMap<K, V, S>);

/// The entries of a map of keys to orders, in the map's order.
pub uninterp spec fn index_entries(m: IndexMap<u64, u16>) -> Seq<(u64, u16)>;

/// No two entries share a key.
pub open spec fn distinct_keys(e: Seq<(u64, u16)>) -> bool {
    forall|a: int, b: int| 0 <= a < b < e.len() ==> e[a].0 != e[b].0
}

/// Whether some entry has the key `k`.
pub open spec fn has_key(e: Seq<(u64, u16)>, k: u64) -> bool {
    exists|q: int| 0 <= q < e.len() && e[q].0 == k
}

/// Calls `IndexMap::new`, which makes an empty map.
#[verifier::external_body]
fn index_map_new() -> (r: IndexMap<u64, u16>)
    ensures
        index_entries(r) == Seq::<(u64, u16)>::empty(),
{
    IndexMap::new()
}

/// Calls `IndexMap::insert`. As its documentation and source show, a key already present keeps
/// its place and takes the new value, and a new key goes last with its value.
#[verifier::external_body]
fn index_map_insert(m: &mut IndexMap<u64, u16>, key: u64, value: u16)
    requires
        distinct_keys(index_entries(*old(m))),
    ensures
        forall|q: int|
            0 <= q < index_entries(*old(m)).len() && index_entries(*old(m))[q].0 == key
                ==> index_entries(*final(m)) == index_entries(*old(m)).update(q, (key, value)),
        (forall|q: int| 0 <= q < index_entries(*old(m)).len() ==> index_entries(*old(m))[q].0 != key)
            ==> index_entries(*final(m)) == index_entries(*old(m)).push((key, value)),
{
    m.insert(key, value);
}

/// Calls `IndexMap::len`: the number of entries.
#[verifier::external_body]
fn index_map_len(m: &IndexMap<u64, u16>) -> (r: usize)
    ensures
        r == index_entries(*m).len(),
{
    m.len()
}

/// Calls `IndexMap::get_index`: the entry at position `i`, if there is one.
#[verifier::external_body]
fn index_map_get_index(m: &IndexMap<u64, u16>, i: usize) -> (r: Option<(u64, u16)>)
    ensures
        i < index_entries(*m).len() ==> r == Some(index_entries(*m)[i as int]),
        i >= index_entries(*m).len() ==> r is None,
{
    m.get_index(i).map(|(k, v)| (*k, *v))
}

/// The ranks of the cards `x` below rank `r`, lowest first, one per card.
pub open spec fn card_ranks(x: u64, r: nat) -> Seq<usize>
    decreases r,
{
    if r == 0 {
        Seq::empty()
    } else {
        card_ranks(x, (r - 1) as nat) + Seq::new(rank_count(x, (r - 1) as nat), |i: int| (r - 1) as usize)
    }
}

/// The five symbols written for the ranks `l`: all of them where there are five; with fewer,
/// zeros fill the end, and with more, the fifth is the last of them.
pub open spec fn five_of(l: Seq<usize>) -> Seq<usize> {
    if l.len() >= 5 {
        l.take(4).push(l.last())
    } else {
        l + Seq::new((5 - l.len()) as nat, |i: int| 0usize)
    }
}

/// The five symbols keying the cards `x`: their ranks, lowest first.
pub open spec fn key_ranks(x: u64) -> Seq<usize> {
    five_of(card_ranks(x, 13))
}

/// The ranks that a key decodes to, lowest first.
pub open spec fn key_items(idx: nat) -> Seq<usize> {
    bag_decode(17, 5, idx, Seq::new(5, |i: int| 0usize))
}

/// The number of bags of five ranks, which bounds the keys.
pub open spec fn key_count() -> nat {
    comb(17, 5)
}

/// Every coefficient met decoding a bag of five out of thirteen fits in a `usize`.
proof fn lemma_key_space_fits()
    ensures
        bag_decode_fits(13, 5),
{
    vstd::arithmetic::power2::lemma2_to64();
    assert forall|a: nat, i: nat| a + 1 <= 13 + 5 && 1 <= i <= 5 implies #[trigger] binom_fits(a, i) by {
        assert forall|j: nat| j < i && j <= a implies #[trigger] comb(a, j) * (a - j) <= usize::MAX by {
            crate::combrs::lemma_comb_pow2(a, j);
            vstd::arithmetic::power2::lemma_pow2_strictly_increases(a, 20);
            let c = comb(a, j);
            assert(c * (a - j) <= 0x10_0000 * 20) by (nonlinear_arith)
                requires
                    c <= 0x10_0000,
                    a - j <= 20,
                    a >= j,
            ;
        }
    }
}

/// A key below the number of bags decodes to five ranks, each a rank of the deck.
proof fn lemma_key_items_ranks(idx: nat)
    requires
        idx < key_count(),
    ensures
        key_items(idx).len() == 5,
        forall|j: int| 0 <= j < 5 ==> #[trigger] key_items(idx)[j] < 13,
{
    let items = Seq::new(5, |i: int| 0usize);
    let t = greedy_top(17, 5, idx);
    assert(t == greedy_top(16, 5, idx));
    lemma_greedy_top(16, 5, idx);
    let items2 = items.update(4, (t - 4) as usize);
    lemma_bag_decode_range((t - 1) as nat, 4, (idx - comb(t, 5)) as nat, items2);
}

/// The keys fit in 32 bits.
proof fn lemma_key_count_small()
    ensures
        key_count() <= 0x2_0000,
{
    vstd::arithmetic::power2::lemma2_to64();
    crate::combrs::lemma_comb_pow2(17, 5);
}

/// The key of a lookup: a bag of five ranks, as its index among the bags of five out of
/// thirteen ranks.
#[derive(Debug, Clone, Copy, PartialEq, Eq, Structural, Hash)]
pub struct KeyLutCard5 {
    /// The index of the bag.
    data: u64,
}

impl View for KeyLutCard5 {
    type V = u64;

    closed spec fn view(&self) -> u64 {
        self.data
    }
}

impl KeyLutCard5 {
    /// The key with the given index.
    pub fn from_index(index: usize) -> (r: KeyLutCard5)
        ensures
            r@ == index as u64,
    {
        KeyLutCard5 { data: index as u64 }
    }

    /// The key of exactly five cards: the index of the bag of their ranks.
    pub fn from_cards(cards: CardMask) -> (r: KeyLutCard5)
        requires
            popcount(cards.0) == 5,
        ensures
            r@ == bag_code(key_ranks(cards.0)),
            r@ < key_count(),
    {
        let ghost x = cards.0;
        let mut seq: Vec<usize> = vec![0, 0, 0, 0, 0];
        let mut pos: usize = 0;
        let mut rankidx: usize = 0;
        proof {
            assert(seq@ =~= five_of(card_ranks(x, 0)));
        }
        while rankidx < 13
            invariant
                rankidx <= 13,
                x == cards.0,
                seq@.len() == 5,
                forall|p: int| 0 <= p < 5 ==> (#[trigger] seq@[p]) < 13,
                seq@ == five_of(card_ranks(x, rankidx as nat)),
                pos == if card_ranks(x, rankidx as nat).len() < 4 { card_ranks(x, rankidx as nat).len() } else { 4 },
            decreases 13 - rankidx,
        {
            let c = cards.of_rank_count(Rank::from_index(rankidx as u8));
            let ghost l0 = card_ranks(x, rankidx as nat);
            let mut d: usize = 0;
            proof {
                assert(l0 + Seq::new(0, |i: int| rankidx) =~= l0);
            }
            while d < c
                invariant_except_break
                    d <= c,
                    seq@ == five_of(l0 + Seq::new(d as nat, |i: int| rankidx)),
                    pos == if l0.len() + d < 4 { l0.len() + d } else { 4 },
                invariant
                    rankidx < 13,
                    c == rank_count(x, rankidx as nat),
                    seq@.len() == 5,
                    forall|p: int| 0 <= p < 5 ==> (#[trigger] seq@[p]) < 13,
                ensures
                    seq@ == five_of(l0 + Seq::new(c as nat, |i: int| rankidx)),
                    pos == if l0.len() + c < 4 { l0.len() + c } else { 4 },
                decreases c - d,
            {
                let ghost l = l0 + Seq::new(d as nat, |i: int| rankidx);
                let ghost l1 = l0 + Seq::new((d + 1) as nat, |i: int| rankidx);
                let ghost lc = l0 + Seq::new(c as nat, |i: int| rankidx);
                assert(l1 =~= l.push(rankidx));
                seq.set(pos, rankidx);
                if pos == 4 {
                    proof {
                        assert(l1.len() >= 5);
                        assert(l1.take(4) =~= l.take(4));
                        assert(lc.take(4) =~= l.take(4));
                        assert(seq@ =~= five_of(l1));
                        assert(seq@ =~= five_of(lc));
                    }
                    break;
                }
                pos = pos + 1;
                d = d + 1;
                proof {
                    assert(seq@ =~= five_of(l1));
                }
            }
            proof {
                assert(card_ranks(x, (rankidx + 1) as nat) =~= l0 + Seq::new(c as nat, |i: int| rankidx));
            }
            rankidx = rankidx + 1;
        }
        proof {
            lemma_small_bag_fits(seq@);
            lemma_bag_code_below(seq@, 12);
        }
        let index = BagSpace::new(Rank::NUM, 5).enc(seq.as_slice());
        Self::from_index(index)
    }

    /// The ranks of the key, lowest first.
    pub fn to_rank_vec(&self) -> (r: Vec<Rank>)
        requires
            self@ < key_count(),
        ensures
            r@.len() == 5,
            forall|i: int| 0 <= i < 5 ==> (#[trigger] r@[i]).spec_index() == key_items(self@ as nat)[i],
    {
        let items = self.decode();
        let mut out: Vec<Rank> = Vec::new();
        let mut i: usize = 0;
        while i < 5
            invariant
                i <= 5,
                items@ == key_items(self@ as nat),
                items@.len() == 5,
                forall|j: int| 0 <= j < 5 ==> #[trigger] items@[j] < 13,
                out@.len() == i,
                forall|j: int| 0 <= j < i ==> (#[trigger] out@[j]).spec_index() == items@[j],
            decreases 5 - i,
        {
            out.push(Rank::from_index(items[i] as u8));
            i = i + 1;
        }
        out
    }

    /// The text of the ranks of the key, highest first.
    pub fn to_rank_str(&self) -> (r: String)
        requires
            self@ < key_count(),
        ensures
            r@ == Seq::new(5, |i: int| rank_char(key_items(self@ as nat)[4 - i] as nat)),
    {
        let items = self.decode();
        let mut s = String::new();
        let mut i: usize = 5;
        while i > 0
            invariant
                i <= 5,
                items@ == key_items(self@ as nat),
                items@.len() == 5,
                forall|j: int| 0 <= j < 5 ==> #[trigger] items@[j] < 13,
                s@ == Seq::new((5 - i) as nat, |k: int| rank_char(items@[4 - k] as nat)),
            decreases i,
        {
            let rank = Rank::from_index(items[i - 1] as u8);
            let t = rank.to_string();
            s.append(t.as_str());
            proof {
                assert(s@ =~= Seq::new((5 - (i - 1)) as nat, |k: int| rank_char(items@[4 - k] as nat)));
            }
            i = i - 1;
        }
        s
    }

    /// The ranks of the key, decoded in a space of bags of five out of thirteen.
    fn decode(&self) -> (r: Vec<usize>)
        requires
            self@ < key_count(),
        ensures
            r@ == key_items(self@ as nat),
            r@.len() == 5,
            forall|j: int| 0 <= j < 5 ==> #[trigger] r@[j] < 13,
    {
        let mut items: Vec<usize> = vec![0, 0, 0, 0, 0];
        proof {
            lemma_key_space_fits();
            lemma_key_items_ranks(self@ as nat);
            lemma_key_count_small();
            assert(items@ =~= Seq::new(5, |i: int| 0usize));
        }
        BagSpace::new(Rank::NUM, 5).dec(self.data as usize, &mut items);
        items
    }
}


/// There are 6188 bags of five ranks.
proof fn lemma_key_count_value()
    ensures
        key_count() == 6188,
{
    assert(comb(17, 0) == 1);
    crate::combrs::lemma_comb_step(17, 0);
    let c1 = comb(17, 1);
    assert(c1 == 17) by (nonlinear_arith)
        requires
            comb(17, 0) * (17 - 0) == c1 * (0 + 1),
            comb(17, 0) == 1,
    ;
    crate::combrs::lemma_comb_step(17, 1);
    let c2 = comb(17, 2);
    assert(c2 == 136) by (nonlinear_arith)
        requires
            c1 * (17 - 1) == c2 * (1 + 1),
            c1 == 17,
    ;
    crate::combrs::lemma_comb_step(17, 2);
    let c3 = comb(17, 3);
    assert(c3 == 680) by (nonlinear_arith)
        requires
            c2 * (17 - 2) == c3 * (2 + 1),
            c2 == 136,
    ;
    crate::combrs::lemma_comb_step(17, 3);
    let c4 = comb(17, 4);
    assert(c4 == 2380) by (nonlinear_arith)
        requires
            c3 * (17 - 3) == c4 * (3 + 1),
            c3 == 680,
    ;
    crate::combrs::lemma_comb_step(17, 4);
    let c5 = comb(17, 5);
    assert(c5 == 6188) by (nonlinear_arith)
        requires
            c4 * (17 - 4) == c5 * (4 + 1),
            c4 == 2380,
    ;
}


/// Whether `m` is a bag of five ranks that a deck can deal: sorted, below 13, not all alike.
pub open spec fn valid5(m: Seq<usize>) -> bool {
    &&& m.len() == 5
    &&& sorted_bag(m, 13)
    &&& m[0] != m[4]
}

/// Whether the first `i` ranks of `m` are all different.
pub open spec fn distinct_upto(m: Seq<usize>, i: nat) -> bool {
    forall|a: int, b: int| 0 <= a < b < i ==> m[a] != m[b]
}

/// The suit tried at step `j` when spreading cards over the suits, in turn: hearts, diamonds,
/// clubs, spades.
pub open spec fn cycle_suit(j: nat) -> nat {
    if j % 4 == 0 {
        1
    } else if j % 4 == 1 {
        3
    } else if j % 4 == 2 {
        2
    } else {
        0
    }
}

/// The position of the card of rank `r` and suit `s`.
pub open spec fn card_at(r: nat, s: nat) -> nat {
    r + 13 * s
}

/// The first try from `t` on whose suit, for the card of rank `r` placed at position `j`, the
/// cards `x` do not hold yet; 4 when they hold all of them.
pub open spec fn free_try(x: u64, r: nat, j: nat, t: nat) -> nat
    decreases 4 - t,
{
    if t >= 4 {
        4
    } else if !bit(x, card_at(r, cycle_suit(j + t))) {
        t
    } else {
        free_try(x, r, j, t + 1)
    }
}

/// The cards `x` with a card of rank `r` placed at position `j`: of the first suit, trying in
/// turn from `j`, that they do not hold yet.
pub open spec fn place_spread(x: u64, r: nat, j: nat) -> u64 {
    let t = free_try(x, r, j, 0);
    if t < 4 {
        x | single(card_at(r, cycle_suit(j + t)))
    } else {
        x
    }
}

/// The cards for the first `i` ranks of `m`, spread over the suits.
pub open spec fn spread_cards(m: Seq<usize>, i: nat) -> u64
    decreases i,
{
    if i == 0 {
        0
    } else {
        place_spread(spread_cards(m, (i - 1) as nat), m[i - 1] as nat, (i - 1) as nat)
    }
}

/// The cards for the first `i` ranks of `m`, all hearts.
pub open spec fn hearts_cards(m: Seq<usize>, i: nat) -> u64
    decreases i,
{
    if i == 0 {
        0
    } else {
        hearts_cards(m, (i - 1) as nat) | single(card_at(m[i - 1] as nat, 1))
    }
}

/// The hand of the ranks `m` spread over the suits, as the reference engine finds it.
pub open spec fn spread_hand(m: Seq<usize>) -> Hand {
    ref_best5(spread_cards(m, 5)).1
}

/// The hand of the ranks `m` all in hearts, as the reference engine finds it.
pub open spec fn hearts_hand(m: Seq<usize>) -> Hand {
    ref_best5(hearts_cards(m, 5)).1
}

/// Setting the position `c`, a card, adds one to the count of its rank when it was clear, and
/// leaves the other ranks as they were.
proof fn lemma_rank_count_or(x: u64, r: nat, s: nat, r2: nat)
    requires
        r < 13,
        s < 4,
        r2 < 13,
    ensures
        rank_count(x | single(card_at(r, s)), r2) == rank_count(x, r2) + if r2 == r && !bit(x, card_at(r, s)) { 1nat } else { 0nat },
{
    let c = card_at(r, s);
    lemma_bit_ops(x, single(c), r2);
    lemma_bit_ops(x, single(c), r2 + 13);
    lemma_bit_ops(x, single(c), r2 + 26);
    lemma_bit_ops(x, single(c), r2 + 39);
    lemma_bit_single(c, r2);
    lemma_bit_single(c, r2 + 13);
    lemma_bit_single(c, r2 + 26);
    lemma_bit_single(c, r2 + 39);
}

/// The ranks below `n` depend only on the counts of those ranks.
proof fn lemma_card_ranks_same(x: u64, y: u64, n: nat)
    requires
        forall|r: nat| r < n ==> rank_count(x, r) == rank_count(y, r),
    ensures
        card_ranks(x, n) == card_ranks(y, n),
    decreases n,
{
    if n > 0 {
        lemma_card_ranks_same(x, y, (n - 1) as nat);
        assert(rank_count(x, (n - 1) as nat) == rank_count(y, (n - 1) as nat));
    }
}

/// Ranks from `a` up to `n` that are not held add nothing.
proof fn lemma_card_ranks_top(x: u64, a: nat, n: nat)
    requires
        a <= n,
        forall|r: nat| a <= r < n ==> rank_count(x, r) == 0,
    ensures
        card_ranks(x, n) == card_ranks(x, a),
    decreases n,
{
    if n > a {
        lemma_card_ranks_top(x, a, (n - 1) as nat);
        assert(rank_count(x, (n - 1) as nat) == 0);
        assert(card_ranks(x, n) =~= card_ranks(x, (n - 1) as nat));
    }
}

/// Adding a card of a rank no lower than any held puts that rank last.
proof fn lemma_card_ranks_push(x: u64, r: nat, s: nat)
    requires
        r < 13,
        s < 4,
        !bit(x, card_at(r, s)),
        forall|r2: nat| r < r2 < 13 ==> rank_count(x, r2) == 0,
    ensures
        card_ranks(x | single(card_at(r, s)), 13) == card_ranks(x, 13).push(r as usize),
        forall|r2: nat| r < r2 < 13 ==> rank_count(x | single(card_at(r, s)), r2) == 0,
        rank_count(x | single(card_at(r, s)), r) == rank_count(x, r) + 1,
{
    let y = x | single(card_at(r, s));
    assert forall|r2: nat| r2 < 13 implies rank_count(y, r2) == rank_count(x, r2) + if r2 == r { 1nat } else { 0nat } by {
        lemma_rank_count_or(x, r, s, r2);
    }
    lemma_card_ranks_top(x, r + 1, 13);
    lemma_card_ranks_top(y, r + 1, 13);
    lemma_card_ranks_same(x, y, r);
    assert(card_ranks(y, r + 1) =~= card_ranks(x, r + 1).push(r as usize));
}

/// The search for a free suit finds `t` when the suits tried before are held and that of `t`
/// is not.
proof fn lemma_free_try_found(x: u64, r: nat, j: nat, t0: nat, t: nat)
    requires
        t0 <= t < 4,
        forall|k: nat| t0 <= k < t ==> bit(x, #[trigger] card_at(r, cycle_suit(j + k))),
        !bit(x, card_at(r, cycle_suit(j + t))),
    ensures
        free_try(x, r, j, t0) == t,
    decreases t - t0,
{
    if t0 < t {
        lemma_free_try_found(x, r, j, t0 + 1, t);
    }
}

/// The search for a free suit goes past the suits tried before, all held.
proof fn lemma_free_try_past(x: u64, r: nat, j: nat, t0: nat, t: nat)
    requires
        t0 <= t <= 4,
        forall|k: nat| t0 <= k < t ==> bit(x, #[trigger] card_at(r, cycle_suit(j + k))),
    ensures
        free_try(x, r, j, t0) >= t,
    decreases t - t0,
{
    lemma_free_try_held(x, r, j, t0);
    if t0 < t {
        assert(bit(x, card_at(r, cycle_suit(j + t0))));
        lemma_free_try_past(x, r, j, t0 + 1, t);
    }
}

/// The suits tried before the one the search finds are all held.
proof fn lemma_free_try_held(x: u64, r: nat, j: nat, t0: nat)
    requires
        t0 <= 4,
    ensures
        free_try(x, r, j, t0) >= t0,
        forall|k: nat| t0 <= k < free_try(x, r, j, t0) ==> bit(x, #[trigger] card_at(r, cycle_suit(j + k))),
        free_try(x, r, j, t0) < 4 ==> !bit(x, card_at(r, cycle_suit(j + free_try(x, r, j, t0)))),
    decreases 4 - t0,
{
    if t0 < 4 && bit(x, card_at(r, cycle_suit(j + t0))) {
        lemma_free_try_held(x, r, j, t0 + 1);
    }
}

/// Some suit is free for a rank held fewer than four times.
proof fn lemma_free_try_exists(x: u64, r: nat, j: nat)
    requires
        r < 13,
        rank_count(x, r) <= 3,
    ensures
        free_try(x, r, j, 0) < 4,
{
    lemma_free_try_held(x, r, j, 0);
    if free_try(x, r, j, 0) >= 4 {
        assert(bit(x, card_at(r, cycle_suit(j + 0))));
        assert(bit(x, card_at(r, cycle_suit(j + 1))));
        assert(bit(x, card_at(r, cycle_suit(j + 2))));
        assert(bit(x, card_at(r, cycle_suit(j + 3))));
        assert(bit(x, r) && bit(x, r + 13) && bit(x, r + 26) && bit(x, r + 39));
        assert(false);
    }
}

/// Setting a position that is already set changes nothing.
proof fn lemma_or_held(x: u64, c: nat)
    requires
        c < 64,
        bit(x, c),
    ensures
        x | single(c) == x,
{
    assert forall|i: nat| i < 64 implies bit(x | single(c), i) == bit(x, i) by {
        lemma_bit_ops(x, single(c), i);
        lemma_bit_single(c, i);
    }
    lemma_bits_ext(x | single(c), x);
}

/// A rank placed after four of its cards would make five of one rank, which a valid bag never
/// holds: every rank placed finds a free suit.
proof fn lemma_spread_room(m: Seq<usize>, idx: nat, x: u64)
    requires
        valid5(m),
        idx < 5,
        card_ranks(x, 13) == m.take(idx as int),
        idx == 0 ==> x == 0,
        idx > 0 ==> forall|r2: nat| m[idx - 1] < r2 < 13 ==> rank_count(x, r2) == 0,
    ensures
        rank_count(x, m[idx as int] as nat) <= 3,
{
    let r = m[idx as int] as nat;
    if idx == 0 {
        lemma_bit_ops(0, 0, r);
        lemma_bit_ops(0, 0, r + 13);
        lemma_bit_ops(0, 0, r + 26);
        lemma_bit_ops(0, 0, r + 39);
    } else if r == m[idx - 1] {
        lemma_card_ranks_top(x, r + 1, 13);
        let a = card_ranks(x, r);
        let c = rank_count(x, r);
        if c == 4 {
            assert(m.take(idx as int).len() == a.len() + 4);
            assert(idx == 4);
            assert(a.len() == 0);
            assert(m.take(idx as int)[0] == r);
            assert(m[0] == m[4]);
        }
    }
}

/// The cards for a bag of five ranks, all in hearts: five of them exactly when the ranks are
/// all different.
fn all_in_hearts(ranks: &Vec<usize>) -> (r: CardMask)
    requires
        valid5(ranks@),
    ensures
        r.0 == hearts_cards(ranks@, 5),
        popcount(r.0) <= 5,
        (popcount(r.0) == 5) == distinct_upto(ranks@, 5),
        distinct_upto(ranks@, 5) ==> card_ranks(r.0, 13) == ranks@,
{
    let ghost m = ranks@;
    let mut mask_allsuited = CardMask::none();
    proof {
        crate::bits::lemma_count_below_zero(64);
        assert forall|r2: nat| r2 < 13 implies rank_count(0, r2) == 0 by {
            lemma_bit_ops(0, 0, r2);
            lemma_bit_ops(0, 0, r2 + 13);
            lemma_bit_ops(0, 0, r2 + 26);
            lemma_bit_ops(0, 0, r2 + 39);
        }
        lemma_card_ranks_top(0, 0, 13);
        assert(card_ranks(0, 13) =~= m.take(0));
        assert forall|b: nat| bit(0u64, b) == (13 <= b < 26 && exists|j: int| 0 <= j < 0 && m[j] + 13 == b) by {
            lemma_bit_ops(0, 0, b);
        }
    }
    let mut idx: usize = 0;
    while idx < 5
        invariant
            idx <= 5,
            m == ranks@,
            valid5(m),
            mask_allsuited.0 == hearts_cards(m, idx as nat),
            forall|b: nat| bit(mask_allsuited.0, b) == (13 <= b < 26 && exists|j: int| 0 <= j < idx && m[j] + 13 == b),
            popcount(mask_allsuited.0) <= idx,
            (popcount(mask_allsuited.0) == idx) == distinct_upto(m, idx as nat),
            distinct_upto(m, idx as nat) ==> card_ranks(mask_allsuited.0, 13) == m.take(idx as int),
        decreases 5 - idx,
    {
        let rank = Rank::from_index(ranks[idx] as u8);
        let ghost r = m[idx as int] as nat;
        let ghost h = mask_allsuited.0;
        let ghost hc = card_at(r, 1);
        mask_allsuited = mask_allsuited.union(CardMask::from_single(Card::new(rank, Suit::Hearts)));
        proof {
            let h2 = mask_allsuited.0;
            assert(h2 == h | single(hc));
            assert forall|b: nat| bit(h2, b) == (13 <= b < 26 && exists|j: int| 0 <= j < idx + 1 && m[j] + 13 == b) by {
                lemma_bit_ops(h, single(hc), b);
                lemma_bit_single(hc, b);
                if bit(h2, b) && b == hc {
                    assert(m[idx as int] + 13 == b);
                }
            }
            if exists|j: int| 0 <= j < idx && m[j] == m[idx as int] {
                let j = choose|j: int| 0 <= j < idx && m[j] == m[idx as int];
                assert(m[j] + 13 == hc);
                assert(bit(h, hc));
                lemma_or_held(h, hc);
                assert(!distinct_upto(m, (idx + 1) as nat));
            } else {
                assert(!bit(h, hc));
                crate::bits::lemma_count_below_add(h, hc, 64);
                assert(distinct_upto(m, (idx + 1) as nat) == distinct_upto(m, idx as nat));
                if distinct_upto(m, idx as nat) {
                    assert forall|r2: nat| r < r2 < 13 implies rank_count(h, r2) == 0 by {
                        assert(!bit(h, r2));
                        assert(!bit(h, r2 + 26));
                        assert(!bit(h, r2 + 39));
                        if bit(h, r2 + 13) {
                            let j = choose|j: int| 0 <= j < idx && m[j] + 13 == r2 + 13;
                            assert(m[j] <= m[idx as int]);
                        }
                    }
                    lemma_card_ranks_push(h, r, 1);
                    assert(m.take(idx as int).push(m[idx as int]) =~= m.take(idx + 1));
                }
            }
        }
        idx = idx + 1;
    }
    proof {
        assert(m.take(5) =~= m);
    }
    mask_allsuited
}

/// The cards for a bag of five ranks spread over the suits: each card takes the first suit not
/// yet held for its rank, trying hearts, diamonds, clubs and spades in turn from its position.
fn spread_over_suits(ranks: &Vec<usize>) -> (r: CardMask)
    requires
        valid5(ranks@),
    ensures
        r.0 == spread_cards(ranks@, 5),
        popcount(r.0) == 5,
        card_ranks(r.0, 13) == ranks@,
{
    let ghost m = ranks@;
    let mut mask_nonsuited = CardMask::none();
    proof {
        crate::bits::lemma_count_below_zero(64);
        assert forall|r2: nat| r2 < 13 implies rank_count(0, r2) == 0 by {
            lemma_bit_ops(0, 0, r2);
            lemma_bit_ops(0, 0, r2 + 13);
            lemma_bit_ops(0, 0, r2 + 26);
            lemma_bit_ops(0, 0, r2 + 39);
        }
        lemma_card_ranks_top(0, 0, 13);
        assert(card_ranks(0, 13) =~= m.take(0));
    }
    let mut idx: usize = 0;
    while idx < 5
        invariant
            idx <= 5,
            m == ranks@,
            valid5(m),
            mask_nonsuited.0 == spread_cards(m, idx as nat),
            popcount(mask_nonsuited.0) == idx,
            card_ranks(mask_nonsuited.0, 13) == m.take(idx as int),
            idx == 0 ==> mask_nonsuited.0 == 0,
            idx > 0 ==> forall|r2: nat| m[idx - 1] < r2 < 13 ==> rank_count(mask_nonsuited.0, r2) == 0,
        decreases 5 - idx,
    {
        let rank = Rank::from_index(ranks[idx] as u8);
        let ghost r = m[idx as int] as nat;
        let ghost x = mask_nonsuited.0;
        proof {
            lemma_spread_room(m, idx as nat, x);
            lemma_free_try_exists(x, r, idx as nat);
            lemma_free_try_held(x, r, idx as nat, 0);
        }
        let mut tries: usize = 0;
        while mask_nonsuited.count() < idx + 1
            invariant
                idx < 5,
                tries <= 4,
                r < 13,
                rank.spec_index() == r,
                free_try(x, r, idx as nat, 0) < 4,
                popcount(x) == idx,
                popcount(mask_nonsuited.0) == idx ==> mask_nonsuited.0 == x && forall|k: nat| k < tries ==> bit(x, #[trigger] card_at(r, cycle_suit(idx as nat + k))),
                popcount(mask_nonsuited.0) != idx ==> mask_nonsuited.0 == place_spread(x, r, idx as nat) && popcount(mask_nonsuited.0) == idx + 1,
            decreases 4 - tries,
        {
            proof {
                lemma_free_try_past(x, r, idx as nat, 0, tries as nat);
            }
            let suit = match (idx + tries) % 4 {
                0 => Suit::Hearts,
                1 => Suit::Diamonds,
                2 => Suit::Clubs,
                _ => Suit::Spades,
            };
            let ghost c = card_at(r, cycle_suit((idx + tries) as nat));
            mask_nonsuited = mask_nonsuited.union(CardMask::from_single(Card::new(rank, suit)));
            proof {
                assert(suit.spec_index() == cycle_suit((idx + tries) as nat));
                if bit(x, c) {
                    lemma_or_held(x, c);
                } else {
                    lemma_free_try_found(x, r, idx as nat, 0, tries as nat);
                    crate::bits::lemma_count_below_add(x, c, 64);
                }
            }
            tries = tries + 1;
        }
        proof {
            let t = free_try(x, r, idx as nat, 0);
            let s = cycle_suit(idx as nat + t);
            assert(!bit(x, card_at(r, s)));
            if idx > 0 {
                assert(m[idx - 1] <= m[idx as int]);
            } else {
                assert forall|r2: nat| r < r2 < 13 implies rank_count(x, r2) == 0 by {
                    lemma_bit_ops(0, 0, r2);
                    lemma_bit_ops(0, 0, r2 + 13);
                    lemma_bit_ops(0, 0, r2 + 26);
                    lemma_bit_ops(0, 0, r2 + 39);
                }
            }
            lemma_card_ranks_push(x, r, s);
            assert(m.take(idx as int).push(m[idx as int]) =~= m.take(idx + 1));
        }
        idx = idx + 1;
    }
    proof {
        assert(m.take(5) =~= m);
    }
    mask_nonsuited
}

/// Whether the bag `m` keys the table of hearts (`suited`) or that of spread cards: a bag a
/// deck deals, of five different ranks for hearts.
pub open spec fn from_bag(m: Seq<usize>, suited: bool) -> bool {
    valid5(m) && (suited ==> distinct_upto(m, 5))
}

/// The hand of the bag `m` in hearts (`suited`) or spread over the suits.
pub open spec fn bag_hand5(m: Seq<usize>, suited: bool) -> Hand {
    if suited {
        hearts_hand(m)
    } else {
        spread_hand(m)
    }
}

/// The keys listed in an entry: those of hearts (`suited`) or those of spread cards.
pub open spec fn keys_of(e: (Hand, Vec<u64>, Vec<u64>), suited: bool) -> Seq<u64> {
    if suited {
        e.2@
    } else {
        e.1@
    }
}

/// Every entry of the map is keyed by the strength of its hand, and every key it lists is the
/// key of a bag whose hand it is.
#[verifier::opaque]
pub open spec fn sound5(map: Map<u64, (Hand, Vec<u64>, Vec<u64>)>) -> bool {
    &&& forall|s: u64| #[trigger] map.contains_key(s) ==> hand_code(map[s].0) == s
        && map[s].1@.len() + map[s].2@.len() > 0
    &&& forall|s: u64, suited: bool, t: int|
        map.contains_key(s) && 0 <= t < keys_of(map[s], suited).len() ==> exists|m: Seq<usize>|
            #[trigger] from_bag(m, suited) && bag_code(m) == (#[trigger] keys_of(map[s], suited)[t])
                && hand_code(bag_hand5(m, suited)) == s
}

/// Every bag among the first `j` is listed under its hand, in each table it keys.
pub open spec fn cover5(map: Map<u64, (Hand, Vec<u64>, Vec<u64>)>, bags: Seq<Vec<usize>>, j: int) -> bool {
    forall|b: int, suited: bool|
        0 <= b < j && #[trigger] from_bag(bags[b]@, suited) ==> {
            let m = bags[b]@;
            let s = hand_code(bag_hand5(m, suited)) as u64;
            map.contains_key(s) && keys_of(map[s], suited).contains(bag_code(m) as u64)
        }
}

/// Every bag is listed under its hand, in each table it keys.
#[verifier::opaque]
pub open spec fn covers5(map: Map<u64, (Hand, Vec<u64>, Vec<u64>)>) -> bool {
    forall|m: Seq<usize>, suited: bool| #[trigger] from_bag(m, suited) ==> {
        let s = hand_code(bag_hand5(m, suited)) as u64;
        map.contains_key(s) && keys_of(map[s], suited).contains(bag_code(m) as u64)
    }
}

/// Recording the key of a bag under its hand keeps the map sound and every key listed before.
proof fn lemma_record5(
    old_map: Map<u64, (Hand, Vec<u64>, Vec<u64>)>,
    new_map: Map<u64, (Hand, Vec<u64>, Vec<u64>)>,
    hand: Hand,
    key: u64,
    suited: bool,
    m: Seq<usize>,
)
    requires
        sound5(old_map),
        ({
            let s = strength_key(hand);
            let was = old_map.contains_key(s);
            let e = new_map[s];
            &&& new_map == old_map.insert(s, e)
            &&& e.0 == if was { old_map[s].0 } else { hand }
            &&& e.1@ == (if was { old_map[s].1@ } else { Seq::empty() }) + if suited {
                Seq::empty()
            } else {
                seq![key]
            }
            &&& e.2@ == (if was { old_map[s].2@ } else { Seq::empty() }) + if suited {
                seq![key]
            } else {
                Seq::empty()
            }
        }),
        hand_code(hand) < 0x1_0000_0000_0000,
        from_bag(m, suited),
        bag_code(m) == key,
        bag_hand5(m, suited) == hand,
    ensures
        sound5(new_map),
        new_map.contains_key(strength_key(hand)),
        keys_of(new_map[strength_key(hand)], suited).contains(key),
        map_grows(old_map, new_map),
{
    let s = strength_key(hand);
    let e = new_map[s];
    assert(hand_code(hand) as u64 == hand_code(hand));
    assert(sound5(new_map)) by {
        reveal(sound5);
        assert forall|s2: u64| #[trigger] new_map.contains_key(s2) implies hand_code(new_map[s2].0) == s2
            && new_map[s2].1@.len() + new_map[s2].2@.len() > 0 by {
            if s2 != s {
                assert(old_map.contains_key(s2));
            }
        }
        assert forall|s2: u64, su: bool, t: int|
            new_map.contains_key(s2) && 0 <= t < keys_of(new_map[s2], su).len() implies exists|m2: Seq<usize>|
                #[trigger] from_bag(m2, su) && bag_code(m2) == (#[trigger] keys_of(new_map[s2], su)[t])
                    && hand_code(bag_hand5(m2, su)) == s2 by {
            let k = keys_of(new_map[s2], su)[t];
            if s2 != s || (old_map.contains_key(s) && t < keys_of(old_map[s], su).len()) {
                assert(old_map.contains_key(s2));
                assert(k == keys_of(old_map[s2], su)[t]);
                let m2 = choose|m2: Seq<usize>| #[trigger] from_bag(m2, su) && bag_code(m2) == keys_of(old_map[s2], su)[t]
                    && hand_code(bag_hand5(m2, su)) == s2;
                assert(from_bag(m2, su) && bag_code(m2) == k && hand_code(bag_hand5(m2, su)) == s2);
            } else {
                assert(su == suited);
                assert(k == key);
                assert(from_bag(m, su) && bag_code(m) == k && hand_code(bag_hand5(m, su)) == s2);
            }
        }
    }
    if !suited {
        assert(e.1@[e.1@.len() - 1] == key);
    } else {
        assert(e.2@[e.2@.len() - 1] == key);
    }
    assert forall|s2: u64, k: u64| old_map.contains_key(s2) && #[trigger] old_map[s2].1@.contains(k) implies new_map[s2].1@.contains(k) by {
        let t = choose|t: int| 0 <= t < old_map[s2].1@.len() && old_map[s2].1@[t] == k;
        assert(new_map[s2].1@[t] == k);
    }
    assert forall|s2: u64, k: u64| old_map.contains_key(s2) && #[trigger] old_map[s2].2@.contains(k) implies new_map[s2].2@.contains(k) by {
        let t = choose|t: int| 0 <= t < old_map[s2].2@.len() && old_map[s2].2@[t] == k;
        assert(new_map[s2].2@[t] == k);
    }
}

/// Covering the first bags survives the map growing.
proof fn lemma_cover5_mono(
    a: Map<u64, (Hand, Vec<u64>, Vec<u64>)>,
    b: Map<u64, (Hand, Vec<u64>, Vec<u64>)>,
    bags: Seq<Vec<usize>>,
    j: int,
)
    requires
        cover5(a, bags, j),
        map_grows(a, b),
    ensures
        cover5(b, bags, j),
{
    assert forall|i: int, suited: bool| 0 <= i < j && #[trigger] from_bag(bags[i]@, suited) implies ({
        let m = bags[i]@;
        let s = hand_code(bag_hand5(m, suited)) as u64;
        b.contains_key(s) && keys_of(b[s], suited).contains(bag_code(m) as u64)
    }) by {
        let m = bags[i]@;
        let s = hand_code(bag_hand5(m, suited)) as u64;
        assert(a.contains_key(s) && keys_of(a[s], suited).contains(bag_code(m) as u64));
        if suited {
            assert(a[s].2@.contains(bag_code(m) as u64));
        } else {
            assert(a[s].1@.contains(bag_code(m) as u64));
        }
    }
}

/// Whether every rank of the bag is the same.
fn all_equal(ranks: &Vec<usize>) -> (r: bool)
    ensures
        r == forall|a: int, b: int| 0 <= a < ranks@.len() && 0 <= b < ranks@.len() ==> ranks@[a] == ranks@[b],
{
    let mut i: usize = 1;
    while i < ranks.len()
        invariant
            1 <= i,
            forall|a: int| 0 <= a < i && a < ranks@.len() ==> #[trigger] ranks@[a] == ranks@[0],
        decreases ranks.len() - i,
    {
        if ranks[i] != ranks[0] {
            return false;
        }
        i = i + 1;
    }
    true
}

/// The hands of every bag of five ranks that a deck deals, keyed by their strength: each with
/// the keys of the bags that give it, spread over the suits and, for five different ranks, in
/// hearts.
fn hands_of_bags(engine_ref: &RefBest5) -> (map: HandMap)
    ensures
        sound5(map@),
        covers5(map@),
        map@.dom().len() <= 2 * key_count(),
{
    broadcast use vstd::std_specs::btree::group_btree_axioms;
    broadcast use vstd::set::group_set_axioms;

    let mut map: HandMap = BTreeMap::new();
    // every sorted bag of five ranks
    let bags = sorted_bags(Rank::NUM, 5);
    proof {
        assert(map@ =~= Map::<u64, (Hand, Vec<u64>, Vec<u64>)>::empty());
        reveal(sound5);
    }
    let mut j: usize = 0;
    while j < bags.len()
        invariant
            j <= bags.len(),
            forall|b: int| 0 <= b < bags.len() ==> (#[trigger] bags[b])@.len() == 5 && sorted_bag(bags[b]@, 13),
            sound5(map@),
            cover5(map@, bags@, j as int),
            map@.dom().finite(),
            map@.dom().len() <= 2 * j,
            forall|a: int, b: int| 0 <= a < b < bags.len() ==> lex_less(bags[a]@, bags[b]@),
        decreases bags.len() - j,
    {
        let ranks = &bags[j];
        let ghost m = ranks@;
        assert(m.len() == 5 && sorted_bag(m, 13));
        // skip five of one rank, which no deck deals
        if !all_equal(ranks) {
            proof {
                if m[0] == m[4] {
                    assert forall|a: int, b: int| 0 <= a < 5 && 0 <= b < 5 implies m[a] == m[b] by {
                        assert(m[0] <= m[a] <= m[4]);
                        assert(m[0] <= m[b] <= m[4]);
                    }
                }
                assert(valid5(m));
                lemma_small_bag_fits(m);
                assert(five_of(m) =~= m);
            }
            let mask_allsuited = all_in_hearts(ranks);
            let mask_nonsuited = spread_over_suits(ranks);
            if mask_allsuited.count() == 5 {
                let hand = engine_ref.best5(mask_allsuited).1;
                let key = KeyLutCard5::from_cards(mask_allsuited);
                let ghost before = map@;
                record(&mut map, hand, key.data, true);
                proof {
                    hand.lemma_fields_bound();
                    lemma_record5(before, map@, hand, key.data, true, m);
                    lemma_cover5_mono(before, map@, bags@, j as int);
                }
            }
            let hand = engine_ref.best5(mask_nonsuited).1;
            let key = KeyLutCard5::from_cards(mask_nonsuited);
            let ghost before = map@;
            record(&mut map, hand, key.data, false);
            proof {
                hand.lemma_fields_bound();
                lemma_record5(before, map@, hand, key.data, false, m);
                lemma_cover5_mono(before, map@, bags@, j as int);
                assert forall|b: int, suited: bool| 0 <= b < j + 1 && #[trigger] from_bag(bags@[b]@, suited) implies ({
                    let m2 = bags@[b]@;
                    let s = hand_code(bag_hand5(m2, suited)) as u64;
                    map@.contains_key(s) && keys_of(map@[s], suited).contains(bag_code(m2) as u64)
                }) by {
                    if b == j as int && suited {
                        assert(map_grows(before, map@));
                        let s = hand_code(bag_hand5(m, true)) as u64;
                        assert(before.contains_key(s) && before[s].2@.contains(bag_code(m) as u64));
                    }
                }
            }
        } else {
            proof {
                assert(m[0] == m[4]);
                assert forall|b: int, suited: bool| 0 <= b < j + 1 && #[trigger] from_bag(bags@[b]@, suited) implies ({
                    let m2 = bags@[b]@;
                    let s = hand_code(bag_hand5(m2, suited)) as u64;
                    map@.contains_key(s) && keys_of(map@[s], suited).contains(bag_code(m2) as u64)
                }) by {
                    if b == j as int {
                        assert(!valid5(m));
                    }
                }
            }
        }
        j = j + 1;
    }
    proof {
        lemma_bags_count(bags@);
        reveal(covers5);
        assert forall|m: Seq<usize>, suited: bool| #[trigger] from_bag(m, suited) implies ({
            let s = hand_code(bag_hand5(m, suited)) as u64;
            map@.contains_key(s) && keys_of(map@[s], suited).contains(bag_code(m) as u64)
        }) by {
            assert(m.len() == 5 && sorted_bag(m, 13));
            let b = choose|b: int| 0 <= b < bags.len() && (#[trigger] bags[b])@ == m;
            assert(from_bag(bags@[b]@, suited));
        }
    }
    map
}

/// Two different hands never list the same key of one table.
proof fn lemma_keys_disjoint5(
    map: Map<u64, (Hand, Vec<u64>, Vec<u64>)>,
    s1: u64,
    s2: u64,
    suited: bool,
    t1: int,
    t2: int,
)
    requires
        sound5(map),
        map.contains_key(s1),
        map.contains_key(s2),
        0 <= t1 < keys_of(map[s1], suited).len(),
        0 <= t2 < keys_of(map[s2], suited).len(),
        keys_of(map[s1], suited)[t1] == keys_of(map[s2], suited)[t2],
    ensures
        s1 == s2,
{
    reveal(sound5);
    let m1 = choose|m: Seq<usize>| #[trigger] from_bag(m, suited) && bag_code(m) == keys_of(map[s1], suited)[t1]
        && hand_code(bag_hand5(m, suited)) == s1;
    let m2 = choose|m: Seq<usize>| #[trigger] from_bag(m, suited) && bag_code(m) == keys_of(map[s2], suited)[t2]
        && hand_code(bag_hand5(m, suited)) == s2;
    lemma_bag_code_injective(m1, m2, 13);
}

/// The key of a bag of five ranks lies below the number of such bags.
proof fn lemma_bag5_code_small(m: Seq<usize>)
    requires
        valid5(m),
    ensures
        bag_code(m) < key_count(),
{
    lemma_bag_code_bounds(m, 13, 5);
    assert(m.take(5) =~= m);
    lemma_comb_monotone((m[4] + 5) as nat, 17, 5);
}

/// Entries that keep their keys in place keep every key.
proof fn lemma_keys_kept(before: Seq<(u64, u16)>, after: Seq<(u64, u16)>)
    requires
        after.len() >= before.len(),
        forall|q: int| 0 <= q < before.len() ==> after[q].0 == before[q].0,
    ensures
        forall|k: u64| has_key(before, k) ==> #[trigger] has_key(after, k),
{
    assert forall|k: u64| has_key(before, k) implies #[trigger] has_key(after, k) by {
        let q = choose|q: int| 0 <= q < before.len() && before[q].0 == k;
        assert(after[q].0 == k);
    }
}

/// Lists every key of one table, hearts (`suited`) or spread cards, going through the hands in
/// increasing strength, each key with the number of its hand among all hands, from 1. Beside the
/// map, the position of the hand of each entry.
fn index_keys(map: &HandMap, keys: &Vec<u64>, suited: bool) -> (r: (IndexMap<u64, u16>, Ghost<Seq<int>>))
    requires
        keys@.len() < 0x1_0000,
        keys@.to_set() == map@.dom(),
        strictly_increasing(keys@),
        sound5(map@),
    ensures
        listing5(map@, keys@, suited, index_entries(r.0), r.1@),
{
    let mut index = index_map_new();
    let ghost mut owners: Seq<int> = Seq::empty();
    let n = keys.len();
    let mut p: usize = 0;
    while p < n
        invariant
            p <= n,
            n == keys@.len(),
            keys@.to_set() == map@.dom(),
            strictly_increasing(keys@),
            sound5(map@),
            distinct_keys(index_entries(index)),
            owners.len() == index_entries(index).len(),
            n < 0x1_0000,
            forall|q: int| 0 <= q < index_entries(index).len() ==> 0 <= #[trigger] owners[q] < p
                && keys_of(map@[keys@[owners[q]]], suited).contains(index_entries(index)[q].0)
                && index_entries(index)[q].1 as int == owners[q] + 1,
            forall|p2: int, t: int| 0 <= p2 < p && 0 <= t < keys_of(map@[keys@[p2]], suited).len() ==> has_key(
                index_entries(index),
                #[trigger] keys_of(map@[keys@[p2]], suited)[t],
            ),
        decreases n - p,
    {
        let s = keys[p];
        proof {
            assert(keys@.to_set().contains(s));
        }
        let e = entry_of(map, s);
        let rank_index = (p + 1) as u16;
        let list = if suited { &e.2 } else { &e.1 };
        let mut t: usize = 0;
        while t < list.len()
            invariant
                p < n,
                n == keys@.len(),
                s == keys@[p as int],
                map@.contains_key(s),
                list@ == keys_of(map@[s], suited),
                keys@.to_set() == map@.dom(),
                strictly_increasing(keys@),
                sound5(map@),
                t <= list@.len(),
                distinct_keys(index_entries(index)),
                owners.len() == index_entries(index).len(),
                n < 0x1_0000,
                rank_index as int == p + 1,
                forall|q: int| 0 <= q < index_entries(index).len() ==> 0 <= #[trigger] owners[q] <= p
                    && keys_of(map@[keys@[owners[q]]], suited).contains(index_entries(index)[q].0)
                    && index_entries(index)[q].1 as int == owners[q] + 1,
                forall|p2: int, u: int| 0 <= p2 < p && 0 <= u < keys_of(map@[keys@[p2]], suited).len() ==> has_key(
                    index_entries(index),
                    #[trigger] keys_of(map@[keys@[p2]], suited)[u],
                ),
                forall|u: int| 0 <= u < t ==> has_key(index_entries(index), #[trigger] list@[u]),
            decreases list@.len() - t,
        {
            let k = list[t];
            let ghost before = index_entries(index);
            index_map_insert(&mut index, k, rank_index);
            proof {
                let after = index_entries(index);
                if has_key(before, k) {
                    let q0 = choose|q: int| 0 <= q < before.len() && before[q].0 == k;
                    assert(after == before.update(q0, (k, rank_index)));
                    assert(after[q0].0 == k);
                    owners = owners.update(q0, p as int);
                    assert(list@[t as int] == k);
                    assert(list@.contains(k));
                } else {
                    assert(after == before.push((k, rank_index)));
                    owners = owners.push(p as int);
                    assert(after[before.len() as int].0 == k);
                    assert(list@[t as int] == k);
                    assert(list@.contains(k));
                }
                lemma_keys_kept(before, after);
                assert(has_key(after, k));
            }
            t = t + 1;
        }
        proof {
            assert forall|p2: int, u: int| 0 <= p2 < p + 1 && 0 <= u < keys_of(map@[keys@[p2]], suited).len() implies has_key(
                index_entries(index),
                #[trigger] keys_of(map@[keys@[p2]], suited)[u],
            ) by {
                if p2 == p as int {
                    assert(keys_of(map@[keys@[p2]], suited)[u] == list@[u]);
                }
            }
        }
        p = p + 1;
    }
    proof {
        reveal(listing5);
    }
    (index, Ghost(owners))
}

/// Distinct sorted bags of five ranks are no more than the number of such bags.
proof fn lemma_bags_count(bags: Seq<Vec<usize>>)
    requires
        forall|b: int| 0 <= b < bags.len() ==> (#[trigger] bags[b])@.len() == 5 && sorted_bag(bags[b]@, 13),
        forall|i: int, j: int| 0 <= i < j < bags.len() ==> lex_less(bags[i]@, bags[j]@),
    ensures
        bags.len() <= key_count(),
{
    let ks = Seq::new(bags.len(), |b: int| bag_code(bags[b]@) as int);
    assert forall|i: int, j: int| 0 <= i < ks.len() && 0 <= j < ks.len() && i != j implies ks[i] != ks[j] by {
        let (a, b) = if i < j { (i, j) } else { (j, i) };
        assert(lex_less(bags[a]@, bags[b]@));
        if ks[i] == ks[j] {
            lemma_bag_code_injective(bags[a]@, bags[b]@, 13);
            let t = choose|t: int| 0 <= t < bags[a]@.len() && t < bags[b]@.len() && bags[a]@.take(t) == bags[b]@.take(t) && bags[a]@[t] < bags[b]@[t];
        }
    }
    assert(ks.no_duplicates());
    ks.unique_seq_to_set();
    lemma_int_range(0, key_count() as int);
    assert forall|v: int| ks.to_set().contains(v) implies set_int_range(0, key_count() as int).contains(v) by {
        let b = choose|b: int| 0 <= b < ks.len() && ks[b] == v;
        let m = bags[b]@;
        lemma_bag_code_bounds(m, 13, 5);
        assert(m.take(5) =~= m);
        lemma_comb_monotone((m[4] + 5) as nat, 17, 5);
    }
    assert(ks.to_set().subset_of(set_int_range(0, key_count() as int)));
    lemma_len_subset(ks.to_set(), set_int_range(0, key_count() as int));
}

/// Distinct keys below the number of bags are no more than that many.
proof fn lemma_index_len(e: Seq<(u64, u16)>)
    requires
        distinct_keys(e),
        forall|q: int| 0 <= q < e.len() ==> (#[trigger] e[q]).0 < key_count(),
    ensures
        e.len() <= key_count(),
{
    let ks = Seq::new(e.len(), |q: int| e[q].0 as int);
    assert(ks.no_duplicates());
    ks.unique_seq_to_set();
    lemma_int_range(0, key_count() as int);
    assert(ks.to_set().subset_of(set_int_range(0, key_count() as int)));
    lemma_len_subset(ks.to_set(), set_int_range(0, key_count() as int));
}

/// Appends `n` zeros.
fn push_zeros(v: &mut Vec<u16>, n: usize)
    ensures
        final(v)@ == old(v)@ + Seq::new(n as nat, |i: int| 0u16),
{
    let mut i: usize = 0;
    while i < n
        invariant
            i <= n,
            v@ == old(v)@ + Seq::new(i as nat, |x: int| 0u16),
        decreases n - i,
    {
        v.push(0);
        proof {
            assert(v@ =~= old(v)@ + Seq::new((i + 1) as nat, |x: int| 0u16));
        }
        i = i + 1;
    }
}

/// The flat table of one map: the key of each entry gets the entry's number, and every other
/// index up to the largest key gets 0.
fn flatten(index: &IndexMap<u64, u16>) -> (r: Vec<u16>)
    requires
        distinct_keys(index_entries(*index)),
        index_entries(*index).len() >= 1,
        forall|q: int| 0 <= q < index_entries(*index).len() ==> (#[trigger] index_entries(*index)[q]).0 < key_count()
            && index_entries(*index)[q].1 >= 1,
    ensures
        forall|q: int| 0 <= q < index_entries(*index).len() ==> (#[trigger] index_entries(*index)[q]).0 < r@.len()
            && r@[index_entries(*index)[q].0 as int] == index_entries(*index)[q].1,
        forall|x: int| 0 <= x < r@.len() && #[trigger] r@[x] != 0 ==> has_key(index_entries(*index), x as u64),
        r@.len() <= key_count(),
{
    let ghost e = index_entries(*index);
    proof {
        lemma_index_len(e);
        lemma_key_count_value();
    }
    let len = index_map_len(index);
    // the largest key
    let mut max_idx: u64 = 0;
    let mut i: usize = 0;
    while i < len
        invariant
            i <= len,
            len == e.len(),
            e == index_entries(*index),
            forall|q: int| 0 <= q < i ==> (#[trigger] e[q]).0 <= max_idx,
            forall|q: int| 0 <= q < e.len() ==> (#[trigger] e[q]).0 < key_count(),
            max_idx < key_count(),
        decreases len - i,
    {
        match index_map_get_index(index, i) {
            Some((k, _)) => {
                if k > max_idx {
                    max_idx = k;
                }
            },
            None => {},
        }
        i = i + 1;
    }
    let mut flat: Vec<u16> = Vec::new();
    push_zeros(&mut flat, (max_idx + 1) as usize);
    let mut i: usize = 0;
    while i < len
        invariant
            i <= len,
            len == e.len(),
            e == index_entries(*index),
            distinct_keys(e),
            e.len() <= key_count(),
            key_count() == 6188,
            max_idx < key_count(),
            flat@.len() == max_idx + 1,
            forall|q: int| 0 <= q < e.len() ==> (#[trigger] e[q]).0 <= max_idx,
            forall|q: int| 0 <= q < e.len() ==> (#[trigger] e[q]).1 >= 1,
            forall|q: int| 0 <= q < i ==> flat@[(#[trigger] e[q]).0 as int] == e[q].1,
            forall|x: int| 0 <= x < flat@.len() ==> #[trigger] flat@[x] == 0 || exists|q: int| 0 <= q < i && e[q].0 == x,
        decreases len - i,
    {
        match index_map_get_index(index, i) {
            Some((k, v)) => {
                let ghost prev = flat@;
                flat.set(k as usize, v);
                proof {
                    assert(k == e[i as int].0);
                    assert(v == e[i as int].1);
                    assert(k < 6188);
                    assert(flat@ == prev.update(k as int, v));
                    assert forall|q: int| 0 <= q < i + 1 implies flat@[(#[trigger] e[q]).0 as int] == e[q].1 by {
                        if q < i {
                            assert(e[q].0 != e[i as int].0);
                            assert(flat@[e[q].0 as int] == prev[e[q].0 as int]);
                        } else {
                            assert(flat@[k as int] == v);
                        }
                    }
                    assert forall|x: int| 0 <= x < flat@.len() implies #[trigger] flat@[x] == 0 || exists|q: int| 0 <= q < i + 1 && e[q].0 == x by {
                        if x == k as int {
                            assert(e[i as int].1 >= 1);
                            assert(e[i as int].0 == x);
                        } else {
                            assert(flat@[x] == prev[x]);
                        }
                    }
                }
            },
            None => {},
        }
        i = i + 1;
    }
    proof {
        assert forall|x: int| 0 <= x < flat@.len() && #[trigger] flat@[x] != 0 implies has_key(e, x as u64) by {
            let q = choose|q: int| 0 <= q < len && e[q].0 == x;
            assert(e[q].0 == x as u64);
        }
    }
    flat
}

/// The listing of one kind, hearts (`suited`) or spread cards, from the map of hands.
#[verifier::opaque]
pub open spec fn listing5(
    map: Map<u64, (Hand, Vec<u64>, Vec<u64>)>,
    keys: Seq<u64>,
    suited: bool,
    e: Seq<(u64, u16)>,
    owners: Seq<int>,
) -> bool {
    &&& distinct_keys(e)
    &&& owners.len() == e.len()
    &&& forall|q: int| 0 <= q < e.len() ==> 0 <= #[trigger] owners[q] < keys.len()
        && keys_of(map[keys[owners[q]]], suited).contains(e[q].0)
        && e[q].1 as int == owners[q] + 1
    &&& forall|p: int, t: int| 0 <= p < keys.len() && 0 <= t < keys_of(map[keys[p]], suited).len() ==> has_key(
        e,
        #[trigger] keys_of(map[keys[p]], suited)[t],
    )
}

/// A bag's key has an entry, listed under the bag's hand.
proof fn lemma_entry5(
    map: Map<u64, (Hand, Vec<u64>, Vec<u64>)>,
    keys: Seq<u64>,
    suited: bool,
    e: Seq<(u64, u16)>,
    owners: Seq<int>,
    m: Seq<usize>,
) -> (q: int)
    requires
        sound5(map),
        keys.to_set() == map.dom(),
        from_bag(m, suited),
        covers5(map),
        listing5(map, keys, suited, e, owners),
    ensures
        0 <= q < e.len(),
        e[q].0 == bag_code(m),
        keys[owners[q]] == hand_code(bag_hand5(m, suited)),
{
    reveal(covers5);
    reveal(listing5);
    let h = bag_hand5(m, suited);
    h.lemma_fields_bound();
    lemma_small_bag_fits(m);
    let s = hand_code(h) as u64;
    let k = bag_code(m) as u64;
    assert(keys.to_set().contains(s));
    let p = choose|p: int| 0 <= p < keys.len() && keys[p] == s;
    let t = choose|t: int| 0 <= t < keys_of(map[s], suited).len() && keys_of(map[s], suited)[t] == k;
    assert(has_key(e, keys_of(map[keys[p]], suited)[t]));
    let q = choose|q: int| 0 <= q < e.len() && e[q].0 == k;
    let o = owners[q];
    assert(keys_of(map[keys[o]], suited).contains(e[q].0));
    let t2 = choose|t2: int| 0 <= t2 < keys_of(map[keys[o]], suited).len() && keys_of(map[keys[o]], suited)[t2] == k;
    assert(keys.to_set().contains(keys[o]));
    lemma_keys_disjoint5(map, keys[o], s, suited, t2, t);
    q
}

/// A bag's order is one more than the position, among all hands, of the bag's hand.
proof fn lemma_order_at5(
    map: Map<u64, (Hand, Vec<u64>, Vec<u64>)>,
    keys: Seq<u64>,
    suited: bool,
    e: Seq<(u64, u16)>,
    owners: Seq<int>,
    table: Seq<u16>,
    m: Seq<usize>,
) -> (o: int)
    requires
        sound5(map),
        keys.to_set() == map.dom(),
        from_bag(m, suited),
        covers5(map),
        listing5(map, keys, suited, e, owners),
        forall|q: int| 0 <= q < e.len() ==> (#[trigger] e[q]).0 < table.len() && table[e[q].0 as int] == e[q].1,
    ensures
        0 <= o < keys.len(),
        keys[o] == hand_code(bag_hand5(m, suited)),
        bag_code(m) < table.len(),
        table[bag_code(m) as int] as int == o + 1,
{
    reveal(listing5);
    let q = lemma_entry5(map, keys, suited, e, owners, m);
    assert(table[e[q].0 as int] == e[q].1);
    owners[q]
}

/// Every key of a listing is the key of a bag, so lies below the number of bags.
proof fn lemma_listing_small(
    map: Map<u64, (Hand, Vec<u64>, Vec<u64>)>,
    keys: Seq<u64>,
    suited: bool,
    e: Seq<(u64, u16)>,
    owners: Seq<int>,
)
    requires
        sound5(map),
        keys.to_set() == map.dom(),
        listing5(map, keys, suited, e, owners),
    ensures
        forall|q: int| 0 <= q < e.len() ==> (#[trigger] e[q]).0 < key_count() && e[q].1 >= 1,
        distinct_keys(e),
{
    reveal(sound5);
    reveal(listing5);
    assert forall|q: int| 0 <= q < e.len() implies (#[trigger] e[q]).0 < key_count() && e[q].1 >= 1 by {
        let s = keys[owners[q]];
        assert(keys.to_set().contains(s));
        let t = choose|t: int| 0 <= t < keys_of(map[s], suited).len() && keys_of(map[s], suited)[t] == e[q].0;
        let m = choose|m: Seq<usize>| #[trigger] from_bag(m, suited) && bag_code(m) == keys_of(map[s], suited)[t]
            && hand_code(bag_hand5(m, suited)) == s;
        lemma_bag5_code_small(m);
    }
}

/// Every bag of a table has an order in it.
proof fn lemma_complete5(
    map: Map<u64, (Hand, Vec<u64>, Vec<u64>)>,
    keys: Seq<u64>,
    suited: bool,
    e: Seq<(u64, u16)>,
    owners: Seq<int>,
    table: Seq<u16>,
)
    requires
        sound5(map),
        keys.to_set() == map.dom(),
        strictly_increasing(keys),
        covers5(map),
        listing5(map, keys, suited, e, owners),
        forall|q: int| 0 <= q < e.len() ==> (#[trigger] e[q]).0 < table.len() && table[e[q].0 as int] == e[q].1,
    ensures
        forall|m: Seq<usize>| #[trigger] from_bag(m, suited) ==> bag_code(m) < table.len() && table[bag_code(m) as int] >= 1,
{
    assert forall|m: Seq<usize>| #[trigger] from_bag(m, suited) implies bag_code(m) < table.len() && table[bag_code(m) as int] >= 1 by {
        let q = lemma_entry5(map, keys, suited, e, owners, m);
        reveal(listing5);
        assert(table[e[q].0 as int] == e[q].1);
    }
}

/// Only keys of bags have an order.
proof fn lemma_keyed5(
    map: Map<u64, (Hand, Vec<u64>, Vec<u64>)>,
    keys: Seq<u64>,
    suited: bool,
    e: Seq<(u64, u16)>,
    owners: Seq<int>,
    table: Seq<u16>,
)
    requires
        sound5(map),
        keys.to_set() == map.dom(),
        listing5(map, keys, suited, e, owners),
        forall|x: int| 0 <= x < table.len() && #[trigger] table[x] != 0 ==> has_key(e, x as u64),
        table.len() <= key_count(),
    ensures
        forall|k: int| 0 <= k < table.len() && #[trigger] table[k] >= 1 ==> exists|m: Seq<usize>|
            from_bag(m, suited) && bag_code(m) == k,
{
    reveal(sound5);
    reveal(listing5);
    lemma_key_count_value();
    assert forall|k: int| 0 <= k < table.len() && #[trigger] table[k] >= 1 implies exists|m: Seq<usize>|
        from_bag(m, suited) && bag_code(m) == k by {
        assert(has_key(e, k as u64));
        let q = choose|q: int| 0 <= q < e.len() && e[q].0 == k as u64;
        let o = owners[q];
        let s = keys[o];
        assert(keys.to_set().contains(s));
        let t = choose|t: int| 0 <= t < keys_of(map[s], suited).len() && keys_of(map[s], suited)[t] == e[q].0;
        let m = choose|m: Seq<usize>| #[trigger] from_bag(m, suited) && bag_code(m) == keys_of(map[s], suited)[t]
            && hand_code(bag_hand5(m, suited)) == s;
        assert(from_bag(m, suited) && bag_code(m) == k);
    }
}

/// The hand at position `p` has its order, `p + 1`, stored at one of its keys in a table that
/// lists the key.
proof fn lemma_hand_stored5(
    map: Map<u64, (Hand, Vec<u64>, Vec<u64>)>,
    keys: Seq<u64>,
    suited: bool,
    e: Seq<(u64, u16)>,
    owners: Seq<int>,
    table: Seq<u16>,
    p: int,
) -> (k: int)
    requires
        sound5(map),
        keys.to_set() == map.dom(),
        strictly_increasing(keys),
        listing5(map, keys, suited, e, owners),
        forall|q: int| 0 <= q < e.len() ==> (#[trigger] e[q]).0 < table.len() && table[e[q].0 as int] == e[q].1,
        0 <= p < keys.len(),
        keys_of(map[keys[p]], suited).len() > 0,
    ensures
        0 <= k < table.len(),
        table[k] as int == p + 1,
{
    reveal(listing5);
    let kk = keys_of(map[keys[p]], suited)[0];
    assert(keys.to_set().contains(keys[p]));
    assert(has_key(e, kk));
    let q = choose|q: int| 0 <= q < e.len() && e[q].0 == kk;
    let o = owners[q];
    let t = choose|t: int| 0 <= t < keys_of(map[keys[o]], suited).len() && keys_of(map[keys[o]], suited)[t] == e[q].0;
    assert(keys.to_set().contains(keys[o]));
    lemma_keys_disjoint5(map, keys[o], keys[p], suited, t, 0);
    if o < p {
        assert(keys[o] < keys[p]);
    } else if p < o {
        assert(keys[p] < keys[o]);
    }
    assert(table[e[q].0 as int] == e[q].1);
    e[q].0 as int
}

/// A stored order is one more than the position of a hand.
proof fn lemma_owner_below5(
    map: Map<u64, (Hand, Vec<u64>, Vec<u64>)>,
    keys: Seq<u64>,
    suited: bool,
    e: Seq<(u64, u16)>,
    owners: Seq<int>,
    table: Seq<u16>,
    k: int,
) -> (p: int)
    requires
        listing5(map, keys, suited, e, owners),
        forall|q: int| 0 <= q < e.len() ==> (#[trigger] e[q]).0 < table.len() && table[e[q].0 as int] == e[q].1,
        forall|x: int| 0 <= x < table.len() && #[trigger] table[x] != 0 ==> has_key(e, x as u64),
        0 <= k < table.len(),
        table.len() <= key_count(),
        table[k] != 0,
    ensures
        0 <= p < keys.len(),
        table[k] as int == p + 1,
{
    reveal(listing5);
    lemma_key_count_value();
    assert((k as u64) as int == k);
    assert(has_key(e, k as u64));
    let q = choose|q: int| 0 <= q < e.len() && e[q].0 == k as u64;
    assert(table[e[q].0 as int] == e[q].1);
    owners[q]
}

/// Tables flattened from the listings of a sound map of every bag cover their bags, are keyed
/// by them only, and are ordered by their hands.
proof fn lemma_tables_built(
    r: LutBest5,
    map: Map<u64, (Hand, Vec<u64>, Vec<u64>)>,
    keys: Seq<u64>,
    es: Seq<(u64, u16)>,
    own_s: Seq<int>,
    en: Seq<(u64, u16)>,
    own_n: Seq<int>,
)
    requires
        sound5(map),
        covers5(map),
        keys.to_set() == map.dom(),
        strictly_increasing(keys),
        listing5(map, keys, true, es, own_s),
        listing5(map, keys, false, en, own_n),
        forall|q: int| 0 <= q < es.len() ==> (#[trigger] es[q]).0 < r.allsuited@.len()
            && r.allsuited@[es[q].0 as int] == es[q].1,
        forall|x: int| 0 <= x < r.allsuited@.len() && #[trigger] r.allsuited@[x] != 0 ==> has_key(es, x as u64),
        r.allsuited@.len() <= key_count(),
        forall|q: int| 0 <= q < en.len() ==> (#[trigger] en[q]).0 < r.nonsuited@.len()
            && r.nonsuited@[en[q].0 as int] == en[q].1,
        forall|x: int| 0 <= x < r.nonsuited@.len() && #[trigger] r.nonsuited@[x] != 0 ==> has_key(en, x as u64),
        r.nonsuited@.len() <= key_count(),
    ensures
        r.covers(),
        r.keyed(),
        r.ordered(),
        r.numbered(),
{
    assert(r.numbered()) by {
        reveal(LutBest5::numbered);
        assert forall|k: int, su: bool, o: int|
            #![trigger r.table(su)[k], r.order_stored(o)]
            0 <= k < r.table(su).len() && 1 <= o < r.table(su)[k] implies r.order_stored(o) by {
            reveal(sound5);
            let p = if su {
                lemma_owner_below5(map, keys, true, es, own_s, r.allsuited@, k)
            } else {
                lemma_owner_below5(map, keys, false, en, own_n, r.nonsuited@, k)
            };
            let p = o - 1;
            assert(keys.to_set().contains(keys[p]));
            if map[keys[p]].1@.len() > 0 {
                let k2 = lemma_hand_stored5(map, keys, false, en, own_n, r.nonsuited@, p);
                assert(r.table(false)[k2] == o);
            } else {
                let k2 = lemma_hand_stored5(map, keys, true, es, own_s, r.allsuited@, p);
                assert(r.table(true)[k2] == o);
            }
        }
    }
    assert(r.covers() && r.keyed()) by {
        lemma_complete5(map, keys, true, es, own_s, r.allsuited@);
        lemma_complete5(map, keys, false, en, own_n, r.nonsuited@);
        lemma_keyed5(map, keys, true, es, own_s, r.allsuited@);
        lemma_keyed5(map, keys, false, en, own_n, r.nonsuited@);
        r.lemma_complete_both();
    }
    assert(r.ordered()) by {
        reveal(LutBest5::ordered);
        assert forall|m1: Seq<usize>, m2: Seq<usize>, s1: bool, s2: bool|
            #![trigger r.order_of(m1, s1), r.order_of(m2, s2)]
            from_bag(m1, s1) && from_bag(m2, s2) implies (hand_code(bag_hand5(m1, s1)) < hand_code(bag_hand5(m2, s2))
                <==> r.order_of(m1, s1) < r.order_of(m2, s2)) by {
            let o1 = if s1 {
                lemma_order_at5(map, keys, true, es, own_s, r.allsuited@, m1)
            } else {
                lemma_order_at5(map, keys, false, en, own_n, r.nonsuited@, m1)
            };
            let o2 = if s2 {
                lemma_order_at5(map, keys, true, es, own_s, r.allsuited@, m2)
            } else {
                lemma_order_at5(map, keys, false, en, own_n, r.nonsuited@, m2)
            };
            assert(r.order_of(m1, s1) as int == o1 + 1);
            assert(r.order_of(m2, s2) as int == o2 + 1);
            if o1 < o2 {
                assert(keys[o1] < keys[o2]);
            } else if o2 < o1 {
                assert(keys[o2] < keys[o1]);
            }
        }
    }
}

/// Lookup tables of the order of the best hand of exactly five cards, each keyed by the bag of
/// the ranks of the cards ([KeyLutCard5]). Orders start at 1; 0 marks a key with no hand.
pub struct LutBest5 {
    /// The orders for five cards of one suit (flushes and straight flushes).
    pub allsuited: Vec<u16>,
    /// The orders for cards of more than one suit (every other hand).
    pub nonsuited: Vec<u16>,
}

impl LutBest5 {
    /// The table for five cards of one suit (`suited`), or for cards of more than one.
    pub open spec fn table(&self, suited: bool) -> Seq<u16> {
        if suited {
            self.allsuited@
        } else {
            self.nonsuited@
        }
    }

    /// The order of the bag `m` in that table.
    pub open spec fn order_of(&self, m: Seq<usize>, suited: bool) -> u16 {
        self.table(suited)[bag_code(m) as int]
    }

    /// Every bag of five ranks that a deck deals has an order in the table of spread cards, and
    /// every such bag of five different ranks one in the table of one suit.
    #[verifier::opaque]
    pub open spec fn covers(&self) -> bool {
        forall|m: Seq<usize>, suited: bool| #[trigger] from_bag(m, suited) ==> bag_code(m) < self.table(suited).len()
            && self.order_of(m, suited) >= 1
    }

    /// Only keys of such bags have an order.
    #[verifier::opaque]
    pub open spec fn keyed(&self) -> bool {
        forall|k: int, suited: bool| 0 <= k < self.table(suited).len() && #[trigger] self.table(suited)[k] >= 1
            ==> exists|m: Seq<usize>| from_bag(m, suited) && bag_code(m) == k
    }

    /// The hand of the ranks (spread over the suits, or all in hearts) orders the bags of both
    /// tables together: a stronger hand has a higher order, and a higher order a stronger hand.
    #[verifier::opaque]
    pub open spec fn ordered(&self) -> bool {
        forall|m1: Seq<usize>, m2: Seq<usize>, s1: bool, s2: bool|
            #![trigger self.order_of(m1, s1), self.order_of(m2, s2)]
            from_bag(m1, s1) && from_bag(m2, s2) ==> (hand_code(bag_hand5(m1, s1)) < hand_code(bag_hand5(m2, s2))
                <==> self.order_of(m1, s1) < self.order_of(m2, s2))
    }

    /// Whether the order `o` is stored in one of the tables.
    pub open spec fn order_stored(&self, o: int) -> bool {
        exists|su: bool, k: int| 0 <= k < self.table(su).len() && #[trigger] self.table(su)[k] == o
    }

    /// The orders run from 1 up without a gap: below any stored order, every order from 1 is
    /// stored too. With [ordered](Self::ordered), each hand has exactly one order.
    #[verifier::opaque]
    pub open spec fn numbered(&self) -> bool {
        forall|k: int, su: bool, o: int|
            #![trigger self.table(su)[k], self.order_stored(o)]
            0 <= k < self.table(su).len() && 1 <= o < self.table(su)[k] ==> self.order_stored(o)
    }

    /// Each table covering its bags, and keyed by them only, makes the tables so.
    proof fn lemma_complete_both(&self)
        requires
            forall|m: Seq<usize>| #[trigger] from_bag(m, true) ==> bag_code(m) < self.allsuited@.len()
                && self.allsuited@[bag_code(m) as int] >= 1,
            forall|m: Seq<usize>| #[trigger] from_bag(m, false) ==> bag_code(m) < self.nonsuited@.len()
                && self.nonsuited@[bag_code(m) as int] >= 1,
            forall|k: int| 0 <= k < self.allsuited@.len() && #[trigger] self.allsuited@[k] >= 1 ==> exists|m: Seq<usize>|
                from_bag(m, true) && bag_code(m) == k,
            forall|k: int| 0 <= k < self.nonsuited@.len() && #[trigger] self.nonsuited@[k] >= 1 ==> exists|m: Seq<usize>|
                from_bag(m, false) && bag_code(m) == k,
        ensures
            self.covers(),
            self.keyed(),
    {
        reveal(LutBest5::covers);
        reveal(LutBest5::keyed);
        assert forall|m: Seq<usize>, suited: bool| #[trigger] from_bag(m, suited) implies bag_code(m) < self.table(suited).len()
            && self.order_of(m, suited) >= 1 by {
            if suited {
                assert(from_bag(m, true));
            } else {
                assert(from_bag(m, false));
            }
        }
        assert forall|k: int, suited: bool| 0 <= k < self.table(suited).len() && #[trigger] self.table(suited)[k] >= 1
            implies exists|m: Seq<usize>| from_bag(m, suited) && bag_code(m) == k by {
            if suited {
                assert(self.allsuited@[k] >= 1);
            } else {
                assert(self.nonsuited@[k] >= 1);
            }
        }
    }

    /// The tables, computed by brute force.
    pub fn new() -> (r: LutBest5)
        ensures
            r.covers(),
            r.keyed(),
            r.ordered(),
            r.numbered(),
    {
        Self::from_brute_force()
    }

    /// Build the tables by brute force: every bag of five ranks, not all alike, is dealt spread
    /// over the suits and, for five different ranks, all in hearts; the reference engine finds
    /// the hand of each; the hands are then taken in increasing strength and numbered from 1,
    /// and each key of either table gets the number of its hand.
    pub fn from_brute_force() -> (r: LutBest5)
        ensures
            r.covers(),
            r.keyed(),
            r.ordered(),
            r.numbered(),
    {
        let engine_ref = RefBest5::new();
        let bts_hands = hands_of_bags(&engine_ref);
        let keys = sorted_keys(&bts_hands);
        proof {
            lemma_key_count_value();
        }
        let (allsuited_index, Ghost(own_s)) = index_keys(&bts_hands, &keys, true);
        let (nonsuited_index, Ghost(own_n)) = index_keys(&bts_hands, &keys, false);
        let ghost map = bts_hands@;
        let ghost es = index_entries(allsuited_index);
        let ghost en = index_entries(nonsuited_index);
        proof {
            // the bag of the five lowest ranks keys both tables
            let m0 = seq![0usize, 1, 2, 3, 4];
            assert(from_bag(m0, true));
            assert(from_bag(m0, false));
            lemma_entry5(map, keys@, true, es, own_s, m0);
            lemma_entry5(map, keys@, false, en, own_n, m0);
            lemma_listing_small(map, keys@, true, es, own_s);
            lemma_listing_small(map, keys@, false, en, own_n);
        }
        let allsuited = flatten(&allsuited_index);
        let nonsuited = flatten(&nonsuited_index);
        let r = LutBest5 { allsuited, nonsuited };
        proof {
            lemma_tables_built(r, map, keys@, es, own_s, en, own_n);
        }
        r
    }
}

/// Whether the card bits `x` all lie in one suit.
pub open spec fn one_suit(x: u64) -> bool {
    ||| x & 0x1fffu64 == x
    ||| x & (0x1fffu64 << 13u64) == x
    ||| x & (0x1fffu64 << 26u64) == x
    ||| x & (0x1fffu64 << 39u64) == x
}

/// The text of the ranks of a key, highest first.
pub open spec fn key_text(k: nat) -> Seq<char> {
    Seq::new(5, |i: int| rank_char(key_items(k)[4 - i] as nat))
}

/// The indices below `n` whose entry in `t` is the order `v`, lowest first.
pub open spec fn indices_with(t: Seq<u16>, v: nat, n: nat) -> Seq<int>
    decreases n,
{
    if n == 0 {
        Seq::empty()
    } else {
        indices_with(t, v, (n - 1) as nat) + if t[n - 1] == v {
            seq![(n - 1) as int]
        } else {
            Seq::empty()
        }
    }
}

/// The indices of `t` holding an order from 1 to `v`: by order, then by index.
pub open spec fn indices_upto(t: Seq<u16>, v: nat) -> Seq<int>
    decreases v,
{
    if v == 0 {
        Seq::empty()
    } else {
        indices_upto(t, (v - 1) as nat) + indices_with(t, v, t.len())
    }
}

/// The hand described for the key `k`: its ranks in hearts (`suited`), or spread over the suits.
#[verifier::opaque]
pub open spec fn key_hand(k: nat, suited: bool) -> Hand {
    if suited {
        hearts_hand(key_items(k))
    } else {
        spread_hand(key_items(k))
    }
}

/// One row of the rankings: the order and the ranks right-aligned in five columns, and the
/// description left-aligned in 28.
pub open spec fn md5_row(order: u16, k: nat, h: Hand) -> Seq<char> {
    "| "@ + pad_left(dec_text(order as nat), 5) + " | "@ + pad_left(key_text(k), 5) + " | "@ + pad_right(hand_text(h), 28)
        + " |\n"@
}

/// The rows of the indices `idx` of the table `t`.
pub open spec fn md5_rows(t: Seq<u16>, suited: bool, idx: Seq<int>) -> Seq<char>
    decreases idx.len(),
{
    if idx.len() == 0 {
        Seq::empty()
    } else {
        md5_rows(t, suited, idx.drop_last()) + md5_row(t[idx.last()], idx.last() as nat, key_hand(idx.last() as nat, suited))
    }
}

/// The line under a table head, and after the last row of the first table.
pub open spec fn md5_rule() -> Seq<char> {
    "|-------|-------|------------------------------|\n"@
}

/// The head of a table of the rankings.
pub open spec fn md5_head() -> Seq<char> {
    "| Rank  | Cards | Description                  |\n"@ + md5_rule()
}

/// The rankings of every hand of the tables as a markdown document: a table of the keys of spread
/// cards and one of the keys of one suit, each listing the keys with an order, by order.
pub open spec fn markdown5(allsuited: Seq<u16>, nonsuited: Seq<u16>) -> Seq<char> {
    "# Rankings of All 5-card Hands\n"@ + "\n"@
        + "This file contains the rankings of all 5-card hands, sorted by rank. The ranks are 1-based, with 0 being used for special cases (i.e. no hand).\n"@
        + "\n"@ + "## Non-Suited 5-card Hands\n"@ + "\n"@ + md5_head() + md5_rows(nonsuited, false, indices_upto(nonsuited, 0xffff))
        + md5_rule() + "\n"@ + "## All-Suited 5-card Hands\n"@ + "\n"@ + md5_head() + md5_rows(
        allsuited,
        true,
        indices_upto(allsuited, 0xffff),
    )
}

/// Orders above the largest entry pick no index.
proof fn lemma_indices_none(t: Seq<u16>, v: nat, n: nat)
    requires
        n <= t.len(),
        forall|i: int| 0 <= i < n ==> t[i] != v,
    ensures
        indices_with(t, v, n) == Seq::<int>::empty(),
    decreases n,
{
    if n > 0 {
        lemma_indices_none(t, v, (n - 1) as nat);
    }
}

/// Past the largest entry, the indices up to an order stay the same.
proof fn lemma_indices_upto_top(t: Seq<u16>, a: nat, v: nat)
    requires
        a <= v,
        forall|i: int| 0 <= i < t.len() ==> t[i] <= a,
    ensures
        indices_upto(t, v) == indices_upto(t, a),
    decreases v,
{
    if v > a {
        lemma_indices_upto_top(t, a, (v - 1) as nat);
        lemma_indices_none(t, v, t.len());
        assert(indices_upto(t, v) =~= indices_upto(t, (v - 1) as nat));
    }
}

/// Every index of the table holding an order is the key of a bag.
#[verifier::opaque]
pub open spec fn keys_of_bags(t: Seq<u16>, suited: bool) -> bool {
    forall|k: int| 0 <= k < t.len() && #[trigger] t[k] >= 1 ==> exists|m: Seq<usize>|
        from_bag(m, suited) && bag_code(m) == k
}

/// The row for the key `k` with order `order`.
fn push_row5(s: &mut String, order: u16, k: usize, suited: bool, engine_ref: &RefBest5)
    requires
        exists|m: Seq<usize>| from_bag(m, suited) && bag_code(m) == k,
    ensures
        final(s)@ == old(s)@ + md5_row(order, k as nat, key_hand(k as nat, suited)),
{
    let ghost m = choose|m: Seq<usize>| from_bag(m, suited) && bag_code(m) == k;
    proof {
        lemma_bag5_code_small(m);
        crate::combrs::bagspace::lemma_bag_roundtrip(m, 13, Seq::new(5, |i: int| 0usize));
    }
    let cards = KeyLutCard5::from_index(k);
    let ranks = cards.decode();
    assert(ranks@ == m);
    // cards with exactly these ranks, in hearts or spread over the suits
    let cards_possible = if suited {
        all_in_hearts(&ranks)
    } else {
        spread_over_suits(&ranks)
    };
    let hand_ref = engine_ref.best5(cards_possible).1;
    proof {
        assert(hand_ref == bag_hand5(m, suited));
        assert(hand_ref == key_hand(k as nat, suited)) by {
            reveal(key_hand);
        }
        lemma_count_below_mono(cards_possible.0, 52, 64);
        lemma_best5_displayable(cards_possible.0);
    }
    s.append("| ");
    push_pad_left(s, decimal(order as u64).as_str(), 5);
    s.append(" | ");
    push_pad_left(s, cards.to_rank_str().as_str(), 5);
    s.append(" | ");
    push_pad_right(s, hand_ref.to_string().as_str(), 28);
    s.append(" |\n");
    proof {
        assert(s@ =~= old(s)@ + md5_row(order, k as nat, key_hand(k as nat, suited)));
    }
}

/// The rows of a table, by order and then by key.
fn push_rows5(s: &mut String, table: &Vec<u16>, suited: bool, engine_ref: &RefBest5)
    requires
        keys_of_bags(table@, suited),
    ensures
        final(s)@ == old(s)@ + md5_rows(table@, suited, indices_upto(table@, 0xffff)),
{
    // the largest order
    let mut max_v: u16 = 0;
    let mut i: usize = 0;
    while i < table.len()
        invariant
            i <= table@.len(),
            forall|j: int| 0 <= j < i ==> table@[j] <= max_v,
        decreases table.len() - i,
    {
        if table[i] > max_v {
            max_v = table[i];
        }
        i = i + 1;
    }
    // every order in turn, and the keys holding it in increasing order
    let mut v: u32 = 1;
    while v <= max_v as u32
        invariant
            1 <= v <= max_v as u32 + 1,
            keys_of_bags(table@, suited),
                s@ == old(s)@ + md5_rows(table@, suited, indices_upto(table@, (v - 1) as nat)),
        decreases max_v as u32 + 1 - v,
    {
        let ghost before = s@;
        let mut i: usize = 0;
        while i < table.len()
            invariant
                i <= table@.len(),
                1 <= v <= 0xffff,
                keys_of_bags(table@, suited),
                        s@ == before + md5_rows(table@, suited, indices_with(table@, v as nat, i as nat)),
                before == old(s)@ + md5_rows(table@, suited, indices_upto(table@, (v - 1) as nat)),
            decreases table.len() - i,
        {
            if table[i] as u32 == v {
                proof {
                    reveal(keys_of_bags);
                    assert(table@[i as int] >= 1);
                }
                push_row5(s, table[i], i, suited, engine_ref);
            }
            proof {
                let w = indices_with(table@, v as nat, i as nat);
                if table@[i as int] == v {
                    let w2 = w + seq![i as int];
                    assert(w2.drop_last() =~= w);
                    assert(indices_with(table@, v as nat, (i + 1) as nat) == w2);
                } else {
                    assert(indices_with(table@, v as nat, (i + 1) as nat) =~= w);
                }
            }
            i = i + 1;
        }
        proof {
            lemma_md5_rows_append(table@, suited, indices_upto(table@, (v - 1) as nat), indices_with(table@, v as nat, table@.len()));
        }
        v = v + 1;
    }
    proof {
        lemma_indices_upto_top(table@, max_v as nat, 0xffff);
    }
}

/// The rows of two runs of indices, one after the other.
proof fn lemma_md5_rows_append(t: Seq<u16>, suited: bool, a: Seq<int>, b: Seq<int>)
    ensures
        md5_rows(t, suited, a + b) == md5_rows(t, suited, a) + md5_rows(t, suited, b),
    decreases b.len(),
{
    if b.len() == 0 {
        assert(a + b =~= a);
    } else {
        lemma_md5_rows_append(t, suited, a, b.drop_last());
        assert((a + b).drop_last() =~= a + b.drop_last());
        assert((a + b).last() == b.last());
    }
}

impl LutBest5 {
    /// The order of exactly five cards: from the table of one suit when they all share a suit,
    /// and from the table of spread cards otherwise, at the key of their ranks.
    pub fn find(&self, cards: CardMask) -> (r: Option<u16>)
        requires
            popcount(cards.0) == 5,
            bag_code(key_ranks(cards.0)) < self.table(one_suit(cards.0)).len(),
        ensures
            r == Some(self.table(one_suit(cards.0))[bag_code(key_ranks(cards.0)) as int]),
    {
        let bits = cards.to_bits();
        let bits_suit: u64 = 0b1111111111111;
        let is_suited = (bits & bits_suit == bits) || (bits & (bits_suit << 13u64) == bits) || (bits & (bits_suit
            << 26u64) == bits) || (bits & (bits_suit << 39u64) == bits);
        // the key of the ranks, whatever the suits
        let key = KeyLutCard5::from_cards(cards);
        proof {
            lemma_key_count_value();
        }
        let k = key.data as usize;
        if is_suited {
            assert(self.table(true) == self.allsuited@);
            Some(self.allsuited[k])
        } else {
            assert(self.table(false) == self.nonsuited@);
            Some(self.nonsuited[k])
        }
    }

    /// The rankings of every hand of the tables as a markdown document (see [markdown5]).
    pub fn write_markdown(&self) -> (r: String)
        requires
            self.keyed(),
        ensures
            r@ == markdown5(self.allsuited@, self.nonsuited@),
    {
        let engine_ref = RefBest5::new();
        proof {
            reveal(LutBest5::keyed);
            reveal(keys_of_bags);
            assert(keys_of_bags(self.nonsuited@, false)) by {
                assert forall|k: int| 0 <= k < self.nonsuited@.len() && #[trigger] self.nonsuited@[k] >= 1 implies exists|m: Seq<usize>|
                    from_bag(m, false) && bag_code(m) == k by {
                    assert(self.table(false)[k] >= 1);
                }
            }
            assert(keys_of_bags(self.allsuited@, true)) by {
                assert forall|k: int| 0 <= k < self.allsuited@.len() && #[trigger] self.allsuited@[k] >= 1 implies exists|m: Seq<usize>|
                    from_bag(m, true) && bag_code(m) == k by {
                    assert(self.table(true)[k] >= 1);
                }
            }
        }
        let mut s = String::new();
        s.append("# Rankings of All 5-card Hands\n");
        s.append("\n");
        s.append("This file contains the rankings of all 5-card hands, sorted by rank. The ranks are 1-based, with 0 being used for special cases (i.e. no hand).\n");
        s.append("\n");
        s.append("## Non-Suited 5-card Hands\n");
        s.append("\n");
        s.append("| Rank  | Cards | Description                  |\n");
        s.append("|-------|-------|------------------------------|\n");
        push_rows5(&mut s, &self.nonsuited, false, &engine_ref);
        s.append("|-------|-------|------------------------------|\n");
        s.append("\n");
        s.append("## All-Suited 5-card Hands\n");
        s.append("\n");
        s.append("| Rank  | Cards | Description                  |\n");
        s.append("|-------|-------|------------------------------|\n");
        push_rows5(&mut s, &self.allsuited, true, &engine_ref);
        proof {
            assert(s@ =~= markdown5(self.allsuited@, self.nonsuited@));
        }
        s
    }
}

/// Whether `idx` chooses `k` of the positions below `n`, in increasing order.
pub open spec fn choice_of(idx: Seq<usize>, k: nat, n: nat) -> bool {
    &&& idx.len() == k
    &&& forall|i: int| 0 <= i < idx.len() ==> (#[trigger] idx[i]) < n
    &&& forall|i: int, j: int| 0 <= i < j < idx.len() ==> idx[i] < idx[j]
}

/// Calls itertools' `combinations` on the items `0..n` and collects the combinations of `k` of
/// them. As its documentation and source show, these are all the increasing sequences of `k`
/// items below `n`, in increasing lexicographic order.
#[verifier::external_body]
fn index_subsets(n: usize, k: usize) -> (r: Vec<Vec<usize>>)
    ensures
        forall|j: int| 0 <= j < r.len() ==> choice_of((#[trigger] r[j])@, k as nat, n as nat),
        forall|s: Seq<usize>| #[trigger] choice_of(s, k as nat, n as nat) ==> exists|j: int|
            0 <= j < r.len() && (#[trigger] r[j])@ == s,
        forall|i: int, j: int| 0 <= i < j < r.len() ==> lex_less(r[i]@, r[j]@),
{
    (0..n).combinations(k).collect()
}

/// Whether `l` lists the cards `x`, lowest first.
pub open spec fn lists_cards(l: Seq<Card>, x: u64) -> bool {
    &&& l.len() == count_below(x, 52)
    &&& forall|j: int| 0 <= j < l.len() ==> bit(x, (#[trigger] l[j]).spec_index() as nat) && l[j].spec_index() < 52
    &&& forall|j: int, k: int| 0 <= j < k < l.len() ==> l[j].spec_index() < l[k].spec_index()
    &&& forall|i: nat| i < 52 && bit(x, i) ==> exists|j: int| 0 <= j < l.len() && #[trigger] l[j].spec_index() == i
}

/// Fifteen slots, holding the single cards of `l` in its order and nothing after them.
pub open spec fn card_slots(l: Seq<Card>) -> Seq<u64> {
    Seq::new(15, |i: int| if i < l.len() { single(l[i].spec_index() as nat) } else { 0u64 })
}

/// The cards of the slots chosen by `idx`, all together.
pub open spec fn pick_slots(slots: Seq<u64>, idx: Seq<usize>) -> u64
    decreases idx.len(),
{
    if idx.len() == 0 {
        0
    } else {
        pick_slots(slots, idx.drop_last()) | slots[idx.last() as int]
    }
}

/// Whether the tables give an order to exactly five cards `x`.
pub open spec fn lut5_finds(t: LutBest5, x: u64) -> bool {
    popcount(x) == 5 && bag_code(key_ranks(x)) < t.table(one_suit(x)).len()
}

/// The order that the tables give exactly five cards `x`.
pub open spec fn lut5_order(t: LutBest5, x: u64) -> u16 {
    t.table(one_suit(x))[bag_code(key_ranks(x)) as int]
}

/// The slots for the cards of `l`.
fn slots_of(list: &Vec<Card>) -> (r: Vec<CardMask>)
    requires
        list@.len() <= 15,
    ensures
        r@.len() == 15,
        forall|i: int| 0 <= i < 15 ==> (#[trigger] r@[i]).0 == card_slots(list@)[i],
{
    let mut cards_bits: Vec<CardMask> = Vec::new();
    let mut i: usize = 0;
    while i < 15
        invariant
            i <= 15,
            cards_bits@.len() == i,
            forall|j: int| 0 <= j < i ==> (#[trigger] cards_bits@[j]).0 == 0,
        decreases 15 - i,
    {
        cards_bits.push(CardMask::none());
        i = i + 1;
    }
    let mut idx: usize = 0;
    while idx < list.len()
        invariant
            idx <= list@.len(),
            list@.len() <= 15,
            cards_bits@.len() == 15,
            forall|j: int| 0 <= j < idx ==> (#[trigger] cards_bits@[j]).0 == single(list@[j].spec_index() as nat),
            forall|j: int| idx <= j < 15 ==> (#[trigger] cards_bits@[j]).0 == 0,
        decreases list.len() - idx,
    {
        cards_bits.set(idx, CardMask::from_single(list[idx]));
        idx = idx + 1;
    }
    cards_bits
}

impl Rank5 for LutBest5 {
    /// Exactly five cards that the tables find; or at most fifteen cards, every choice of five
    /// of which the tables find.
    open spec fn rank5_accepts(&self, cards: CardMask) -> bool {
        if popcount(cards.0) == 5 {
            lut5_finds(*self, cards.0)
        } else {
            &&& popcount(cards.0) <= 15
            &&& forall|l: Seq<Card>, idx: Seq<usize>|
                #![trigger lists_cards(l, cards.0), choice_of(idx, 5, popcount(cards.0))]
                lists_cards(l, cards.0) && choice_of(idx, 5, popcount(cards.0)) ==> lut5_finds(
                    *self,
                    pick_slots(card_slots(l), idx),
                )
        }
    }

    /// The order of five cards; for any other number, the highest order of the choices of five
    /// of them (0 when there are fewer than five).
    fn rank5(&self, cards: CardMask) -> (r: u16)
        ensures
            popcount(cards.0) == 5 ==> r == lut5_order(*self, cards.0),
            popcount(cards.0) != 5 ==> exists|l: Seq<Card>| #[trigger] lists_cards(l, cards.0) && {
                &&& forall|idx: Seq<usize>| #[trigger] choice_of(idx, 5, popcount(cards.0)) ==> lut5_order(
                    *self,
                    pick_slots(card_slots(l), idx),
                ) <= r
                &&& r == 0 || exists|idx: Seq<usize>| #[trigger] choice_of(idx, 5, popcount(cards.0)) && lut5_order(
                    *self,
                    pick_slots(card_slots(l), idx),
                ) == r
            },
    {
        if cards.count() == 5 {
            self.find(cards).unwrap()
        } else {
            // otherwise, every choice of five of the cards, keeping the highest order
            let n = cards.count();
            let mut best_rank: u16 = 0;
            let list = cards.iter();
            proof {
                crate::bits::lemma_count_below_bound(cards.0, 52);
                lemma_count_below_mono(cards.0, 52, 64);
            }
            proof {
                assert(list@.len() == count_below(cards.0, 52));
                assert forall|j: int| 0 <= j < list@.len() implies bit(cards.0, (#[trigger] list@[j]).spec_index() as nat) && list@[j].spec_index() < 52 by {
                    assert(cards.has(list@[j].spec_index() as nat));
                }
                assert forall|j: int, k: int| 0 <= j < k < list@.len() implies list@[j].spec_index() < list@[k].spec_index() by {}
                assert forall|i: nat| i < 52 && bit(cards.0, i) implies exists|j: int| 0 <= j < list@.len() && #[trigger] list@[j].spec_index() == i by {
                    assert(cards.has(i));
                }
            }
            let cards_bits = slots_of(&list);
            let ghost slots = card_slots(list@);
            let subsets = index_subsets(n, 5);
            let mut j: usize = 0;
            while j < subsets.len()
                invariant
                    j <= subsets@.len(),
                    n == popcount(cards.0),
                    n <= 15,
                    lists_cards(list@, cards.0),
                    slots == card_slots(list@),
                    cards_bits@.len() == 15,
                    forall|i: int| 0 <= i < 15 ==> (#[trigger] cards_bits@[i]).0 == slots[i],
                    forall|b: int| 0 <= b < subsets@.len() ==> choice_of((#[trigger] subsets@[b])@, 5, n as nat),
                    self.rank5_accepts(cards),
                    popcount(cards.0) != 5,
                    forall|b: int| 0 <= b < j ==> lut5_order(*self, pick_slots(slots, (#[trigger] subsets@[b])@)) <= best_rank,
                    best_rank == 0 || exists|b: int| 0 <= b < j && lut5_order(*self, pick_slots(slots, (#[trigger] subsets@[b])@)) == best_rank,
                decreases subsets.len() - j,
            {
                let subset = &subsets[j];
                let ghost idx = subset@;
                let mut subset_mask = CardMask::none();
                let mut t: usize = 0;
                while t < subset.len()
                    invariant
                        t <= subset@.len(),
                        subset@ == idx,
                        choice_of(idx, 5, n as nat),
                        n <= 15,
                        cards_bits@.len() == 15,
                        forall|i: int| 0 <= i < 15 ==> (#[trigger] cards_bits@[i]).0 == slots[i],
                        subset_mask.0 == pick_slots(slots, idx.take(t as int)),
                    decreases subset@.len() - t,
                {
                    proof {
                        assert(idx.take(t + 1).drop_last() =~= idx.take(t as int));
                    }
                    subset_mask = subset_mask.union(cards_bits[subset[t]]);
                    t = t + 1;
                }
                proof {
                    assert(idx.take(5) =~= idx);
                    assert(lists_cards(list@, cards.0) && choice_of(idx, 5, popcount(cards.0)));
                }
                let rank = self.find(subset_mask).unwrap();
                if rank > best_rank {
                    best_rank = rank;
                }
                j = j + 1;
            }
            proof {
                let l = list@;
                assert forall|idx: Seq<usize>| #[trigger] choice_of(idx, 5, popcount(cards.0)) implies lut5_order(
                    *self,
                    pick_slots(card_slots(l), idx),
                ) <= best_rank by {
                    let b = choose|b: int| 0 <= b < subsets.len() && (#[trigger] subsets@[b])@ == idx;
                }
                if best_rank != 0 {
                    let b = choose|b: int| 0 <= b < subsets@.len() && lut5_order(*self, pick_slots(slots, (#[trigger] subsets@[b])@)) == best_rank;
                    assert(choice_of(subsets@[b]@, 5, popcount(cards.0)));
                }
                assert(lists_cards(l, cards.0));
            }
            best_rank
        }
    }
}

/// Counting more positions counts no fewer.
proof fn lemma_count_below_mono(x: u64, a: nat, b: nat)
    requires
        a <= b,
    ensures
        count_below(x, a) <= count_below(x, b),
    decreases b,
{
    if b > a {
        lemma_count_below_mono(x, a, (b - 1) as nat);
    }
}


/// Whether `x` is exactly five cards of the deck.
pub open spec fn five_cards(x: u64) -> bool {
    popcount(x) == 5 && forall|i: nat| #[trigger] bit(x, i) ==> i < 52
}

/// The ranks below `n` number the cards of those ranks.
proof fn lemma_card_ranks_len(x: u64, n: nat)
    ensures
        card_ranks(x, n).len() == held(x, n),
    decreases n,
{
    if n > 0 {
        lemma_card_ranks_len(x, (n - 1) as nat);
    }
}

/// The ranks below `n` are below `n`, in increasing order.
proof fn lemma_card_ranks_sorted(x: u64, n: nat)
    ensures
        forall|i: int| 0 <= i < card_ranks(x, n).len() ==> (#[trigger] card_ranks(x, n)[i]) < n,
        forall|i: int, j: int| 0 <= i <= j < card_ranks(x, n).len() ==> card_ranks(x, n)[i] <= card_ranks(x, n)[j],
    decreases n,
{
    if n > 0 {
        let a = card_ranks(x, (n - 1) as nat);
        let l = card_ranks(x, n);
        lemma_card_ranks_sorted(x, (n - 1) as nat);
        assert forall|i: int| 0 <= i < l.len() implies (#[trigger] l[i]) < n && (i < a.len() ==> l[i] == a[i]) && (i
            >= a.len() ==> l[i] == n - 1) by {}
    }
}

/// The ranks below `n` begin with those below `a`, and the ranks that follow are at least `a`.
proof fn lemma_card_ranks_split(x: u64, a: nat, n: nat)
    requires
        a <= n,
    ensures
        forall|i: int| 0 <= i < card_ranks(x, n).len() ==> ((i < card_ranks(x, a).len()) == (#[trigger] card_ranks(
            x,
            n,
        )[i] < a)),
        card_ranks(x, a).len() <= card_ranks(x, n).len(),
    decreases n,
{
    lemma_card_ranks_sorted(x, a);
    if n > a {
        lemma_card_ranks_split(x, a, (n - 1) as nat);
        let p = card_ranks(x, (n - 1) as nat);
        let l = card_ranks(x, n);
        assert forall|i: int| 0 <= i < l.len() implies ((i < card_ranks(x, a).len()) == (#[trigger] l[i] < a)) by {
            if i < p.len() {
                assert(l[i] == p[i]);
            }
        }
    }
}

/// Cards whose ranks, lowest first, are the same hold each rank the same number of times.
proof fn lemma_card_ranks_same_ranks(x: u64, y: u64)
    requires
        card_ranks(x, 13) == card_ranks(y, 13),
    ensures
        same_ranks(x, y),
{
    let l = card_ranks(x, 13);
    assert forall|r: nat| r < 13 implies #[trigger] rank_count(x, r) == rank_count(y, r) by {
        lemma_card_ranks_split(x, r, 13);
        lemma_card_ranks_split(y, r, 13);
        lemma_card_ranks_split(x, r + 1, 13);
        lemma_card_ranks_split(y, r + 1, 13);
        let bx = card_ranks(x, r).len();
        let by_ = card_ranks(y, r).len();
        let cx = card_ranks(x, r + 1).len();
        let cy = card_ranks(y, r + 1).len();
        if bx < by_ {
            assert(l[bx as int] < r);
        }
        if by_ < bx {
            assert(l[by_ as int] < r);
        }
        if cx < cy {
            assert(l[cx as int] < r + 1);
        }
        if cy < cx {
            assert(l[cy as int] < r + 1);
        }
    }
}

/// Five cards of the deck have five ranks, lowest first, that a deck deals, and key by them.
proof fn lemma_five_cards_key(x: u64)
    requires
        five_cards(x),
    ensures
        count_below(x, 52) == 5,
        key_ranks(x) == card_ranks(x, 13),
        valid5(card_ranks(x, 13)),
{
    assert forall|i: nat| 52 <= i < 64 implies !#[trigger] bit(x, i) by {}
    crate::bits::lemma_count_below_full(x, 52, 64);
    lemma_held_count(x);
    lemma_card_ranks_len(x, 13);
    lemma_card_ranks_sorted(x, 13);
    let l = card_ranks(x, 13);
    assert(five_of(l) =~= l);
    if l[0] == l[4] {
        let r = l[0] as nat;
        assert forall|i: int| 0 <= i < 5 implies #[trigger] l[i] == r by {
            assert(l[0] <= l[i] <= l[4]);
        }
        lemma_card_ranks_split(x, r, 13);
        lemma_card_ranks_split(x, r + 1, 13);
        assert(card_ranks(x, r).len() == 0) by {
            if card_ranks(x, r).len() > 0 {
                assert(l[0] < r);
            }
        }
        assert(card_ranks(x, r + 1).len() == 5) by {
            if card_ranks(x, r + 1).len() < 5 {
                assert(!(l[card_ranks(x, r + 1).len() as int] < r + 1));
            }
        }
        assert(card_ranks(x, r + 1).len() == card_ranks(x, r).len() + rank_count(x, r));
    }
}

/// What spreading the first `i` ranks of a bag over the suits makes: `i` cards of the deck with
/// exactly those ranks, the first in hearts and the second in diamonds.
proof fn lemma_spread_facts(m: Seq<usize>, i: nat)
    requires
        valid5(m),
        i <= 5,
    ensures
        popcount(spread_cards(m, i)) == i,
        card_ranks(spread_cards(m, i), 13) == m.take(i as int),
        i == 0 ==> spread_cards(m, i) == 0,
        i > 0 ==> forall|r2: nat| m[i - 1] < r2 < 13 ==> rank_count(spread_cards(m, i), r2) == 0,
        forall|b: nat| #[trigger] bit(spread_cards(m, i), b) ==> b < 52,
        i >= 1 ==> bit(spread_cards(m, i), card_at(m[0] as nat, 1)),
        i >= 2 ==> bit(spread_cards(m, i), card_at(m[1] as nat, 3)),
    decreases i,
{
    if i == 0 {
        crate::bits::lemma_count_below_zero(64);
        assert forall|r2: nat| r2 < 13 implies rank_count(0, r2) == 0 by {
            lemma_bit_ops(0, 0, r2);
            lemma_bit_ops(0, 0, r2 + 13);
            lemma_bit_ops(0, 0, r2 + 26);
            lemma_bit_ops(0, 0, r2 + 39);
        }
        lemma_card_ranks_top(0, 0, 13);
        assert(card_ranks(0, 13) =~= m.take(0));
        assert forall|b: nat| #[trigger] bit(spread_cards(m, 0), b) implies b < 52 by {
            lemma_bit_ops(0, 0, b);
        }
    } else {
        let j = (i - 1) as nat;
        lemma_spread_facts(m, j);
        let x = spread_cards(m, j);
        let r = m[j as int] as nat;
        lemma_spread_room(m, j, x);
        lemma_free_try_exists(x, r, j);
        lemma_free_try_held(x, r, j, 0);
        let t = free_try(x, r, j, 0);
        let su = cycle_suit(j + t);
        let c = card_at(r, su);
        assert(spread_cards(m, i) == x | single(c));
        crate::bits::lemma_count_below_add(x, c, 64);
        if j > 0 {
            assert(m[j - 1] <= m[j as int]);
        } else {
            assert forall|r2: nat| r < r2 < 13 implies rank_count(x, r2) == 0 by {
                lemma_bit_ops(0, 0, r2);
                lemma_bit_ops(0, 0, r2 + 13);
                lemma_bit_ops(0, 0, r2 + 26);
                lemma_bit_ops(0, 0, r2 + 39);
            }
        }
        lemma_card_ranks_push(x, r, su);
        assert(m.take(j as int).push(m[j as int]) =~= m.take(i as int));
        assert forall|b: nat| #[trigger] bit(x | single(c), b) == (bit(x, b) || b == c) by {
            lemma_bit_ops(x, single(c), b);
            lemma_bit_single(c, b);
        }
        if i == 1 {
            lemma_bit_ops(0, 0, card_at(r, 1));
            lemma_free_try_found(x, r, 0, 0, 0);
        }
        if i == 2 {
            let c0 = card_at(m[0] as nat, 1);
            lemma_bit_ops(0, 0, c0);
            lemma_free_try_found(0, m[0] as nat, 0, 0, 0);
            assert(cycle_suit(0) == 1);
            assert(spread_cards(m, 0) == 0);
            assert(x == 0 | single(c0));
            lemma_bit_ops(0, single(c0), card_at(r, 3));
            lemma_bit_single(c0, card_at(r, 3));
            lemma_bit_ops(0, 0, card_at(r, 3));
            lemma_free_try_found(x, r, 1, 0, 0);
        }
    }
}

/// Five cards with cards of two different suits have no five of one suit.
proof fn lemma_no_flush_of(x: u64, c1: nat, c2: nat)
    requires
        count_below(x, 52) <= 5,
        c1 < 52,
        c2 < 52,
        c1 / 13 != c2 / 13,
        bit(x, c1),
        bit(x, c2),
    ensures
        no_flush(x),
{
    let f = 0xf_ffff_ffff_ffffu64;
    assert forall|s: nat| s < 4 implies count_below(#[trigger] suit_ranks(x, s) as u64, 16) < 5 && count_below(
        x & suit_column(s),
        52,
    ) < 5 by {
        let z = x & suit_column(s);
        lemma_suit_count(x, s);
        assert forall|b: nat| b < 52 && #[trigger] bit(z, b) implies bit(x, b) by {
            lemma_bit_ops(x, suit_column(s), b);
        }
        lemma_count_remove(x, z, 52);
        // one of the two cards lies outside suit `s`, and stays when `s` is taken out
        let c = if c1 / 13 != s { c1 } else { c2 };
        lemma_suit_column_bit(s, c);
        lemma_bit_ops(x, suit_column(s), c);
        lemma_bit_ops(x, f ^ z, c);
        lemma_bit_ops(f, z, c);
        lemma_full_bits(c);
        crate::bits::lemma_count_at_least(x & (f ^ z), 52, set![c]);
    }
}

/// Five cards of the deck not all of one suit have no five of one suit.
proof fn lemma_no_flush_mixed(x: u64)
    requires
        five_cards(x),
        !one_suit(x),
    ensures
        no_flush(x),
{
    let f = 0xf_ffff_ffff_ffffu64;
    lemma_five_cards_key(x);
    assert forall|s: nat| s < 4 implies count_below(#[trigger] suit_ranks(x, s) as u64, 16) < 5 && count_below(
        x & suit_column(s),
        52,
    ) < 5 by {
        let z = x & suit_column(s);
        lemma_suit_count(x, s);
        assert forall|b: nat| b < 52 && #[trigger] bit(z, b) implies bit(x, b) by {
            lemma_bit_ops(x, suit_column(s), b);
        }
        lemma_count_remove(x, z, 52);
        if count_below(z, 52) >= 5 {
            // nothing of `x` lies outside suit `s`, so `x` is all of one suit
            crate::bits::lemma_count_zero_bits(x & (f ^ z), 52);
            assert forall|b: nat| b < 64 implies #[trigger] bit(z, b) == bit(x, b) by {
                lemma_bit_ops(x, suit_column(s), b);
                if b < 52 {
                    lemma_bit_ops(x, f ^ z, b);
                    lemma_bit_ops(f, z, b);
                    lemma_full_bits(b);
                }
            }
            crate::bits::lemma_bits_ext(z, x);
            if s == 0 {
                assert(suit_column(0) == 0x1fffu64) by {
                    assert(0x1fffu64 << 0u64 == 0x1fffu64) by (bit_vector);
                }
            }
            assert(one_suit(x));
        }
    }
}

/// Five cards of more than one suit have the hand of their ranks spread over the suits.
proof fn lemma_spread_reference(x: u64)
    requires
        five_cards(x),
        !one_suit(x),
    ensures
        valid5(card_ranks(x, 13)),
        key_ranks(x) == card_ranks(x, 13),
        ref_best5(x).1 == spread_hand(card_ranks(x, 13)),
{
    lemma_five_cards_key(x);
    let m = card_ranks(x, 13);
    lemma_spread_facts(m, 5);
    let z = spread_cards(m, 5);
    assert(m.take(5) =~= m);
    lemma_card_ranks_same_ranks(x, z);
    lemma_no_flush_mixed(x);
    assert forall|i: nat| 52 <= i < 64 implies !#[trigger] bit(z, i) by {}
    crate::bits::lemma_count_below_full(z, 52, 64);
    lemma_no_flush_of(z, card_at(m[0] as nat, 1), card_at(m[1] as nat, 3));
    lemma_best5_same_ranks(x, z);
}

/// What putting the first `i` ranks of a bag of different ranks in hearts makes: `i` hearts with
/// exactly those ranks.
proof fn lemma_hearts_facts(m: Seq<usize>, i: nat)
    requires
        valid5(m),
        distinct_upto(m, 5),
        i <= 5,
    ensures
        popcount(hearts_cards(m, i)) == i,
        card_ranks(hearts_cards(m, i), 13) == m.take(i as int),
        forall|b: nat| #[trigger] bit(hearts_cards(m, i), b) == (13 <= b < 26 && exists|j: int| 0 <= j < i && m[j] + 13 == b),
    decreases i,
{
    if i == 0 {
        crate::bits::lemma_count_below_zero(64);
        assert forall|r2: nat| r2 < 13 implies rank_count(0, r2) == 0 by {
            lemma_bit_ops(0, 0, r2);
            lemma_bit_ops(0, 0, r2 + 13);
            lemma_bit_ops(0, 0, r2 + 26);
            lemma_bit_ops(0, 0, r2 + 39);
        }
        lemma_card_ranks_top(0, 0, 13);
        assert(card_ranks(0, 13) =~= m.take(0));
        assert forall|b: nat| #[trigger] bit(hearts_cards(m, 0), b) == (13 <= b < 26 && exists|j: int| 0 <= j < 0 && m[j] + 13 == b) by {
            lemma_bit_ops(0, 0, b);
        }
    } else {
        let k = (i - 1) as nat;
        lemma_hearts_facts(m, k);
        let h = hearts_cards(m, k);
        let r = m[k as int] as nat;
        let hc = card_at(r, 1);
        assert forall|b: nat| #[trigger] bit(h | single(hc), b) == (13 <= b < 26 && exists|j: int| 0 <= j < i && m[j] + 13 == b) by {
            lemma_bit_ops(h, single(hc), b);
            lemma_bit_single(hc, b);
            if bit(h | single(hc), b) && b == hc {
                assert(m[k as int] + 13 == b);
            }
        }
        assert(!bit(h, hc)) by {
            if bit(h, hc) {
                let j = choose|j: int| 0 <= j < k && m[j] + 13 == hc;
                assert(m[j] == m[k as int]);
            }
        }
        crate::bits::lemma_count_below_add(h, hc, 64);
        assert forall|r2: nat| r < r2 < 13 implies rank_count(h, r2) == 0 by {
            assert(!bit(h, r2));
            assert(!bit(h, r2 + 26));
            assert(!bit(h, r2 + 39));
            if bit(h, r2 + 13) {
                let j = choose|j: int| 0 <= j < k && m[j] + 13 == r2 + 13;
                assert(m[j] <= m[k as int]);
            }
        }
        lemma_card_ranks_push(h, r, 1);
        assert(m.take(k as int).push(m[k as int]) =~= m.take(i as int));
    }
}

/// Five cards, no rank twice, have five different ranks.
proof fn lemma_distinct_ranks(x: u64)
    requires
        five_cards(x),
        forall|r: nat| r < 13 ==> #[trigger] rank_count(x, r) <= 1,
    ensures
        distinct_upto(card_ranks(x, 13), 5),
{
    lemma_five_cards_key(x);
    let l = card_ranks(x, 13);
    assert forall|a: int, b: int| 0 <= a < b < 5 implies l[a] != l[b] by {
        if l[a] == l[b] {
            let r = l[a] as nat;
            lemma_card_ranks_sorted(x, 13);
            lemma_card_ranks_split(x, r, 13);
            lemma_card_ranks_split(x, r + 1, 13);
            assert(card_ranks(x, r + 1).len() == card_ranks(x, r).len() + rank_count(x, r));
            assert(rank_count(x, r) <= 1);
        }
    }
}

/// Five cards all of one suit lie in the block of that suit.
proof fn lemma_one_suit_block(x: u64) -> (s: nat)
    requires
        one_suit(x),
    ensures
        s < 4,
        in_suit(x, s),
{
    let s: nat = if x & 0x1fffu64 == x {
        0
    } else if x & (0x1fffu64 << 13u64) == x {
        1
    } else if x & (0x1fffu64 << 26u64) == x {
        2
    } else {
        3
    };
    assert(suit_column(0) == 0x1fffu64) by {
        assert(0x1fffu64 << 0u64 == 0x1fffu64) by (bit_vector);
    }
    assert(x & suit_column(s) == x);
    assert forall|b: nat| #[trigger] bit(x, b) implies 13 * s <= b < 13 * s + 13 by {
        lemma_bit_ops(x, suit_column(s), b);
        lemma_suit_column_bit(s, b);
    }
    s
}

/// Five cards have the hand of their ranks in the table they key: spread over the suits for
/// cards of more than one suit, and in hearts for cards all of one suit.
pub proof fn lemma_reference_hand(x: u64)
    requires
        five_cards(x),
    ensures
        from_bag(card_ranks(x, 13), one_suit(x)),
        key_ranks(x) == card_ranks(x, 13),
        ref_best5(x).1 == bag_hand5(card_ranks(x, 13), one_suit(x)),
{
    lemma_five_cards_key(x);
    let m = card_ranks(x, 13);
    if !one_suit(x) {
        lemma_spread_reference(x);
    } else {
        let s = lemma_one_suit_block(x);
        lemma_in_suit_facts(x, s);
        lemma_distinct_ranks(x);
        lemma_hearts_facts(m, 5);
        let z = hearts_cards(m, 5);
        assert(m.take(5) =~= m);
        assert forall|b: nat| #[trigger] bit(z, b) implies 13 * 1 <= b < 13 * 1 + 13 by {}
        assert forall|i: nat| 52 <= i < 64 implies !#[trigger] bit(z, i) by {}
        crate::bits::lemma_count_below_full(z, 52, 64);
        lemma_in_suit_facts(z, 1);
        lemma_suit_count(x, s);
        lemma_suit_count(z, 1);
        lemma_card_ranks_same_ranks(x, z);
        lemma_same_all_ranks(x, z);
        lemma_best5_in_suit(x, s);
        lemma_best5_in_suit(z, 1);
    }
}

/// The ranks of some cards, lowest first, are those of other cards exactly when they hold as
/// many cards of each rank.
pub proof fn lemma_card_ranks_counts(x: u64, y: u64, n: nat)
    requires
        n <= 13,
    ensures
        (card_ranks(x, n) == card_ranks(y, n)) == (forall|q: nat| q < n ==> #[trigger] rank_count(x, q) == rank_count(y, q)),
    decreases n,
{
    if n > 0 {
        let p = (n - 1) as nat;
        lemma_card_ranks_counts(x, y, p);
        lemma_card_ranks_sorted(x, p);
        lemma_card_ranks_sorted(y, p);
        let a = card_ranks(x, p);
        let b = card_ranks(y, p);
        let cx = Seq::new(rank_count(x, p), |i: int| p as usize);
        let cy = Seq::new(rank_count(y, p), |i: int| p as usize);
        let lx = card_ranks(x, n);
        let ly = card_ranks(y, n);
        assert(lx == a + cx);
        assert(ly == b + cy);
        if lx == ly {
            if a.len() < b.len() {
                if cx.len() > 0 {
                    assert(lx[a.len() as int] == p as usize);
                    assert(ly[a.len() as int] == b[a.len() as int]);
                }
                assert(false);
            } else if b.len() < a.len() {
                if cy.len() > 0 {
                    assert(ly[b.len() as int] == p as usize);
                    assert(lx[b.len() as int] == a[b.len() as int]);
                }
                assert(false);
            }
            assert(a =~= lx.take(a.len() as int));
            assert(b =~= ly.take(b.len() as int));
            assert(rank_count(x, p) == rank_count(y, p));
            assert forall|q: nat| q < n implies #[trigger] rank_count(x, q) == rank_count(y, q) by {
                if q < p {
                    assert(a == b);
                }
            }
        }
        if forall|q: nat| q < n ==> #[trigger] rank_count(x, q) == rank_count(y, q) {
            assert(forall|q: nat| q < p ==> #[trigger] rank_count(x, q) == rank_count(y, q));
            assert(rank_count(x, p) == rank_count(y, p));
            assert(cx =~= cy);
        }
    }
}

/// The key of five cards decodes to their ranks, lowest first; and two sets of five cards have
/// the same key exactly when they hold the same ranks, as many cards of each, whatever their
/// suits.
pub proof fn lemma_key_roundtrip(x: u64, y: u64)
    requires
        five_cards(x),
        five_cards(y),
    ensures
        key_items(bag_code(key_ranks(x))) == card_ranks(x, 13),
        (bag_code(key_ranks(x)) == bag_code(key_ranks(y))) == (card_ranks(x, 13) == card_ranks(y, 13)),
        (bag_code(key_ranks(x)) == bag_code(key_ranks(y))) == (forall|q: nat| q < 13 ==> #[trigger] rank_count(x, q) == rank_count(y, q)),
{
    lemma_card_ranks_counts(x, y, 13);
    lemma_five_cards_key(x);
    lemma_five_cards_key(y);
    let m = card_ranks(x, 13);
    lemma_bag_roundtrip(m, 13, Seq::new(5, |i: int| 0usize));
    if bag_code(key_ranks(x)) == bag_code(key_ranks(y)) {
        lemma_bag_code_injective(m, card_ranks(y, 13), 13);
    }
}

/// The tables rank five cards as the reference engine does: of two sets of five cards, whichever
/// tables they are keyed in, the one with the stronger hand has the higher order, and the one
/// with the higher order the stronger hand.
pub proof fn lemma_find_follows_reference(t: LutBest5, x: u64, y: u64)
    requires
        t.covers(),
        t.ordered(),
        five_cards(x),
        five_cards(y),
    ensures
        lut5_finds(t, x),
        hand_code(ref_best5(x).1) < hand_code(ref_best5(y).1) <==> lut5_order(t, x) < lut5_order(t, y),
{
    lemma_reference_hand(x);
    lemma_reference_hand(y);
    lemma_five_cards_key(x);
    lemma_five_cards_key(y);
    let sx = one_suit(x);
    let sy = one_suit(y);
    let mx = card_ranks(x, 13);
    let my = card_ranks(y, 13);
    reveal(LutBest5::covers);
    reveal(LutBest5::ordered);
    assert(from_bag(mx, sx) && from_bag(my, sy));
    assert(t.order_of(mx, sx) == lut5_order(t, x));
    assert(t.order_of(my, sy) == lut5_order(t, y));
}

} // verus!

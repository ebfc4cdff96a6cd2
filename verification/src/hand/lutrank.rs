//! A lookup-table engine ranking every hand of seven cards or fewer: each possible bag of ranks
//! gets the order of its best hand among all hands, so that ranking cards is a table lookup.
//!
//! A bag is a sorted sequence of seven symbols, 0 for no card and `1 + i` for the rank at
//! position `i`; fewer than seven cards leave zeros in front. The table of bags holds the hands
//! of cards spread over the suits so that no flush forms; a second table, keyed by the ranks of
//! five or more cards of one suit, holds the flushes and straight flushes.

use vstd::prelude::*;
use vstd::set_lib::{lemma_int_range, lemma_len_subset, set_int_range};
use std::collections::BTreeMap;
use itertools::Itertools;
use crate::bits::{bit, count_below, single, lemma_count_below_zero, lemma_bit_ops, lemma_bit_single};
use crate::combrs::bagspace::{lemma_bag_code_below, BagSpace, SetSpace, bag_code, bag_code_fits, sorted_bag, lemma_bag_code_injective};
use crate::combrs::{binom_fits, comb, lemma_comb_monotone};
use crate::deck::{Card, CardMask, Rank, RankMask, Suit, all_ranks, suit_ranks, rank_count};
use crate::hand::{Hand, Hand5, Rank5, hand_code, hand_text, displayable, lemma_hand_code_injective};
use crate::text::{dec_text, pad_left, pad_right, decimal, push_pad_left, push_pad_right};
use crate::hand::refhand5::{RefHand5, ref_hand5, suit_len, lemma_ref_hand5_displayable, lemma_ref_hand5_fits};
use crate::hand::compact::{hand_fits, hand_index, lemma_hand_index_bound, lemma_hand_index_injective, lemma_seven_bags};
use crate::hand::keys::{sorted_keys, strictly_increasing};

verus! {

/// Whether `a` comes before `b` in lexicographic order.
pub open spec fn lex_less(a: Seq<usize>, b: Seq<usize>) -> bool {
    exists|i: int| 0 <= i < a.len() && i < b.len() && a.take(i) == b.take(i) && a[i] < b[i]
}

/// Calls itertools' `combinations_with_replacement` on the items `0..n` and collects the
/// combinations of `k` items. As its documentation and source show, these are all the sorted
/// sequences of `k` items below `n`, each once, in increasing lexicographic order.
#[verifier::external_body]
pub(crate) fn sorted_bags(n: usize, k: usize) -> (r: Vec<Vec<usize>>)
    ensures
        forall|j: int| 0 <= j < r.len() ==> (#[trigger] r[j])@.len() == k && sorted_bag(r[j]@, n as nat),
        forall|s: Seq<usize>|
            s.len() == k && #[trigger] sorted_bag(s, n as nat) ==> exists|j: int|
                0 <= j < r.len() && (#[trigger] r[j])@ == s,
        forall|i: int, j: int| 0 <= i < j < r.len() ==> lex_less(r[i]@, r[j]@),
{
    (0..n).combinations_with_replacement(k).collect()
}

/// Whether a sorted bag holds five cards of one rank, which no deck allows.
pub open spec fn five_alike(m: Seq<usize>) -> bool {
    exists|j: int| 0 <= j && j + 4 < m.len() && m[j] >= 1 && #[trigger] m[j] == m[j + 4]
}

/// Whether `m` is a bag of the table: seven sorted symbols, without five cards of one rank.
pub open spec fn valid_bag(m: Seq<usize>) -> bool {
    &&& m.len() == 7
    &&& sorted_bag(m, 14)
    &&& !five_alike(m)
}

/// The suit given to the next card of rank `r` among the suits below `n`: of the suits not yet
/// holding that rank in `c`, the one holding fewest cards, the first on a tie.
pub open spec fn pick_below(c: u64, r: nat, n: nat) -> Option<nat>
    decreases n,
{
    if n == 0 {
        None
    } else {
        let s = (n - 1) as nat;
        let p = pick_below(c, r, s);
        if bit(c, r + 13 * s) {
            p
        } else {
            match p {
                None => Some(s),
                Some(b) => if suit_len(c, s) < suit_len(c, b) {
                    Some(s)
                } else {
                    Some(b)
                },
            }
        }
    }
}

/// The cards for the symbols of `m`, taken in order: no card for a 0, and a card of the rank in
/// the suit that [pick_below] gives for the others.
pub open spec fn place(m: Seq<usize>) -> u64
    decreases m.len(),
{
    if m.len() == 0 {
        0
    } else {
        let c = place(m.drop_last());
        let v = m.last();
        if v == 0 {
            c
        } else {
            match pick_below(c, (v - 1) as nat, 4) {
                Some(s) => c | single(((v - 1) + 13 * s) as nat),
                None => c,
            }
        }
    }
}

/// The cards of the ranks `r`, all of hearts.
pub open spec fn hearts(r: u16) -> u64 {
    (r as u64) << 13u64
}

/// Whether the cards placed for `m` hold five ranks or more.
pub open spec fn has_suited(m: Seq<usize>) -> bool {
    count_below(all_ranks(place(m)) as u64, 16) >= 5
}

/// The key of the ranks of `m` in the table of flushes.
pub open spec fn suited_key(m: Seq<usize>) -> u16 {
    all_ranks(place(m))
}

/// The hand of the ranks `k` all of one suit.
pub open spec fn suited_hand(k: u16) -> Hand {
    ref_hand5(hearts(k))
}

/// The hand of the cards placed for `m`.
pub open spec fn bag_hand(m: Seq<usize>) -> Hand {
    ref_hand5(place(m))
}


/// The index of a bag of the table and each of its terms fit in a `usize`.
proof fn lemma_bag_fits(m: Seq<usize>)
    requires
        m.len() == 7,
        sorted_bag(m, 14),
    ensures
        bag_code_fits(m),
        bag_code(m) < 0x1_0000_0,
{
    vstd::arithmetic::power2::lemma2_to64();
    assert forall|i: int| 0 <= i < m.len() implies binom_fits(((#[trigger] m[i]) + i) as nat, (i + 1) as nat) by {
        let n = (m[i] + i) as nat;
        assert(n <= 19);
        assert forall|j: nat| j < i + 1 && j <= n implies #[trigger] comb(n, j) * (n - j) <= usize::MAX by {
            crate::combrs::lemma_comb_pow2(n, j);
            vstd::arithmetic::power2::lemma_pow2_strictly_increases(n, 20);
            let c = comb(n, j);
            assert(c * (n - j) <= 0x10_0000 * 20) by (nonlinear_arith)
                requires
                    c <= 0x10_0000,
                    n - j <= 20,
                    n >= j,
            ;
        }
    }
    crate::combrs::bagspace::lemma_bag_code_bounds(m, 14, 7);
    assert(m.take(7) =~= m);
    crate::combrs::lemma_comb_pow2((m[6] + 7) as nat, 7);
    if m[6] + 7 < 20 {
        vstd::arithmetic::power2::lemma_pow2_strictly_increases((m[6] + 7) as nat, 20);
    }
}

/// Whether the sorted bag holds five cards of one rank.
fn has_five_alike(m: &Vec<usize>) -> (r: bool)
    ensures
        r == five_alike(m@),
{
    if m.len() < 5 {
        return false;
    }
    let mut j: usize = 0;
    while j < m.len() - 4
        invariant
            m@.len() >= 5,
            forall|t: int| 0 <= t < j && t + 4 < m@.len() ==> !(m@[t] >= 1 && #[trigger] m@[t] == m@[t + 4]),
        decreases m.len() - j,
    {
        if m[j] >= 1 && m[j] == m[j + 4] {
            return true;
        }
        j = j + 1;
    }
    false
}

/// The suit for the next card of rank `rank` (see [pick_below]).
fn pick_suit(cards: CardMask, rank: Rank) -> (r: Option<Suit>)
    ensures
        r is Some <==> pick_below(cards.0, rank.spec_index(), 4) is Some,
        r matches Some(s) ==> pick_below(cards.0, rank.spec_index(), 4) == Some(s.spec_index()),
{
    let ri = rank.index() as u64;
    let mut best: Option<(Suit, usize)> = None;
    let mut s: u8 = 0;
    while s < 4
        invariant
            s <= 4,
            ri == rank.spec_index(),
            ri < 13,
            best is Some <==> pick_below(cards.0, ri as nat, s as nat) is Some,
            best matches Some((b, c)) ==> pick_below(cards.0, ri as nat, s as nat) == Some(b.spec_index())
                && c == suit_len(cards.0, b.spec_index()),
        decreases 4 - s,
    {
        let suit = Suit::from_index(s);
        let held = (cards.0 >> (ri + 13 * (s as u64))) & 1 == 1;
        if !held {
            let c = cards.of_suit(suit).count();
            match best {
                None => {
                    best = Some((suit, c));
                },
                Some((_, bc)) => {
                    if c < bc {
                        best = Some((suit, c));
                    }
                },
            }
        }
        s = s + 1;
    }
    match best {
        Some((b, _)) => Some(b),
        None => None,
    }
}

/// The cards for the symbols of the bag (see [place]).
fn place_cards(m: &Vec<usize>) -> (r: CardMask)
    requires
        forall|i: int| 0 <= i < m@.len() ==> (#[trigger] m@[i]) < 14,
    ensures
        r.0 == place(m@),
{
    let mut cards = CardMask::none();
    let mut i: usize = 0;
    while i < m.len()
        invariant
            i <= m@.len(),
            forall|t: int| 0 <= t < m@.len() ==> (#[trigger] m@[t]) < 14,
            cards.0 == place(m@.take(i as int)),
        decreases m.len() - i,
    {
        proof {
            assert(m@.take(i + 1).drop_last() =~= m@.take(i as int));
        }
        let v = m[i];
        if v != 0 {
            let rank = Rank::from_index((v - 1) as u8);
            match pick_suit(cards, rank) {
                Some(suit) => {
                    cards = cards.union(CardMask::from_single(Card::new(rank, suit)));
                },
                None => {},
            }
        }
        i = i + 1;
    }
    proof {
        assert(m@.take(m@.len() as int) =~= m@);
    }
    cards
}


/// The hands found so far, keyed by strength: each hand with the keys of the bags and of the
/// suited ranks that give it.
pub type HandMap = BTreeMap<u64, (Hand, Vec<u64>, Vec<u64>)>;

/// Every entry of the map is keyed by the strength of its hand, which can be written out, and
/// every key it lists comes
/// from a bag of the table, or from a set of suited ranks, whose hand it is.
pub open spec fn entries_sound(map: Map<u64, (Hand, Vec<u64>, Vec<u64>)>) -> bool {
    &&& forall|s: u64| #[trigger] map.contains_key(s) ==> hand_code(map[s].0) == s && displayable(map[s].0)
        && hand_fits(map[s].0) && map[s].1@.len() + map[s].2@.len() > 0
    &&& forall|s: u64, t: int|
        map.contains_key(s) && 0 <= t < map[s].1@.len() ==> exists|m: Seq<usize>|
            #[trigger] valid_bag(m) && bag_code(m) == (#[trigger] map[s].1@[t]) && hand_code(
                bag_hand(m),
            ) == s
    &&& forall|s: u64, t: int|
        map.contains_key(s) && 0 <= t < map[s].2@.len() ==> (#[trigger] map[s].2@[t]) < 0x2000
            && count_below(map[s].2@[t], 16) >= 5
            && hand_code(suited_hand(map[s].2@[t] as u16)) == s
}

/// Every bag of the table among the first `j` is listed under its hand, and so are its suited
/// ranks when it has five or more.
pub open spec fn entries_cover(
    map: Map<u64, (Hand, Vec<u64>, Vec<u64>)>,
    bags: Seq<Vec<usize>>,
    j: int,
) -> bool {
    forall|b: int|
        0 <= b < j && valid_bag(#[trigger] bags[b]@) ==> {
            let m = bags[b]@;
            let s = hand_code(bag_hand(m)) as u64;
            let u = hand_code(suited_hand(suited_key(m))) as u64;
            &&& map.contains_key(s)
            &&& map[s].1@.contains(bag_code(m) as u64)
            &&& has_suited(m) ==> map.contains_key(u) && map[u].2@.contains(suited_key(m) as u64)
        }
}

/// The strength of a hand as a key of the map.
pub open spec fn strength_key(h: Hand) -> u64 {
    hand_code(h) as u64
}

/// Records `key` under `hand`: among the bag keys, or among the suited keys when `suited`.
pub(crate) fn record(map: &mut HandMap, hand: Hand, key: u64, suited: bool)
    ensures
        ({
            let s = strength_key(hand);
            let was = old(map)@.contains_key(s);
            let e = final(map)@[s];
            &&& final(map)@ == old(map)@.insert(s, e)
            &&& e.0 == if was { old(map)@[s].0 } else { hand }
            &&& e.1@ == (if was { old(map)@[s].1@ } else { Seq::empty() }) + if suited {
                Seq::empty()
            } else {
                seq![key]
            }
            &&& e.2@ == (if was { old(map)@[s].2@ } else { Seq::empty() }) + if suited {
                seq![key]
            } else {
                Seq::empty()
            }
        }),
{
    broadcast use vstd::std_specs::btree::group_btree_axioms;
    broadcast use vstd::laws_cmp::group_laws_cmp;

    let s = hand.strength();
    proof {
        hand.lemma_fields_bound();
    }
    match map.remove(&s) {
        Some((h, mut ns, mut su)) => {
            if suited {
                su.push(key);
            } else {
                ns.push(key);
            }
            map.insert(s, (h, ns, su));
        },
        None => {
            let mut ns: Vec<u64> = Vec::new();
            let mut su: Vec<u64> = Vec::new();
            if suited {
                su.push(key);
            } else {
                ns.push(key);
            }
            map.insert(s, (hand, ns, su));
        },
    }
    proof {
        assert(final(map)@ =~= old(map)@.insert(s, final(map)@[s]));
    }
}

/// The entry of the map under the strength `s`.
pub(crate) fn entry_of(map: &HandMap, s: u64) -> (r: &(Hand, Vec<u64>, Vec<u64>))
    requires
        map@.contains_key(s),
    ensures
        *r == map@[s],
{
    broadcast use vstd::std_specs::btree::group_btree_axioms;
    broadcast use vstd::laws_cmp::group_laws_cmp;

    map.get(&s).unwrap()
}


/// Two different hands never list the same bag key.
proof fn lemma_bag_keys_disjoint(map: Map<u64, (Hand, Vec<u64>, Vec<u64>)>, s1: u64, s2: u64, t1: int, t2: int)
    requires
        entries_sound(map),
        map.contains_key(s1),
        map.contains_key(s2),
        0 <= t1 < map[s1].1@.len(),
        0 <= t2 < map[s2].1@.len(),
        map[s1].1@[t1] == map[s2].1@[t2],
    ensures
        s1 == s2,
{
    let m1 = choose|m: Seq<usize>| #[trigger] valid_bag(m) && bag_code(m) == map[s1].1@[t1] && hand_code(bag_hand(m)) == s1;
    let m2 = choose|m: Seq<usize>| #[trigger] valid_bag(m) && bag_code(m) == map[s2].1@[t2] && hand_code(bag_hand(m)) == s2;
    lemma_bag_code_injective(m1, m2, 14);
}

/// Two different hands never list the same suited key.
proof fn lemma_suited_keys_disjoint(map: Map<u64, (Hand, Vec<u64>, Vec<u64>)>, s1: u64, s2: u64, t1: int, t2: int)
    requires
        entries_sound(map),
        map.contains_key(s1),
        map.contains_key(s2),
        0 <= t1 < map[s1].2@.len(),
        0 <= t2 < map[s2].2@.len(),
        map[s1].2@[t1] == map[s2].2@[t2],
    ensures
        s1 == s2,
{
    assert(hand_code(suited_hand(map[s1].2@[t1] as u16)) == s1);
    assert(hand_code(suited_hand(map[s2].2@[t2] as u16)) == s2);
}

/// Recording a key keeps the map sound, given that the key comes from a bag of the table whose
/// hand it is (or from suited ranks whose hand it is), and keeps every key listed before.
#[verifier::rlimit(40)]
proof fn lemma_record_keeps(
    old_map: Map<u64, (Hand, Vec<u64>, Vec<u64>)>,
    new_map: Map<u64, (Hand, Vec<u64>, Vec<u64>)>,
    hand: Hand,
    key: u64,
    suited: bool,
)
    requires
        entries_sound(old_map),
        ({
            let s = strength_key(hand);
            let was = old_map.contains_key(s);
            let e = new_map[s];
            &&& new_map == old_map.insert(s, e)
            &&& e.0 == if was { old_map[s].0 } else { hand }
            &&& e.1@ == (if was { old_map[s].1@ } else { Seq::empty() }) + if suited {
                Seq::empty()
            } else {
                seq![key]
            }
            &&& e.2@ == (if was { old_map[s].2@ } else { Seq::empty() }) + if suited {
                seq![key]
            } else {
                Seq::empty()
            }
        }),
        hand_code(hand) < 0x1_0000_0000_0000,
        displayable(hand),
        hand_fits(hand),
        !suited ==> exists|m: Seq<usize>| #[trigger] valid_bag(m) && bag_code(m) == key && bag_hand(m) == hand,
        suited ==> key < 0x2000 && suited_hand(key as u16) == hand && count_below(key, 16) >= 5,
    ensures
        entries_sound(new_map),
        new_map.contains_key(strength_key(hand)),
        !suited ==> new_map[strength_key(hand)].1@.contains(key),
        suited ==> new_map[strength_key(hand)].2@.contains(key),
        map_grows(old_map, new_map),
{
    let s = strength_key(hand);
    let e = new_map[s];
    assert(hand_code(hand) as u64 == hand_code(hand));
    assert forall|s2: u64| #[trigger] new_map.contains_key(s2) implies hand_code(new_map[s2].0) == s2 && displayable(new_map[s2].0)
        && hand_fits(new_map[s2].0) && new_map[s2].1@.len() + new_map[s2].2@.len() > 0 by {
        if s2 != s {
            assert(old_map.contains_key(s2));
        }
    }
    assert forall|s2: u64, t: int| new_map.contains_key(s2) && 0 <= t < new_map[s2].1@.len() implies exists|m: Seq<usize>|
        #[trigger] valid_bag(m) && bag_code(m) == (#[trigger] new_map[s2].1@[t]) && hand_code(bag_hand(m)) == s2 by {
        let k = new_map[s2].1@[t];
        if s2 != s || (old_map.contains_key(s) && t < old_map[s].1@.len()) {
            assert(old_map.contains_key(s2));
            assert(k == old_map[s2].1@[t]);
            let m = choose|m: Seq<usize>| #[trigger] valid_bag(m) && bag_code(m) == old_map[s2].1@[t] && hand_code(bag_hand(m)) == s2;
            assert(valid_bag(m) && bag_code(m) == k && hand_code(bag_hand(m)) == s2);
        } else {
            assert(!suited);
            assert(k == key);
            let m = choose|m: Seq<usize>| #[trigger] valid_bag(m) && bag_code(m) == key && bag_hand(m) == hand;
            assert(valid_bag(m) && bag_code(m) == k && hand_code(bag_hand(m)) == s2);
        }
    }
    assert forall|s2: u64, t: int| new_map.contains_key(s2) && 0 <= t < new_map[s2].2@.len() implies (#[trigger] new_map[s2].2@[t]) < 0x2000
        && count_below(new_map[s2].2@[t], 16) >= 5
        && hand_code(suited_hand(new_map[s2].2@[t] as u16)) == s2 by {
        if s2 != s {
            assert(old_map.contains_key(s2));
            assert(new_map[s2] == old_map[s2]);
        } else if old_map.contains_key(s) && t < old_map[s].2@.len() {
            assert(new_map[s2].2@[t] == old_map[s].2@[t]);
        } else {
            assert(suited);
            assert(new_map[s2].2@[t] == key);
        }
    }
    if !suited {
        assert(e.1@[e.1@.len() - 1] == key);
    } else {
        assert(e.2@[e.2@.len() - 1] == key);
    }
    assert forall|s2: u64, k: u64| old_map.contains_key(s2) && #[trigger] old_map[s2].1@.contains(k) implies new_map[s2].1@.contains(k) by {
        let t = choose|t: int| 0 <= t < old_map[s2].1@.len() && old_map[s2].1@[t] == k;
        assert(new_map[s2].1@[t] == k);
    }
    assert forall|s2: u64, k: u64| old_map.contains_key(s2) && #[trigger] old_map[s2].2@.contains(k) implies new_map[s2].2@.contains(k) by {
        let t = choose|t: int| 0 <= t < old_map[s2].2@.len() && old_map[s2].2@[t] == k;
        assert(new_map[s2].2@[t] == k);
    }
}


/// Keys listed under a hand stay listed as the map grows.
pub open spec fn map_grows(a: Map<u64, (Hand, Vec<u64>, Vec<u64>)>, b: Map<u64, (Hand, Vec<u64>, Vec<u64>)>) -> bool {
    &&& forall|s: u64| a.contains_key(s) ==> #[trigger] b.contains_key(s)
    &&& forall|s: u64, k: u64| a.contains_key(s) && #[trigger] a[s].1@.contains(k) ==> b[s].1@.contains(k)
    &&& forall|s: u64, k: u64| a.contains_key(s) && #[trigger] a[s].2@.contains(k) ==> b[s].2@.contains(k)
}

/// Covering the first bags survives the map growing.
proof fn lemma_cover_mono(
    a: Map<u64, (Hand, Vec<u64>, Vec<u64>)>,
    b: Map<u64, (Hand, Vec<u64>, Vec<u64>)>,
    bags: Seq<Vec<usize>>,
    j: int,
)
    requires
        entries_cover(a, bags, j),
        map_grows(a, b),
    ensures
        entries_cover(b, bags, j),
{
    assert forall|i: int| 0 <= i < j && valid_bag(#[trigger] bags[i]@) implies ({
        let m = bags[i]@;
        let s = hand_code(bag_hand(m)) as u64;
        let u = hand_code(suited_hand(suited_key(m))) as u64;
        &&& b.contains_key(s)
        &&& b[s].1@.contains(bag_code(m) as u64)
        &&& has_suited(m) ==> b.contains_key(u) && b[u].2@.contains(suited_key(m) as u64)
    }) by {
        let m = bags[i]@;
        let s = hand_code(bag_hand(m)) as u64;
        let u = hand_code(suited_hand(suited_key(m))) as u64;
        assert(a.contains_key(s) && a[s].1@.contains(bag_code(m) as u64));
        if has_suited(m) {
            assert(a.contains_key(u) && a[u].2@.contains(suited_key(m) as u64));
        }
    }
}

/// Covering the first `j` bags, and the bag `j` too when it belongs to the table, covers the
/// first `j + 1`.
proof fn lemma_cover_add(map: Map<u64, (Hand, Vec<u64>, Vec<u64>)>, bags: Seq<Vec<usize>>, j: int)
    requires
        0 <= j < bags.len(),
        entries_cover(map, bags, j),
        valid_bag(bags[j]@) ==> ({
            let m = bags[j]@;
            let s = hand_code(bag_hand(m)) as u64;
            let u = hand_code(suited_hand(suited_key(m))) as u64;
            &&& map.contains_key(s)
            &&& map[s].1@.contains(bag_code(m) as u64)
            &&& has_suited(m) ==> map.contains_key(u) && map[u].2@.contains(suited_key(m) as u64)
        }),
    ensures
        entries_cover(map, bags, j + 1),
{
}


/// Every key listed under the hand of strength `s` is at most `b`.
pub open spec fn keys_below_at(map: Map<u64, (Hand, Vec<u64>, Vec<u64>)>, s: u64, b: u64) -> bool {
    &&& forall|t: int| 0 <= t < map[s].1@.len() ==> #[trigger] map[s].1@[t] <= b
    &&& forall|t: int| 0 <= t < map[s].2@.len() ==> #[trigger] map[s].2@[t] <= b
}

/// Every key listed in the map is at most `b`.
pub open spec fn keys_below(map: Map<u64, (Hand, Vec<u64>, Vec<u64>)>, b: u64) -> bool {
    forall|s: u64| #[trigger] map.contains_key(s) ==> keys_below_at(map, s, b)
}


/// The tables filled from a sound map covering every bag, numbering its hands in increasing
/// strength, are whole, sorted and complete.
#[verifier::rlimit(60)]
proof fn lemma_tables(
    r: LutRank,
    map: Map<u64, (Hand, Vec<u64>, Vec<u64>)>,
    keys: Seq<u64>,
    bags: Seq<Vec<usize>>,
    max_key: u64,
)
    requires
        keys.to_set() == map.dom(),
        keys.len() == map.dom().len(),
        strictly_increasing(keys),
        entries_sound(map),
        entries_cover(map, bags, bags.len() as int),
        forall|m: Seq<usize>| m.len() == 7 && #[trigger] sorted_bag(m, 14) ==> exists|j: int|
            0 <= j < bags.len() && (#[trigger] bags[j])@ == m,
        keys_below(map, max_key),
        max_key < 0x10_0000,
        r.allsuited@.len() == 0x2000,
        r.nonsuited@.len() == max_key + 1,
        r.orders2hands@.len() == keys.len() + 1,
        r.orders2hands@[0] == (Hand::HighCard { kickers: RankMask(0) }),
        r.bagspace_nonsuited == (BagSpace { num_uni: 14, num_seq: 7 }),
        r.setspace_allsuited == (SetSpace { num_uni: 14 }),
        forall|q: int| 0 <= q < keys.len() ==> #[trigger] r.orders2hands@[q + 1] == map[keys[q]].0,
        forall|q: int, t: int| 0 <= q < keys.len() && 0 <= t < map[keys[q]].1@.len() ==>
            r.nonsuited@[#[trigger] map[keys[q]].1@[t] as int] == (q + 1) as u16,
        forall|q: int, t: int| 0 <= q < keys.len() && 0 <= t < map[keys[q]].2@.len() ==>
            r.allsuited@[#[trigger] map[keys[q]].2@[t] as int] == (q + 1) as u16,
        forall|x: int| 0 <= x < r.nonsuited@.len() ==> #[trigger] r.nonsuited@[x] <= keys.len(),
        forall|x: int| 0 <= x < r.allsuited@.len() ==> #[trigger] r.allsuited@[x] <= keys.len(),
        forall|x: int| 0 <= x < r.nonsuited@.len() && #[trigger] r.nonsuited@[x] != 0 ==> exists|m: Seq<usize>|
            #[trigger] valid_bag(m) && bag_code(m) == x && hand_code(bag_hand(m)) == keys[r.nonsuited@[x] - 1],
        forall|x: int| 0 <= x < r.allsuited@.len() && #[trigger] r.allsuited@[x] != 0 ==> hand_code(suited_hand(x as u16))
            == keys[r.allsuited@[x] - 1] && count_below(x as u64, 16) >= 5,
    ensures
        r.wf(),
        r.sorted(),
        r.complete(),
        r.keyed(),
        r.stored(),
        r.orders2hands.len() <= 27629,
{
    let n = keys.len();
    lemma_map_small(map, keys);
    assert forall|k: int| 0 <= k < r.nonsuited.len() && #[trigger] r.nonsuited[k] != 0 implies exists|m: Seq<usize>|
        #[trigger] valid_bag(m) && bag_code(m) == k && r.orders2hands[r.nonsuited[k] as int] == bag_hand(m) by {
        let q = r.nonsuited@[k] - 1;
        let m = choose|m: Seq<usize>| #[trigger] valid_bag(m) && bag_code(m) == k && hand_code(bag_hand(m)) == keys[q];
        assert(keys.to_set().contains(keys[q]));
        assert(r.orders2hands@[q + 1] == map[keys[q]].0);
        lemma_hand_code_injective(map[keys[q]].0, bag_hand(m));
    }
    assert forall|k: int| 0 <= k < r.allsuited.len() && #[trigger] r.allsuited[k] != 0
        implies r.orders2hands[r.allsuited[k] as int] == suited_hand(k as u16) && count_below(k as u64, 16) >= 5 by {
        let q = r.allsuited@[k] - 1;
        assert(keys.to_set().contains(keys[q]));
        assert(r.orders2hands@[q + 1] == map[keys[q]].0);
        lemma_hand_code_injective(map[keys[q]].0, suited_hand(k as u16));
    }
    assert forall|o: int| 1 <= o < r.orders2hands.len() implies #[trigger] r.order_stored(o) by {
        let q = o - 1;
        let sq = keys[q];
        assert(keys.to_set().contains(sq));
        if map[sq].1@.len() > 0 {
            let k = map[sq].1@[0] as int;
            assert(r.nonsuited@[map[keys[q]].1@[0] as int] == (q + 1) as u16);
            assert(keys_below_at(map, sq, max_key));
            assert(map[sq].1@[0] <= max_key);
            assert(r.nonsuited[k] == o);
        } else {
            let k = map[sq].2@[0] as int;
            assert(r.allsuited@[map[keys[q]].2@[0] as int] == (q + 1) as u16);
            assert(r.allsuited[k] == o);
        }
    }
    assert forall|i: int, j: int| 1 <= i < j < r.orders2hands.len() implies hand_code(
        #[trigger] r.orders2hands[i],
    ) < hand_code(#[trigger] r.orders2hands[j]) by {
        assert(r.orders2hands@[(i - 1) + 1] == map[keys[i - 1]].0);
        assert(r.orders2hands@[(j - 1) + 1] == map[keys[j - 1]].0);
        assert(keys.to_set().contains(keys[i - 1]));
        assert(keys.to_set().contains(keys[j - 1]));
    }
    if r.orders2hands.len() <= 0x1_0000 {
        assert forall|m: Seq<usize>| #[trigger] valid_bag(m) implies {
            &&& bag_code(m) < r.nonsuited.len()
            &&& r.orders2hands[r.nonsuited[bag_code(m) as int] as int] == bag_hand(m)
            &&& has_suited(m) ==> r.orders2hands[r.allsuited[suited_key(m) as int] as int]
                == suited_hand(suited_key(m))
        } by {
            let b = choose|j: int| 0 <= j < bags.len() && (#[trigger] bags[j])@ == m;
            assert(valid_bag(bags[b]@));
            bag_hand(m).lemma_fields_bound();
            suited_hand(suited_key(m)).lemma_fields_bound();
            let sh = hand_code(bag_hand(m)) as u64;
            assert(map.contains_key(sh) && map[sh].1@.contains(bag_code(m) as u64));
            let t = choose|t: int| 0 <= t < map[sh].1@.len() && map[sh].1@[t] == bag_code(m) as u64;
            assert(keys.to_set().contains(sh));
            let q = choose|q: int| 0 <= q < keys.len() && keys[q] == sh;
            assert(r.nonsuited@[map[keys[q]].1@[t] as int] == (q + 1) as u16);
            assert(keys_below_at(map, sh, max_key));
            assert(map[sh].1@[t] <= max_key);
            lemma_bag_fits(m);
            assert(r.orders2hands@[q + 1] == map[keys[q]].0);
            assert(hand_code(map[sh].0) == sh);
            lemma_hand_code_injective(map[sh].0, bag_hand(m));
            if has_suited(m) {
                let su = hand_code(suited_hand(suited_key(m))) as u64;
                assert(map.contains_key(su) && map[su].2@.contains(suited_key(m) as u64));
                let t2 = choose|t: int| 0 <= t < map[su].2@.len() && map[su].2@[t] == suited_key(m) as u64;
                assert(keys.to_set().contains(su));
                let q2 = choose|q: int| 0 <= q < keys.len() && keys[q] == su;
                assert(r.allsuited@[map[keys[q2]].2@[t2] as int] == (q2 + 1) as u16);
                assert(r.orders2hands@[q2 + 1] == map[keys[q2]].0);
                assert(hand_code(map[su].0) == su);
                lemma_hand_code_injective(map[su].0, suited_hand(suited_key(m)));
            }
        }
    }
}


/// A sound map holds no more hands than there are compact numbers of hands.
proof fn lemma_map_small(map: Map<u64, (Hand, Vec<u64>, Vec<u64>)>, keys: Seq<u64>)
    requires
        entries_sound(map),
        keys.to_set() == map.dom(),
        strictly_increasing(keys),
    ensures
        keys.len() <= 27628,
{
    let ks = Seq::new(keys.len(), |q: int| hand_index(map[keys[q]].0) as int);
    assert forall|q: int| 0 <= q < keys.len() implies map.contains_key(#[trigger] keys[q]) by {
        assert(keys.to_set().contains(keys[q]));
    }
    assert forall|i: int, j: int| 0 <= i < ks.len() && 0 <= j < ks.len() && i != j implies ks[i] != ks[j] by {
        if ks[i] == ks[j] {
            assert(map.contains_key(keys[i]));
            assert(map.contains_key(keys[j]));
            lemma_hand_index_injective(map[keys[i]].0, map[keys[j]].0);
            if i < j {
                assert(keys[i] < keys[j]);
            } else {
                assert(keys[j] < keys[i]);
            }
        }
    }
    assert(ks.no_duplicates());
    ks.unique_seq_to_set();
    lemma_int_range(0, 27628);
    assert forall|v: int| ks.to_set().contains(v) implies set_int_range(0, 27628).contains(v) by {
        let q = choose|q: int| 0 <= q < ks.len() && ks[q] == v;
        assert(map.contains_key(keys[q]));
        lemma_hand_index_bound(map[keys[q]].0);
    }
    assert(ks.to_set().subset_of(set_int_range(0, 27628)));
    lemma_len_subset(ks.to_set(), set_int_range(0, 27628));
}

/// How many cards of the ranks below `r` the cards `x` hold.
pub open spec fn held(x: u64, r: nat) -> nat
    decreases r,
{
    if r == 0 {
        0
    } else {
        held(x, (r - 1) as nat) + rank_count(x, (r - 1) as nat)
    }
}

/// Writes `c` copies of the symbol `v` from position `6 - i` downwards.
pub open spec fn fill_copies(seq: Seq<usize>, i: nat, c: nat, v: usize) -> Seq<usize>
    decreases c,
{
    if c == 0 {
        seq
    } else {
        fill_copies(seq.update(6 - i, v), i + 1, (c - 1) as nat, v)
    }
}

/// Writes the symbols of the cards `x`, from rank `r - 1` down to rank 0, from position `6 - i`
/// downwards: one copy of the symbol of a rank for each card of it.
pub open spec fn fill_ranks(x: u64, r: nat, i: nat, seq: Seq<usize>) -> Seq<usize>
    decreases r,
{
    if r == 0 {
        seq
    } else {
        let c = rank_count(x, (r - 1) as nat);
        fill_ranks(x, (r - 1) as nat, i + c, fill_copies(seq, i, c, r as usize))
    }
}

/// Writes the symbols of the ranks held in `m`, from rank `r - 1` down to rank 0, from
/// position `6 - i` downwards.
pub open spec fn fill_set(m: u16, r: nat, i: nat, seq: Seq<usize>) -> Seq<usize>
    decreases r,
{
    if r == 0 {
        seq
    } else if bit(m as u64, (r - 1) as nat) {
        fill_set(m, (r - 1) as nat, i + 1, seq.update(6 - i, r as usize))
    } else {
        fill_set(m, (r - 1) as nat, i, seq)
    }
}

/// Seven zeros.
pub open spec fn empty_bag() -> Seq<usize> {
    Seq::new(7, |p: int| 0usize)
}

/// The bag of the ranks of the cards `x`.
pub open spec fn cards_bag(x: u64) -> Seq<usize> {
    fill_ranks(x, 13, 0, empty_bag())
}

/// The bag of the ranks `m`, one card each.
pub open spec fn ranks_bag(m: u16) -> Seq<usize> {
    fill_set(m, 13, 0, empty_bag())
}

/// Writing the symbols of cards sees only how many cards of each rank there are.
proof fn lemma_fill_same(x: u64, y: u64, r: nat, i: nat, seq: Seq<usize>)
    requires
        r <= 13,
        forall|q: nat| q < 13 ==> #[trigger] rank_count(x, q) == rank_count(y, q),
    ensures
        fill_ranks(x, r, i, seq) == fill_ranks(y, r, i, seq),
    decreases r,
{
    if r > 0 {
        assert(rank_count(x, (r - 1) as nat) == rank_count(y, (r - 1) as nat));
        let c = rank_count(x, (r - 1) as nat);
        lemma_fill_same(x, y, (r - 1) as nat, i + c, fill_copies(seq, i, c, r as usize));
    }
}

/// The bag of some cards is that of other cards with as many cards of each rank: the key of
/// cards ([LutRank::cards2key]) does not depend on their suits.
pub proof fn lemma_cards_bag_same(x: u64, y: u64)
    requires
        forall|q: nat| q < 13 ==> #[trigger] rank_count(x, q) == rank_count(y, q),
    ensures
        cards_bag(x) == cards_bag(y),
        bag_code(cards_bag(x)) == bag_code(cards_bag(y)),
{
    lemma_fill_same(x, y, 13, 0, empty_bag());
}

/// Writing the symbols of ranks, one each, is writing those of cards holding one card of each.
proof fn lemma_fill_set_ranks(m: u16, x: u64, r: nat, i: nat, seq: Seq<usize>)
    requires
        r <= 13,
        forall|q: nat| q < 13 ==> #[trigger] rank_count(x, q) == if bit(m as u64, q) { 1nat } else { 0nat },
    ensures
        fill_set(m, r, i, seq) == fill_ranks(x, r, i, seq),
    decreases r,
{
    if r > 0 {
        let q = (r - 1) as nat;
        assert(rank_count(x, q) == if bit(m as u64, q) { 1nat } else { 0nat });
        if bit(m as u64, q) {
            assert(fill_copies(seq, i, 1, r as usize) == fill_copies(seq.update(6 - i, r as usize), i + 1, 0, r as usize));
            lemma_fill_set_ranks(m, x, q, i + 1, seq.update(6 - i, r as usize));
        } else {
            lemma_fill_set_ranks(m, x, q, i, seq);
        }
    }
}

/// The bag of some ranks is the bag of cards holding exactly one card of each of them: the key
/// of the ranks ([LutRank::ranks2key]) is the key of such cards ([LutRank::cards2key]).
pub proof fn lemma_ranks_bag_cards(m: u16, x: u64)
    requires
        forall|q: nat| q < 13 ==> #[trigger] rank_count(x, q) == if bit(m as u64, q) { 1nat } else { 0nat },
    ensures
        ranks_bag(m) == cards_bag(x),
        bag_code(ranks_bag(m)) == bag_code(cards_bag(x)),
{
    lemma_fill_set_ranks(m, x, 13, 0, empty_bag());
}

/// The entry at `k`, if the table reaches it.
pub open spec fn lookup(v: Seq<u16>, k: nat) -> Option<u16> {
    if k < v.len() {
        Some(v[k as int])
    } else {
        None
    }
}

/// The greater of two optional orders, none counting below any.
pub open spec fn opt_max(a: Option<u16>, b: Option<u16>) -> Option<u16> {
    match (a, b) {
        (None, _) => b,
        (_, None) => a,
        (Some(u), Some(v)) => Some(if u <= v { v } else { u }),
    }
}

/// The best order among the suits below `n` holding five cards or more, looked up by their
/// ranks.
pub open spec fn suited_find(l: LutRank, x: u64, n: nat) -> Option<u16>
    decreases n,
{
    if n == 0 {
        None
    } else {
        let acc = suited_find(l, x, (n - 1) as nat);
        let rk = suit_ranks(x, (n - 1) as nat);
        if count_below(rk as u64, 16) >= 5 {
            opt_max(acc, lookup(l.allsuited@, rk as nat))
        } else {
            acc
        }
    }
}

/// The order that the tables give the cards `x`: the best of the suited lookups and of the
/// lookup of the bag of their ranks.
pub open spec fn lut_find(l: LutRank, x: u64) -> Option<u16> {
    opt_max(suited_find(l, x, 4), lookup(l.nonsuited@, bag_code(cards_bag(x))))
}

/// The suit picked for a card of rank `r` does not hold that rank yet, and holds no more cards
/// than any other suit that does not hold it.
proof fn lemma_pick(c: u64, r: nat, n: nat)
    ensures
        pick_below(c, r, n) matches Some(s) ==> s < n && !bit(c, r + 13 * s) && forall|s2: nat| s2 < n ==> bit(c, r + 13 * s2)
            || suit_len(c, s) <= #[trigger] suit_len(c, s2),
        pick_below(c, r, n) is None ==> forall|s2: nat| s2 < n ==> #[trigger] bit(c, r + 13 * s2),
    decreases n,
{
    if n > 0 {
        lemma_pick(c, r, (n - 1) as nat);
    }
}

/// The cards of all four suits, counted suit by suit.
pub open spec fn suits_len(c: u64) -> nat {
    suit_len(c, 0) + suit_len(c, 1) + suit_len(c, 2) + suit_len(c, 3)
}

/// A suit holding a rank holds a card.
proof fn lemma_suit_holds(c: u64, r: nat, s: nat)
    requires
        r < 13,
        s < 4,
        bit(c, r + 13 * s),
    ensures
        suit_len(c, s) >= 1,
{
    crate::hand::refbest5::lemma_suit_ranks_bit(c, s, r);
    if count_below(suit_ranks(c, s) as u64, 16) == 0 {
        crate::bits::lemma_count_zero_bits(suit_ranks(c, s) as u64, 16);
    }
}

/// Adding a card of rank `r` in suit `s0` adds one to that suit and leaves the others.
proof fn lemma_suit_len_add(c: u64, r: nat, s0: nat, s: nat)
    requires
        r < 13,
        s0 < 4,
        s < 4,
        !bit(c, r + 13 * s0),
    ensures
        suit_len(c | single(r + 13 * s0), s) == suit_len(c, s) + if s == s0 { 1nat } else { 0nat },
{
    let b = r + 13 * s0;
    let c2 = c | single(b);
    let v = suit_ranks(c, s) as u64;
    let v2 = suit_ranks(c2, s) as u64;
    assert forall|q: nat| q < 16 implies bit(v2, q) == (bit(v, q) || (s == s0 && q == r)) by {
        crate::hand::refbest5::lemma_suit_ranks_bit(c2, s, q);
        crate::hand::refbest5::lemma_suit_ranks_bit(c, s, q);
        lemma_bit_ops(c, single(b), q + 13 * s);
        lemma_bit_single(b, q + 13 * s);
    }
    if s == s0 {
        crate::hand::refbest5::lemma_suit_ranks_bit(c, s, r);
        crate::bits::lemma_count_below_add(v, r, 16);
        assert forall|q: nat| q < 16 implies bit(v2, q) == bit(v | single(r), q) by {
            lemma_bit_ops(v, single(r), q);
            lemma_bit_single(r, q);
        }
        crate::bits::lemma_count_below_same(v2, v | single(r), 16);
    } else {
        crate::bits::lemma_count_below_same(v2, v, 16);
    }
}

/// Placing the symbols of `m`, seven or fewer, leaves no suit with five cards or more, and the
/// suits together hold no more cards than there are symbols.
pub proof fn lemma_place_spread(m: Seq<usize>)
    requires
        m.len() <= 7,
        forall|i: int| 0 <= i < m.len() ==> (#[trigger] m[i]) < 14,
    ensures
        suits_len(place(m)) <= m.len(),
        forall|s: nat| s < 4 ==> #[trigger] suit_len(place(m), s) <= 4,
    decreases m.len(),
{
    if m.len() == 0 {
        assert(place(m) == 0);
        assert forall|s: nat| s < 4 implies #[trigger] suit_len(place(m), s) == 0 by {
            assert(suit_ranks(0, s) == 0) by {
                let sh = (13 * s) as u64;
                assert(((0u64 >> sh) as u16) & 0x1fffu16 == 0) by (bit_vector);
            }
            lemma_count_below_zero(16);
        }
        assert(suit_len(place(m), 0) == 0);
        assert(suit_len(place(m), 1) == 0);
        assert(suit_len(place(m), 2) == 0);
        assert(suit_len(place(m), 3) == 0);
    } else {
        let p = m.drop_last();
        assert forall|i: int| 0 <= i < p.len() implies (#[trigger] p[i]) < 14 by {
            assert(p[i] == m[i]);
        }
        lemma_place_spread(p);
        let c = place(p);
        let v = m.last();
        if v == 0 {
            assert(place(m) == c);
        } else {
            let r = (v - 1) as nat;
            lemma_pick(c, r, 4);
            if pick_below(c, r, 4) is None {
                assert(place(m) == c);
            }
            if let Some(s0) = pick_below(c, r, 4) {
                assert(place(m) == c | single(r + 13 * s0));
                lemma_suit_len_add(c, r, s0, 0);
                lemma_suit_len_add(c, r, s0, 1);
                lemma_suit_len_add(c, r, s0, 2);
                lemma_suit_len_add(c, r, s0, 3);
                if suit_len(c, s0) == 4 {
                    assert forall|s2: nat| s2 < 4 && s2 != s0 implies #[trigger] suit_len(c, s2) >= 1 by {
                        if bit(c, r + 13 * s2) {
                            lemma_suit_holds(c, r, s2);
                        }
                    }
                    assert(suit_len(c, 0) >= 1 || s0 == 0);
                    assert(suit_len(c, 1) >= 1 || s0 == 1);
                    assert(suit_len(c, 2) >= 1 || s0 == 2);
                    assert(suit_len(c, 3) >= 1 || s0 == 3);
                    assert(false);
                }
                assert(suit_len(place(m), s0) <= 4);
                assert forall|s: nat| s < 4 implies #[trigger] suit_len(place(m), s) <= 4 by {
                    lemma_suit_len_add(c, r, s0, s);
                }
            }
        }
    }
}

/// The hand of the placed cards of a bag of the table is never a flush nor a straight flush:
/// the table of bags holds no flush.
pub proof fn lemma_bag_hand_no_flush(m: Seq<usize>)
    requires
        valid_bag(m),
    ensures
        !(bag_hand(m) is Flush),
        !(bag_hand(m) is StraightFlush),
{
    lemma_place_spread(m);
    let c = place(m);
    assert(!crate::hand::refhand5::suited5(c));
    assert(crate::hand::refhand5::flush_ranks(c) is None);
}

/// With no rank held twice, the scan down from the ace never stops.
proof fn lemma_no_stop(x: u64, hi: nat)
    requires
        hi <= 13,
        forall|r: nat| r < 13 ==> #[trigger] rank_count(x, r) <= 1,
    ensures
        crate::hand::refhand5::first_stop_below(x, hi) is None,
    decreases hi,
{
    if hi > 0 {
        assert(rank_count(x, (hi - 1) as nat) <= 1);
        lemma_no_stop(x, (hi - 1) as nat);
    }
}

/// Five ranks or more all of one suit make a flush or a straight flush.
pub proof fn lemma_suited_hand_flush(k: u16)
    requires
        k < 0x2000,
        count_below(k as u64, 16) >= 5,
    ensures
        suited_hand(k) is Flush || suited_hand(k) is StraightFlush,
{
    let x = hearts(k);
    let k64 = k as u64;
    assert forall|b: nat| b < 64 implies #[trigger] bit(x, b) == (13 <= b < 26 && bit(k64, (b - 13) as nat)) by {
        let bb = b as u64;
        assert(((k64 << 13u64) >> bb) & 1u64 == 1u64 <==> (13 <= bb && bb < 26 && (k64 >> ((bb - 13) as u64)) & 1u64 == 1u64))
            by (bit_vector)
            requires
                k64 < 0x2000,
                bb < 64,
        ;
    }
    assert forall|r: nat| r < 13 implies #[trigger] rank_count(x, r) <= 1 by {
        assert(!bit(x, r));
        assert(!bit(x, r + 26));
        assert(!bit(x, r + 39));
    }
    lemma_no_stop(x, 13);
    assert(suit_ranks(x, 1) == k) by {
        assert((((k64 << 13u64) >> 13u64) as u16) & 0x1fffu16 == k) by (bit_vector)
            requires
                k64 < 0x2000,
                k64 == k as u64,
        ;
    }
    assert(suit_len(x, 1) >= 5);
    assert(crate::hand::refhand5::flush_ranks(x) is Some);
}

/// Every order stored in the table of suited ranks is of a flush or a straight flush, and (see
/// [lemma_nonsuited_no_flush]) no order stored in the table of bags is: an order is a flush
/// exactly when it is stored in the suited table.
pub proof fn lemma_allsuited_flush(l: LutRank, k: int)
    requires
        l.wf(),
        l.keyed(),
        0 <= k < l.allsuited.len(),
        l.allsuited[k] != 0,
    ensures
        l.orders2hands[l.allsuited[k] as int] is Flush || l.orders2hands[l.allsuited[k] as int] is StraightFlush,
{
    lemma_suited_hand_flush(k as u16);
}

/// Every order stored in the table of bags is of a hand that is neither a flush nor a straight
/// flush.
pub proof fn lemma_nonsuited_no_flush(l: LutRank, k: int)
    requires
        l.keyed(),
        0 <= k < l.nonsuited.len(),
        l.nonsuited[k] != 0,
    ensures
        !(l.orders2hands[l.nonsuited[k] as int] is Flush),
        !(l.orders2hands[l.nonsuited[k] as int] is StraightFlush),
{
    let m = choose|m: Seq<usize>| #[trigger] valid_bag(m) && bag_code(m) == k && l.orders2hands[l.nonsuited[k] as int] == bag_hand(m);
    lemma_bag_hand_no_flush(m);
}


/// those suits holding five cards or more.
proof fn lemma_suited_find_covers(l: LutRank, x: u64, n: nat, s: nat)
    requires
        l.allsuited@.len() == 0x2000,
        s < n,
        count_below(suit_ranks(x, s) as u64, 16) >= 5,
    ensures
        suited_find(l, x, n) matches Some(o) && o >= l.allsuited@[suit_ranks(x, s) as int],
    decreases n,
{
    let p = (n - 1) as nat;
    let rk = suit_ranks(x, p);
    crate::bits::lemma_mask13(((x >> ((13 * p) as u64)) as u16), 0);
    crate::bits::lemma_mask13(((x >> ((13 * s) as u64)) as u16), 0);
    if s < p {
        lemma_suited_find_covers(l, x, p, s);
    }
}

/// The order found for some cards is at least the order of the ranks of every suit holding five
/// of them or more, whichever suit that is, and at least the order of the bag of their ranks.
pub proof fn lemma_find_covers(l: LutRank, x: u64)
    requires
        l.wf(),
    ensures
        forall|s: nat| s < 4 && count_below(#[trigger] suit_ranks(x, s) as u64, 16) >= 5 ==>
            (lut_find(l, x) matches Some(o) && o >= l.allsuited@[suit_ranks(x, s) as int]),
        bag_code(cards_bag(x)) < l.nonsuited@.len() ==> (lut_find(l, x) matches Some(o) && o
            >= l.nonsuited@[bag_code(cards_bag(x)) as int]),
{
    assert forall|s: nat| s < 4 && count_below(#[trigger] suit_ranks(x, s) as u64, 16) >= 5 implies
        (lut_find(l, x) matches Some(o) && o >= l.allsuited@[suit_ranks(x, s) as int]) by {
        lemma_suited_find_covers(l, x, 4, s);
    }
}

/// A bag of up to seven symbols below 14 can be encoded.
pub(crate) proof fn lemma_small_bag_fits(m: Seq<usize>)
    requires
        m.len() <= 7,
        forall|i: int| 0 <= i < m.len() ==> (#[trigger] m[i]) < 14,
    ensures
        bag_code_fits(m),
        bag_code(m) <= m.len() * 0x10_0000,
    decreases m.len(),
{
    vstd::arithmetic::power2::lemma2_to64();
    assert forall|i: int| 0 <= i < m.len() implies binom_fits(((#[trigger] m[i]) + i) as nat, (i + 1) as nat) by {
        let n = (m[i] + i) as nat;
        assert forall|j: nat| j < i + 1 && j <= n implies #[trigger] comb(n, j) * (n - j) <= usize::MAX by {
            crate::combrs::lemma_comb_pow2(n, j);
            vstd::arithmetic::power2::lemma_pow2_strictly_increases(n, 20);
            let c = comb(n, j);
            assert(c * (n - j) <= 0x10_0000 * 20) by (nonlinear_arith)
                requires
                    c <= 0x10_0000,
                    n - j <= 20,
                    n >= j,
            ;
        }
    }
    if m.len() > 0 {
        lemma_small_bag_fits(m.drop_last());
        let i = (m.len() - 1) as nat;
        let n = (m.last() + i) as nat;
        crate::combrs::lemma_comb_pow2(n, i + 1);
        vstd::arithmetic::power2::lemma_pow2_strictly_increases(n, 20);
    }
}


/// Whether a hand goes to the table of suited ranks: a flush or a straight flush.
pub open spec fn is_suited_hand(h: Hand) -> bool {
    h is Flush || h is StraightFlush
}

/// One row of the ranking: the order right-aligned in five columns, the description
/// left-aligned in 48.
pub open spec fn md_row(order: nat, h: Hand) -> Seq<char> {
    "| "@ + pad_left(dec_text(order), 5) + " | "@ + pad_right(hand_text(h), 48) + " |\n"@
}

/// The rows of the orders `1..n` whose hands are suited or not, as `suited` says.
pub open spec fn md_rows(o: Seq<Hand>, n: nat, suited: bool) -> Seq<char>
    decreases n,
{
    if n <= 1 {
        Seq::empty()
    } else {
        md_rows(o, (n - 1) as nat, suited) + if is_suited_hand(o[n - 1]) == suited {
            md_row((n - 1) as nat, o[n - 1])
        } else {
            Seq::empty()
        }
    }
}

/// The line that closes a table of the ranking.
pub open spec fn md_rule() -> Seq<char> {
    "|-------|--------------------------------------------------|\n"@
}

/// The head of a table of the ranking.
pub open spec fn md_head() -> Seq<char> {
    "| Order | Description                                      |\n"@ + md_rule()
}

/// The ranking of every hand of the tables as a markdown document: the hands of the table of
/// bags, then those of the table of suited ranks, each with its order.
pub open spec fn markdown(o: Seq<Hand>) -> Seq<char> {
    "# Ordered Ranking of All 5-card Hands\n"@ + "\n"@
        + "This file contains the ordered rankings of all 5-card hands, sorted by rank. The ranks are 1-based, with 0 being used for special cases (i.e. no hand).\n"@
        + "\n"@ + "## Non-Suited 5-card Hands\n"@ + "\n"@ + md_head() + md_rows(o, o.len(), false)
        + md_rule() + "\n"@ + "## All-Suited 5-card Hands\n"@ + "\n"@ + md_head() + md_rows(
        o,
        o.len(),
        true,
    ) + md_rule()
}

/// A lookup-table engine for ranking hands of seven cards or fewer.
pub struct LutRank {
    /// The order of the best hand for the ranks of five or more cards of one suit, keyed by the
    /// bits of those ranks (flushes and straight flushes).
    pub allsuited: Vec<u16>,
    /// The order of the best hand for each bag of ranks, keyed by its index (every other hand).
    pub nonsuited: Vec<u16>,
    /// The hand of each order; order 0 stands for no hand.
    pub orders2hands: Vec<Hand>,
    /// The space of bags of seven symbols keying the table of bags.
    pub bagspace_nonsuited: BagSpace,
    /// The space of sets of symbols of suited ranks.
    pub setspace_allsuited: SetSpace,
}

impl LutRank {
    /// Whether the tables are whole: the table of suited ranks covers every set of ranks, the
    /// spaces are those of seven symbols out of fourteen, and every order in a table has a hand.
    pub open spec fn wf(&self) -> bool {
        &&& self.allsuited.len() == 0x2000
        &&& self.nonsuited.len() >= 1
        &&& self.orders2hands.len() >= 1
        &&& self.orders2hands[0] == (Hand::HighCard { kickers: RankMask(0) })
        &&& self.bagspace_nonsuited == BagSpace { num_uni: 14, num_seq: 7 }
        &&& self.setspace_allsuited == SetSpace { num_uni: 14 }
        &&& forall|i: int| 0 <= i < self.allsuited.len() ==> (#[trigger] self.allsuited[i])
            < self.orders2hands.len()
        &&& forall|i: int| 0 <= i < self.nonsuited.len() ==> (#[trigger] self.nonsuited[i])
            < self.orders2hands.len()
    }

    /// The hands of the orders from 1 on are in increasing strength.
    pub open spec fn sorted(&self) -> bool {
        forall|i: int, j: int|
            1 <= i < j < self.orders2hands.len() ==> hand_code(
                #[trigger] self.orders2hands[i],
            ) < hand_code(#[trigger] self.orders2hands[j])
    }

    /// Every bag of ranks has the order of the hand of its placed cards, and every set of five
    /// ranks or more has the order of its hand all of one suit.
    pub open spec fn complete(&self) -> bool {
        &&& forall|m: Seq<usize>|
            #[trigger] valid_bag(m) ==> {
                &&& bag_code(m) < self.nonsuited.len()
                &&& 1 <= self.nonsuited[bag_code(m) as int]
                &&& self.nonsuited[bag_code(m) as int] < self.orders2hands.len()
                &&& self.orders2hands[self.nonsuited[bag_code(m) as int] as int] == bag_hand(m)
                &&& has_suited(m) ==> {
                    &&& 1 <= self.allsuited[suited_key(m) as int]
                    &&& self.allsuited[suited_key(m) as int] < self.orders2hands.len()
                    &&& self.orders2hands[self.allsuited[suited_key(m) as int] as int]
                        == suited_hand(suited_key(m))
                }
            }
    }

    /// Every order stored in the tables numbers the hand of its key: of a bag of the table, or
    /// of a set of suited ranks.
    pub open spec fn keyed(&self) -> bool {
        &&& forall|k: int| 0 <= k < self.nonsuited.len() && #[trigger] self.nonsuited[k] != 0 ==> exists|m: Seq<usize>|
            #[trigger] valid_bag(m) && bag_code(m) == k && self.orders2hands[self.nonsuited[k] as int] == bag_hand(m)
        &&& forall|k: int| 0 <= k < self.allsuited.len() && #[trigger] self.allsuited[k] != 0
            ==> self.orders2hands[self.allsuited[k] as int] == suited_hand(k as u16) && count_below(k as u64, 16) >= 5
    }

    /// Whether the order `o` is stored in one of the tables.
    pub open spec fn order_stored(&self, o: int) -> bool {
        exists|k: int|
            #![trigger self.nonsuited[k]]
            #![trigger self.allsuited[k]]
            (0 <= k < self.nonsuited.len() && self.nonsuited[k] == o) || (0 <= k < self.allsuited.len()
                && self.allsuited[k] == o)
    }

    /// Every order from 1 on is stored in one of the tables.
    pub open spec fn stored(&self) -> bool {
        forall|o: int| 1 <= o < self.orders2hands.len() ==> #[trigger] self.order_stored(o)
    }

    /// Ranking by the tables agrees with the strength of the hands: of two bags of the table,
    /// one gets a lower order exactly when the hand of its cards is weaker, and the same order
    /// exactly when the hands are the same.
    pub proof fn lemma_orders_follow_hands(&self, m1: Seq<usize>, m2: Seq<usize>)
        requires
            self.wf(),
            self.sorted(),
            self.complete(),
            valid_bag(m1),
            valid_bag(m2),
        ensures
            (self.nonsuited[bag_code(m1) as int] < self.nonsuited[bag_code(m2) as int]) <==> (hand_code(
                bag_hand(m1),
            ) < hand_code(bag_hand(m2))),
            (self.nonsuited[bag_code(m1) as int] == self.nonsuited[bag_code(m2) as int]) <==> (bag_hand(
                m1,
            ) == bag_hand(m2)),
    {
        let o1 = self.nonsuited[bag_code(m1) as int] as int;
        let o2 = self.nonsuited[bag_code(m2) as int] as int;
        if o1 < o2 {
            assert(hand_code(self.orders2hands[o1]) < hand_code(self.orders2hands[o2]));
        } else if o2 < o1 {
            assert(hand_code(self.orders2hands[o2]) < hand_code(self.orders2hands[o1]));
        }
    }
}

impl LutRank {
    /// Build the tables by brute force: every bag of seven symbols without five cards of one
    /// rank gets its cards spread over the suits, and the hand of those cards, as the reference
    /// engine finds it, is listed with the key of the bag; bags of five ranks or more also list
    /// the hand of those ranks all of one suit under the key of the ranks. The hands are then
    /// numbered in increasing strength from 1, and each key gets the number of its hand.
    #[verifier::spinoff_prover]
    pub fn from_brute_force() -> (r: LutRank)
        ensures
            r.wf(),
            r.sorted(),
            r.complete(),
            r.keyed(),
            r.stored(),
            r.orders2hands.len() <= 27629,
            forall|i: int| 0 <= i < r.orders2hands.len() ==> displayable(#[trigger] r.orders2hands[i]),
    {
        let engine = RefHand5::new();
        let mut map: HandMap = BTreeMap::new();
        // every sorted bag of seven symbols: no card, or one of the thirteen ranks
        let bags = sorted_bags(14, 7);
        let bagspace_nonsuited = BagSpace::new(14, 7);
        let setspace_allsuited = SetSpace::new(14);
        let mut j: usize = 0;
        while j < bags.len()
            invariant
                j <= bags.len(),
                forall|b: int| 0 <= b < bags.len() ==> (#[trigger] bags[b])@.len() == 7 && sorted_bag(bags[b]@, 14),
                bagspace_nonsuited == (BagSpace { num_uni: 14, num_seq: 7 }),
                entries_sound(map@),
                entries_cover(map@, bags@, j as int),
            decreases bags.len() - j,
        {
            let m = &bags[j];
            assert(m@.len() == 7 && sorted_bag(m@, 14));
            if !has_five_alike(m) {
                proof {
                    lemma_bag_fits(m@);
                    assert(valid_bag(m@));
                }
                let cards = place_cards(m);
                let key_nonsuited = bagspace_nonsuited.enc(m.as_slice());
                let hand_nonsuited = engine.hand5(cards);
                let ghost before = map@;
                record(&mut map, hand_nonsuited, key_nonsuited as u64, false);
                proof {
                    hand_nonsuited.lemma_fields_bound();
                    lemma_ref_hand5_displayable(cards.0);
                    lemma_ref_hand5_fits(cards.0);
                    assert(bag_hand(m@) == hand_nonsuited);
                    lemma_record_keeps(before, map@, hand_nonsuited, key_nonsuited as u64, false);
                    lemma_cover_mono(before, map@, bags@, j as int);
                }
                let ranks = cards.unsuited();
                proof {
                    assert(suited_key(m@) == ranks.0);
                }
                if ranks.count() >= 5 {
                    // the same ranks, all of one suit
                    let suited = CardMask((ranks.0 as u64) << 13);
                    let key_allsuited = ranks.bits() as u64;
                    let hand_allsuited = engine.hand5(suited);
                    let ghost before2 = map@;
                    record(&mut map, hand_allsuited, key_allsuited, true);
                    proof {
                        hand_allsuited.lemma_fields_bound();
                        lemma_ref_hand5_displayable(suited.0);
                        lemma_ref_hand5_fits(suited.0);
                        assert(suited_hand(key_allsuited as u16) == hand_allsuited);
                        lemma_record_keeps(before2, map@, hand_allsuited, key_allsuited, true);
                        lemma_cover_mono(before2, map@, bags@, j as int);
                        let sn = strength_key(hand_nonsuited);
                        assert(map@[sn].1@.contains(key_nonsuited as u64));
                    }
                }
                proof {
                    lemma_cover_add(map@, bags@, j as int);
                }
            } else {
                proof {
                    assert(!valid_bag(m@));
                    lemma_cover_add(map@, bags@, j as int);
                }
            }
            j = j + 1;
        }
        // number the hands in increasing strength, from 1
        let keys = sorted_keys(&map);
        let n = keys.len();
        let max_key = Self::largest_key(&map, &keys);
        let mut allsuited: Vec<u16> = Vec::new();
        let mut nonsuited: Vec<u16> = Vec::new();
        let mut orders2hands: Vec<Hand> = Vec::new();
        Self::zeros(&mut allsuited, 0x2000);
        Self::zeros(&mut nonsuited, (max_key + 1) as usize);
        // order 0 stands for no hand
        proof {
            lemma_count_below_zero(13);
        }
        orders2hands.push(Hand::HighCard { kickers: RankMask::none() });
        let mut i: usize = 0;
        while i < n
            invariant
                i <= n,
                n == keys@.len(),
                orders2hands@.len() == i + 1,
                orders2hands@[0] == (Hand::HighCard { kickers: RankMask(0) }),
                forall|q: int| 0 <= q < orders2hands@.len() ==> displayable(#[trigger] orders2hands@[q]),
                count_below(0, 13) == 0,
            decreases n - i,
        {
            orders2hands.push(Hand::HighCard { kickers: RankMask::none() });
            i = i + 1;
        }
        proof {
            lemma_map_small(map@, keys@);
        }
        let mut p: usize = 0;
        while p < n
            invariant
                p <= n,
                n == keys@.len(),
                keys@.to_set() == map@.dom(),
                strictly_increasing(keys@),
                entries_sound(map@),
                keys_below(map@, max_key),
                max_key < 0x10_0000,
                allsuited@.len() == 0x2000,
                nonsuited@.len() == max_key + 1,
                orders2hands@.len() == n + 1,
                orders2hands@[0] == (Hand::HighCard { kickers: RankMask(0) }),
                forall|q: int| 0 <= q < orders2hands@.len() ==> displayable(#[trigger] orders2hands@[q]),
                forall|q: int| 0 <= q < p ==> #[trigger] orders2hands@[q + 1] == map@[keys@[q]].0,
                forall|q: int, t: int| 0 <= q < p && 0 <= t < map@[keys@[q]].1@.len() ==>
                    nonsuited@[#[trigger] map@[keys@[q]].1@[t] as int] == (q + 1) as u16,
                forall|q: int, t: int| 0 <= q < p && 0 <= t < map@[keys@[q]].2@.len() ==>
                    allsuited@[#[trigger] map@[keys@[q]].2@[t] as int] == (q + 1) as u16,
                forall|x: int| 0 <= x < nonsuited@.len() ==> #[trigger] nonsuited@[x] <= p,
                forall|x: int| 0 <= x < allsuited@.len() ==> #[trigger] allsuited@[x] <= p,
                n <= 27628,
                forall|x: int| 0 <= x < nonsuited@.len() && #[trigger] nonsuited@[x] != 0 ==> exists|m: Seq<usize>|
                    #[trigger] valid_bag(m) && bag_code(m) == x && hand_code(bag_hand(m)) == keys@[nonsuited@[x] - 1],
                forall|x: int| 0 <= x < allsuited@.len() && #[trigger] allsuited@[x] != 0 ==> hand_code(suited_hand(x as u16))
                    == keys@[allsuited@[x] - 1] && count_below(x as u64, 16) >= 5,
            decreases n - p,
        {
            let s = keys[p];
            proof {
                assert(keys@.to_set().contains(s));
            }
            let e = entry_of(&map, s);
            let order = (p + 1) as u16;
            let mut t: usize = 0;
            while t < e.1.len()
                invariant
                    p < n,
                    n == keys@.len(),
                    s == keys@[p as int],
                    map@.contains_key(s),
                    *e == map@[s],
                    order == (p + 1) as u16,
                    keys@.to_set() == map@.dom(),
                    strictly_increasing(keys@),
                    entries_sound(map@),
                    keys_below(map@, max_key),
                    max_key < 0x10_0000,
                    nonsuited@.len() == max_key + 1,
                    t <= e.1@.len(),
                    forall|q: int, u: int| 0 <= q < p && 0 <= u < map@[keys@[q]].1@.len() ==>
                        nonsuited@[#[trigger] map@[keys@[q]].1@[u] as int] == (q + 1) as u16,
                    forall|u: int| 0 <= u < t ==> nonsuited@[#[trigger] e.1@[u] as int] == order,
                    forall|x: int| 0 <= x < nonsuited@.len() ==> #[trigger] nonsuited@[x] <= p + 1,
                    n <= 27628,
                    forall|x: int| 0 <= x < nonsuited@.len() && #[trigger] nonsuited@[x] != 0 ==> exists|m: Seq<usize>|
                        #[trigger] valid_bag(m) && bag_code(m) == x && hand_code(bag_hand(m)) == keys@[nonsuited@[x] - 1],
                    forall|x: int| 0 <= x < allsuited@.len() && #[trigger] allsuited@[x] != 0 ==> hand_code(suited_hand(x as u16))
                        == keys@[allsuited@[x] - 1] && count_below(x as u64, 16) >= 5,
                    allsuited@.len() == 0x2000,
                decreases e.1@.len() - t,
            {
                let k = e.1[t];
                proof {
                    assert(k <= max_key);
                }
                let ghost prev = nonsuited@;
                nonsuited.set(k as usize, order);
                proof {
                    assert(order as int == p + 1);
                    assert forall|x: int| 0 <= x < nonsuited@.len() && #[trigger] nonsuited@[x] != 0 implies exists|m: Seq<usize>|
                        #[trigger] valid_bag(m) && bag_code(m) == x && hand_code(bag_hand(m)) == keys@[nonsuited@[x] - 1] by {
                        if x == k as int {
                            let m = choose|m: Seq<usize>| #[trigger] valid_bag(m) && bag_code(m) == (#[trigger] map@[s].1@[t as int]) && hand_code(bag_hand(m)) == s;
                            assert(valid_bag(m) && bag_code(m) == x && hand_code(bag_hand(m)) == keys@[nonsuited@[x] - 1]);
                        } else {
                            assert(nonsuited@[x] == prev[x]);
                        }
                    }
                    assert forall|q: int, u: int| 0 <= q < p && 0 <= u < map@[keys@[q]].1@.len() implies
                        nonsuited@[#[trigger] map@[keys@[q]].1@[u] as int] == (q + 1) as u16 by {
                        assert(keys@.to_set().contains(keys@[q]));
                        if map@[keys@[q]].1@[u] == k {
                            lemma_bag_keys_disjoint(map@, keys@[q], s, u, t as int);
                        }
                        assert(prev[map@[keys@[q]].1@[u] as int] == (q + 1) as u16);
                    }
                }
                t = t + 1;
            }
            let mut t: usize = 0;
            while t < e.2.len()
                invariant
                    p < n,
                    n == keys@.len(),
                    s == keys@[p as int],
                    map@.contains_key(s),
                    *e == map@[s],
                    order == (p + 1) as u16,
                    keys@.to_set() == map@.dom(),
                    strictly_increasing(keys@),
                    entries_sound(map@),
                    allsuited@.len() == 0x2000,
                    t <= e.2@.len(),
                    forall|q: int, u: int| 0 <= q < p && 0 <= u < map@[keys@[q]].2@.len() ==>
                        allsuited@[#[trigger] map@[keys@[q]].2@[u] as int] == (q + 1) as u16,
                    forall|u: int| 0 <= u < t ==> allsuited@[#[trigger] e.2@[u] as int] == order,
                    forall|x: int| 0 <= x < allsuited@.len() ==> #[trigger] allsuited@[x] <= p + 1,
                    n <= 27628,
                    forall|x: int| 0 <= x < nonsuited@.len() && #[trigger] nonsuited@[x] != 0 ==> exists|m: Seq<usize>|
                        #[trigger] valid_bag(m) && bag_code(m) == x && hand_code(bag_hand(m)) == keys@[nonsuited@[x] - 1],
                    forall|x: int| 0 <= x < allsuited@.len() && #[trigger] allsuited@[x] != 0 ==> hand_code(suited_hand(x as u16))
                        == keys@[allsuited@[x] - 1] && count_below(x as u64, 16) >= 5,
                decreases e.2@.len() - t,
            {
                let k = e.2[t];
                proof {
                    assert(k < 0x2000);
                    assert forall|q: int, u: int| 0 <= q < p && 0 <= u < map@[keys@[q]].2@.len() implies
                        map@[keys@[q]].2@[u] != k by {
                        assert(keys@.to_set().contains(keys@[q]));
                        if map@[keys@[q]].2@[u] == k {
                            lemma_suited_keys_disjoint(map@, keys@[q], s, u, t as int);
                        }
                    }
                }
                let ghost prev2 = allsuited@;
                allsuited.set(k as usize, order);
                proof {
                    assert(order as int == p + 1);
                    assert forall|x: int| 0 <= x < allsuited@.len() && #[trigger] allsuited@[x] != 0 implies hand_code(suited_hand(x as u16))
                        == keys@[allsuited@[x] - 1] && count_below(x as u64, 16) >= 5 by {
                        if x == k as int {
                            assert(map@[s].2@[t as int] == k);
                        } else {
                            assert(allsuited@[x] == prev2[x]);
                        }
                    }
                }
                t = t + 1;
            }
            orders2hands.set(p + 1, e.0);
            p = p + 1;
        }
        let r = LutRank {
            allsuited,
            nonsuited,
            orders2hands,
            bagspace_nonsuited,
            setspace_allsuited,
        };
        proof {
            lemma_tables(r, map@, keys@, bags@, max_key);
        }
        r
    }

    /// Appends `n` zeros.
    fn zeros(v: &mut Vec<u16>, n: usize)
        ensures
            final(v)@ == old(v)@ + Seq::new(n as nat, |i: int| 0u16),
    {
        let mut i: usize = 0;
        while i < n
            invariant
                i <= n,
                v@ == old(v)@ + Seq::new(i as nat, |x: int| 0u16),
            decreases n - i,
        {
            v.push(0);
            proof {
                assert(v@ =~= old(v)@ + Seq::new((i + 1) as nat, |x: int| 0u16));
            }
            i = i + 1;
        }
    }

    /// The largest key listed in the map.
    fn largest_key(map: &HandMap, keys: &Vec<u64>) -> (r: u64)
        requires
            keys@.to_set() == map@.dom(),
            entries_sound(map@),
        ensures
            keys_below(map@, r),
            r < 0x10_0000,
    {
        let mut max_key: u64 = 0;
        let mut p: usize = 0;
        while p < keys.len()
            invariant
                p <= keys@.len(),
                keys@.to_set() == map@.dom(),
                entries_sound(map@),
                max_key < 0x10_0000,
                forall|q: int| 0 <= q < p ==> keys_below_at(map@, keys@[q], max_key),
            decreases keys@.len() - p,
        {
            let s = keys[p];
            proof {
                assert(keys@.to_set().contains(s));
            }
            let e = entry_of(&map, s);
            let ghost before = max_key;
            let mut t: usize = 0;
            while t < e.1.len()
                invariant
                    *e == map@[s],
                    map@.contains_key(s),
                    entries_sound(map@),
                    before <= max_key < 0x10_0000,
                    t <= e.1@.len(),
                    forall|u: int| 0 <= u < t ==> #[trigger] e.1@[u] <= max_key,
                decreases e.1@.len() - t,
            {
                proof {
                    let m = choose|m: Seq<usize>| #[trigger] valid_bag(m) && bag_code(m) == map@[s].1@[t as int]
                        && hand_code(bag_hand(m)) == s;
                    lemma_bag_fits(m);
                }
                if e.1[t] > max_key {
                    max_key = e.1[t];
                }
                t = t + 1;
            }
            let mut t: usize = 0;
            while t < e.2.len()
                invariant
                    *e == map@[s],
                    map@.contains_key(s),
                    entries_sound(map@),
                    before <= max_key < 0x10_0000,
                    t <= e.2@.len(),
                    forall|u: int| 0 <= u < e.1@.len() ==> #[trigger] e.1@[u] <= max_key,
                    forall|u: int| 0 <= u < t ==> #[trigger] e.2@[u] <= max_key,
                decreases e.2@.len() - t,
            {
                if e.2[t] > max_key {
                    max_key = e.2[t];
                }
                t = t + 1;
            }
            p = p + 1;
        }
        proof {
            assert forall|s: u64| #[trigger] map@.contains_key(s) implies keys_below_at(map@, s, max_key) by {
                assert(keys@.to_set().contains(s));
                let q = choose|q: int| 0 <= q < keys@.len() && keys@[q] == s;
            }
        }
        max_key
    }
}

impl LutRank {
    /// The tables, computed by brute force.
    pub fn new() -> (r: LutRank)
        ensures
            r.wf(),
            r.sorted(),
            r.complete(),
            r.keyed(),
            r.stored(),
            r.orders2hands.len() <= 27629,
            forall|i: int| 0 <= i < r.orders2hands.len() ==> displayable(#[trigger] r.orders2hands[i]),
    {
        Self::from_brute_force()
    }

    /// The key of the bag of the ranks of the cards: the symbols of their ranks, one per card,
    /// at the end of seven, and zeros in front.
    pub fn cards2key(&self, cards: CardMask) -> (r: u64)
        requires
            self.wf(),
            held(cards.0, 13) <= 7,
        ensures
            r == bag_code(cards_bag(cards.0)),
            r <= 7 * 0x10_0000,
            r < 77520,
    {
        let mut seq: Vec<usize> = vec![0, 0, 0, 0, 0, 0, 0];
        let ghost x = cards.0;
        let mut i: usize = 0;
        let mut r: usize = 13;
        proof {
            assert(seq@ =~= empty_bag());
        }
        while r > 0
            invariant
                r <= 13,
                seq@.len() == 7,
                forall|p: int| 0 <= p < 7 ==> (#[trigger] seq@[p]) < 14,
                i + held(x, r as nat) == held(x, 13),
                held(x, 13) <= 7,
                x == cards.0,
                fill_ranks(x, r as nat, i as nat, seq@) == cards_bag(x),
                self.wf(),
            decreases r,
        {
            let rank = Rank::from_index((r - 1) as u8);
            let c = cards.of_rank_count(rank);
            let ghost seq0 = seq@;
            let ghost i0 = i as nat;
            let mut d: usize = 0;
            while d < c
                invariant
                    d <= c,
                    c == rank_count(x, (r - 1) as nat),
                    1 <= r <= 13,
                    seq@.len() == 7,
                    forall|p: int| 0 <= p < 7 ==> (#[trigger] seq@[p]) < 14,
                    i == i0 + d,
                    i0 + c + held(x, (r - 1) as nat) == held(x, 13),
                    held(x, 13) <= 7,
                    fill_copies(seq0, i0, c as nat, r as usize) == fill_copies(seq@, i as nat, (c - d) as nat, r as usize),
                    self.wf(),
                decreases c - d,
            {
                seq.set(self.bagspace_nonsuited.num_seq - i - 1, r);
                i = i + 1;
                d = d + 1;
            }
            r = r - 1;
        }
        proof {
            lemma_small_bag_fits(seq@);
            lemma_bag_code_below(seq@, 13);
            lemma_seven_bags();
        }
        let key = self.bagspace_nonsuited.enc(seq.as_slice());
        key as u64
    }

    /// The key of the bag of the ranks held, one card each.
    pub fn ranks2key(&self, ranks: RankMask) -> (r: u64)
        requires
            self.wf(),
            count_below(ranks.0 as u64, 13) <= 7,
        ensures
            r == bag_code(ranks_bag(ranks.0)),
            r <= 7 * 0x10_0000,
            r < 77520,
    {
        let mut seq: Vec<usize> = vec![0, 0, 0, 0, 0, 0, 0];
        let ghost m = ranks.0;
        let mut i: usize = 0;
        let mut r: usize = 13;
        proof {
            assert(seq@ =~= empty_bag());
        }
        while r > 0
            invariant
                r <= 13,
                seq@.len() == 7,
                forall|p: int| 0 <= p < 7 ==> (#[trigger] seq@[p]) < 14,
                i + count_below(m as u64, r as nat) == count_below(m as u64, 13),
                count_below(m as u64, 13) <= 7,
                m == ranks.0,
                fill_set(m, r as nat, i as nat, seq@) == ranks_bag(m),
                self.wf(),
            decreases r,
        {
            if (ranks.0 >> ((r - 1) as u16)) & 1 == 1 {
                proof {
                    assert(bit(m as u64, (r - 1) as nat)) by {
                        crate::bits::lemma_u16_ops(m, m);
                        assert(((m as u64) >> ((r - 1) as u64)) & 1u64 == (((m >> ((r - 1) as u16)) & 1) as u64)) by (bit_vector)
                            requires r >= 1 && r <= 13;
                    }
                }
                seq.set(self.bagspace_nonsuited.num_seq - i - 1, r);
                i = i + 1;
            } else {
                proof {
                    assert(!bit(m as u64, (r - 1) as nat)) by {
                        assert(((m as u64) >> ((r - 1) as u64)) & 1u64 == (((m >> ((r - 1) as u16)) & 1) as u64)) by (bit_vector)
                            requires r >= 1 && r <= 13;
                    }
                }
            }
            r = r - 1;
        }
        proof {
            lemma_small_bag_fits(seq@);
            lemma_bag_code_below(seq@, 13);
            lemma_seven_bags();
        }
        let key = self.bagspace_nonsuited.enc(seq.as_slice());
        key as u64
    }

    /// The order of the best hand of the cards: the best of the lookups of the ranks of each
    /// suit holding five cards or more, and of the lookup of the bag of their ranks.
    pub fn find(&self, cards: CardMask) -> (r: Option<u16>)
        requires
            self.wf(),
            held(cards.0, 13) <= 7,
        ensures
            r == lut_find(*self, cards.0),
    {
        let mut max_res: Option<u16> = None;
        let mut s: u8 = 0;
        while s < 4
            invariant
                s <= 4,
                self.wf(),
                max_res == suited_find(*self, cards.0, s as nat),
            decreases 4 - s,
        {
            let ranks = cards.of_suit(Suit::from_index(s));
            if ranks.count() >= 5 {
                let key = ranks.bits() as usize;
                let found = match self.allsuited.get(key) {
                    Some(x) => Some(*x),
                    None => None,
                };
                max_res = opt_max_exec(max_res, found);
            }
            s = s + 1;
        }
        let key = self.cards2key(cards);
        let found = match self.nonsuited.get(key as usize) {
            Some(x) => Some(*x),
            None => None,
        };
        opt_max_exec(max_res, found)
    }
}

/// The greater of two optional orders (see [opt_max]).
fn opt_max_exec(a: Option<u16>, b: Option<u16>) -> (r: Option<u16>)
    ensures
        r == opt_max(a, b),
{
    match (a, b) {
        (None, _) => b,
        (_, None) => a,
        (Some(u), Some(v)) => Some(if u <= v { v } else { u }),
    }
}

/// An order is found for cards whose key ([LutRank::cards2key]) lies within the table of bags;
/// a caller learns that by comparing the key with the table's length.
pub proof fn lemma_find_some(l: LutRank, x: u64)
    requires
        bag_code(cards_bag(x)) < l.nonsuited@.len(),
    ensures
        lut_find(l, x) is Some,
{
}

impl Rank5 for LutRank {
    /// Whole tables, seven cards or fewer, and an order found for them.
    open spec fn rank5_accepts(&self, cards: CardMask) -> bool {
        self.wf() && held(cards.0, 13) <= 7 && lut_find(*self, cards.0) is Some
    }

    fn rank5(&self, cards: CardMask) -> (r: u16)
        ensures
            Some(r) == lut_find(*self, cards.0),
    {
        self.find(cards).unwrap()
    }
}

impl Hand5 for LutRank {
    /// Whole tables, and seven cards or fewer.
    open spec fn hand5_accepts(&self, cards: CardMask) -> bool {
        self.wf() && held(cards.0, 13) <= 7
    }

    fn hand5(&self, cards: CardMask) -> (r: Hand)
        ensures
            r == match lut_find(*self, cards.0) {
                Some(o) => self.orders2hands@[o as int],
                None => self.orders2hands@[0],
            },
    {
        match self.find(cards) {
            Some(order) => {
                proof {
                    lemma_found_in_range(*self, cards.0);
                }
                self.orders2hands[order as usize]
            },
            None => self.orders2hands[0],
        }
    }
}

/// Every order found has a hand.
proof fn lemma_found_in_range(l: LutRank, x: u64)
    requires
        l.wf(),
    ensures
        lut_find(l, x) matches Some(o) ==> o < l.orders2hands.len(),
{
    assert forall|n: nat| n <= 4 implies (#[trigger] suited_find(l, x, n)) matches Some(o) ==> o < l.orders2hands.len() by {
        lemma_suited_find_range(l, x, n);
    }
}

proof fn lemma_suited_find_range(l: LutRank, x: u64, n: nat)
    requires
        l.wf(),
    ensures
        suited_find(l, x, n) matches Some(o) ==> o < l.orders2hands.len(),
    decreases n,
{
    if n > 0 {
        lemma_suited_find_range(l, x, (n - 1) as nat);
    }
}

impl LutRank {
    /// The ranking of every hand of the tables as a markdown document (see [markdown]).
    pub fn write_markdown(&self) -> (r: String)
        requires
            forall|i: int| 1 <= i < self.orders2hands.len() ==> displayable(#[trigger] self.orders2hands[i]),
        ensures
            r@ == markdown(self.orders2hands@),
    {
        let mut s = String::new();
        s.append("# Ordered Ranking of All 5-card Hands\n");
        s.append("\n");
        s.append("This file contains the ordered rankings of all 5-card hands, sorted by rank. The ranks are 1-based, with 0 being used for special cases (i.e. no hand).\n");
        s.append("\n");
        s.append("## Non-Suited 5-card Hands\n");
        s.append("\n");
        s.append("| Order | Description                                      |\n");
        s.append("|-------|--------------------------------------------------|\n");
        self.push_rows(&mut s, false);
        s.append("|-------|--------------------------------------------------|\n");
        s.append("\n");
        s.append("## All-Suited 5-card Hands\n");
        s.append("\n");
        s.append("| Order | Description                                      |\n");
        s.append("|-------|--------------------------------------------------|\n");
        self.push_rows(&mut s, true);
        s.append("|-------|--------------------------------------------------|\n");
        proof {
            assert(s@ =~= markdown(self.orders2hands@));
        }
        s
    }

    /// Appends the rows of the hands that are suited or not, as `suited` says.
    fn push_rows(&self, s: &mut String, suited: bool)
        requires
            forall|i: int| 1 <= i < self.orders2hands.len() ==> displayable(#[trigger] self.orders2hands[i]),
        ensures
            final(s)@ == old(s)@ + md_rows(self.orders2hands@, self.orders2hands@.len(), suited),
    {
        let n = self.orders2hands.len();
        if n == 0 {
            proof {
                assert(s@ =~= old(s)@ + md_rows(self.orders2hands@, 0, suited));
            }
            return;
        }
        let mut order: usize = 1;
        proof {
            assert(s@ =~= old(s)@ + md_rows(self.orders2hands@, 1, suited));
        }
        while order < n
            invariant
                1 <= order <= n,
                n == self.orders2hands@.len(),
                forall|i: int| 1 <= i < self.orders2hands.len() ==> displayable(#[trigger] self.orders2hands[i]),
                s@ == old(s)@ + md_rows(self.orders2hands@, order as nat, suited),
            decreases n - order,
        {
            let hand = self.orders2hands[order];
            let is_suited = match hand {
                Hand::StraightFlush { .. } | Hand::Flush { .. } => true,
                _ => false,
            };
            let ghost before = s@;
            if is_suited == suited {
                s.append("| ");
                let num = decimal(order as u64);
                push_pad_left(s, num.as_str(), 5);
                s.append(" | ");
                let text = hand.to_string();
                push_pad_right(s, text.as_str(), 48);
                s.append(" |\n");
                proof {
                    assert(s@ =~= before + md_row(order as nat, hand));
                }
            }
            proof {
                assert(s@ =~= old(s)@ + md_rows(self.orders2hands@, (order + 1) as nat, suited));
            }
            order = order + 1;
        }
    }
}

} // verus!

//! A compact numbering of the hands that the engines find: each such hand gets a distinct
//! number below 27628, which bounds how many different hands there are.

use vstd::prelude::*;
use crate::bits::{bit, count_below, lemma_bits_ext};
use crate::combrs::{comb, lemma_comb_step};
use crate::combrs::bagspace::{bag_code, sorted_bag, lemma_bag_code_below, lemma_bag_code_injective};
use crate::deck::{Rank, RankMask};
use crate::hand::Hand;

verus! {

/// The symbols `r + 1` of the ranks `r` below `n` set in `m`, lowest first.
pub open spec fn mask_syms(m: u64, n: nat) -> Seq<usize>
    decreases n,
{
    if n == 0 {
        Seq::empty()
    } else {
        mask_syms(m, (n - 1) as nat) + if bit(m, (n - 1) as nat) {
            seq![n as usize]
        } else {
            Seq::<usize>::empty()
        }
    }
}

/// The symbols of the ranks of `m` after zeros, `k` symbols in all: a bag of `k` items.
pub open spec fn mask_bag(m: u64, k: nat) -> Seq<usize> {
    Seq::new((k - count_below(m, 13)) as nat, |i: int| 0usize) + mask_syms(m, 13)
}

/// The symbols of a mask count its ranks, lie between 1 and `n`, increase, and hold exactly the
/// ranks set.
proof fn lemma_mask_syms(m: u64, n: nat)
    requires
        n <= 13,
    ensures
        mask_syms(m, n).len() == count_below(m, n),
        forall|i: int| 0 <= i < mask_syms(m, n).len() ==> 1 <= #[trigger] mask_syms(m, n)[i] <= n,
        forall|i: int, j: int| 0 <= i < j < mask_syms(m, n).len() ==> mask_syms(m, n)[i] < mask_syms(m, n)[j],
        forall|r: nat| r < n ==> (bit(m, r) <==> #[trigger] mask_syms(m, n).contains((r + 1) as usize)),
    decreases n,
{
    if n > 0 {
        let p = (n - 1) as nat;
        lemma_mask_syms(m, p);
        let a = mask_syms(m, p);
        let s = mask_syms(m, n);
        if bit(m, p) {
            assert(s =~= a.push(n as usize));
        } else {
            assert(s =~= a);
        }
        assert forall|r: nat| r < n implies (bit(m, r) <==> #[trigger] s.contains((r + 1) as usize)) by {
            if r < p {
                if s.contains((r + 1) as usize) {
                    let i = choose|i: int| 0 <= i < s.len() && s[i] == (r + 1) as usize;
                    if i < a.len() {
                        assert(a[i] == s[i]);
                        assert(a.contains((r + 1) as usize));
                    }
                }
                if a.contains((r + 1) as usize) {
                    let i = choose|i: int| 0 <= i < a.len() && a[i] == (r + 1) as usize;
                    assert(s[i] == a[i]);
                }
            } else {
                if a.contains(n as usize) {
                    let i = choose|i: int| 0 <= i < a.len() && a[i] == n as usize;
                    assert(a[i] <= p);
                }
                if bit(m, p) {
                    assert(s[a.len() as int] == n as usize);
                }
            }
        }
    }
}

/// The bag of a mask with at most `k` ranks below 13 is a sorted bag of `k` items, with a code
/// below `C(13 + k, k)`, holding the symbol of each rank set and no other.
pub proof fn lemma_mask_bag(m: u64, k: nat)
    requires
        count_below(m, 13) <= k,
    ensures
        mask_bag(m, k).len() == k,
        sorted_bag(mask_bag(m, k), 14),
        bag_code(mask_bag(m, k)) < comb(13 + k, k),
        forall|r: nat| r < 13 ==> (bit(m, r) <==> #[trigger] mask_bag(m, k).contains((r + 1) as usize)),
{
    lemma_mask_syms(m, 13);
    let z = Seq::new((k - count_below(m, 13)) as nat, |i: int| 0usize);
    let t = mask_syms(m, 13);
    let b = mask_bag(m, k);
    assert(b == z + t);
    assert forall|i: int, j: int| 0 <= i <= j < b.len() implies b[i] <= b[j] by {
        if j >= z.len() {
            assert(b[j] == t[j - z.len()]);
            if i >= z.len() {
                assert(b[i] == t[i - z.len()]);
            }
        }
    }
    assert forall|i: int| 0 <= i < b.len() implies (#[trigger] b[i]) <= 13 by {
        if i >= z.len() {
            assert(b[i] == t[i - z.len()]);
        }
    }
    lemma_bag_code_below(b, 13);
    assert forall|r: nat| r < 13 implies (bit(m, r) <==> #[trigger] b.contains((r + 1) as usize)) by {
        if b.contains((r + 1) as usize) {
            let i = choose|i: int| 0 <= i < b.len() && b[i] == (r + 1) as usize;
            assert(i >= z.len());
            assert(t[i - z.len()] == b[i]);
        }
        if t.contains((r + 1) as usize) {
            let i = choose|i: int| 0 <= i < t.len() && t[i] == (r + 1) as usize;
            assert(b[i + z.len()] == t[i]);
        }
    }
}

/// Whether the rank mask `m` holds at most `k` ranks, all below 13.
pub open spec fn mask_fits(m: RankMask, k: nat) -> bool {
    &&& count_below(m.0 as u64, 13) <= k
    &&& forall|i: nat| 13 <= i ==> !#[trigger] bit(m.0 as u64, i)
}

/// Two masks that fit and have the same bag are the same.
proof fn lemma_mask_bag_injective(a: RankMask, b: RankMask, k: nat)
    requires
        mask_fits(a, k),
        mask_fits(b, k),
        bag_code(mask_bag(a.0 as u64, k)) == bag_code(mask_bag(b.0 as u64, k)),
    ensures
        a == b,
{
    lemma_mask_bag(a.0 as u64, k);
    lemma_mask_bag(b.0 as u64, k);
    lemma_bag_code_injective(mask_bag(a.0 as u64, k), mask_bag(b.0 as u64, k), 14);
    assert forall|i: nat| i < 64 implies #[trigger] bit(a.0 as u64, i) == bit(b.0 as u64, i) by {
        if i < 13 {
            assert(bit(a.0 as u64, i) == mask_bag(a.0 as u64, k).contains((i + 1) as usize));
            assert(bit(b.0 as u64, i) == mask_bag(b.0 as u64, k).contains((i + 1) as usize));
        }
    }
    lemma_bits_ext(a.0 as u64, b.0 as u64);
}

/// Whether every mask of the hand holds no more ranks than the hand's category uses, all below
/// 13.
pub open spec fn hand_fits(h: Hand) -> bool {
    match h {
        Hand::HighCard { kickers } => mask_fits(kickers, 5),
        Hand::OnePair { kickers, .. } => mask_fits(kickers, 3),
        Hand::TwoPair { pairs, kickers } => mask_fits(pairs, 2) && mask_fits(kickers, 1),
        Hand::ThreeOfAKind { kickers, .. } => mask_fits(kickers, 2),
        Hand::Flush { ranks } => mask_fits(ranks, 5),
        Hand::FourOfAKind { kickers, .. } => mask_fits(kickers, 1),
        _ => true,
    }
}

/// The index of a mask of at most `k` ranks: the code of its bag.
pub open spec fn mask_index(m: RankMask, k: nat) -> nat {
    bag_code(mask_bag(m.0 as u64, k))
}

/// The compact number of a hand: each category takes a run of numbers after the weaker ones,
/// within which the hand's ranks and masks are numbered.
pub open spec fn hand_index(h: Hand) -> nat {
    match h {
        Hand::HighCard { kickers } => mask_index(kickers, 5),
        Hand::OnePair { pair, kickers } => 8568 + pair.spec_index() * 560 + mask_index(kickers, 3),
        Hand::TwoPair { pairs, kickers } => 15848 + mask_index(pairs, 2) * 14 + mask_index(kickers, 1),
        Hand::ThreeOfAKind { trip, kickers } => 17318 + trip.spec_index() * 105 + mask_index(kickers, 2),
        Hand::Straight { top } => 18683 + top.spec_index(),
        Hand::Flush { ranks } => 18696 + mask_index(ranks, 5),
        Hand::FullHouse { trip, pair } => 27264 + trip.spec_index() * 13 + pair.spec_index(),
        Hand::FourOfAKind { quad, kickers } => 27433 + quad.spec_index() * 14 + mask_index(kickers, 1),
        Hand::StraightFlush { top } => 27615 + top.spec_index(),
    }
}

/// The numbers of bags of one to five ranks.
proof fn lemma_bag_counts()
    ensures
        comb(14, 1) == 14,
        comb(15, 2) == 105,
        comb(16, 3) == 560,
        comb(18, 5) == 8568,
{
    lemma_comb_next(14, 0, 1, 14);
    lemma_comb_next(15, 0, 1, 15);
    lemma_comb_next(15, 1, 15, 105);
    lemma_comb_next(16, 0, 1, 16);
    lemma_comb_next(16, 1, 16, 120);
    lemma_comb_next(16, 2, 120, 560);
    lemma_comb_next(18, 0, 1, 18);
    lemma_comb_next(18, 1, 18, 153);
    lemma_comb_next(18, 2, 153, 816);
    lemma_comb_next(18, 3, 816, 3060);
    lemma_comb_next(18, 4, 3060, 8568);
}

/// The number of bags of seven symbols out of fourteen, which bounds the keys of ranks of seven
/// cards or fewer.
pub proof fn lemma_seven_bags()
    ensures
        comb(20, 7) == 77520,
{
    lemma_comb_next(20, 0, 1, 20);
    lemma_comb_next(20, 1, 20, 190);
    lemma_comb_next(20, 2, 190, 1140);
    lemma_comb_next(20, 3, 1140, 4845);
    lemma_comb_next(20, 4, 4845, 15504);
    lemma_comb_next(20, 5, 15504, 38760);
    lemma_comb_next(20, 6, 38760, 77520);
}

/// One step of computing a binomial coefficient from the one before.
proof fn lemma_comb_next(n: nat, k: nat, c: nat, d: nat)
    requires
        k < n,
        comb(n, k) == c,
        c * (n - k) == d * (k + 1),
    ensures
        comb(n, k + 1) == d,
{
    lemma_comb_step(n, k);
    let e = comb(n, k + 1);
    assert(e == d) by (nonlinear_arith)
        requires
            e * (k + 1) == d * (k + 1),
            k + 1 > 0;
}

/// The mask index of a fitting mask lies below the number of its bags.
proof fn lemma_mask_index_bound(m: RankMask, k: nat)
    requires
        mask_fits(m, k),
    ensures
        mask_index(m, k) < comb(13 + k, k),
{
    lemma_mask_bag(m.0 as u64, k);
}

/// Every fitting hand has a compact number below 27628.
pub proof fn lemma_hand_index_bound(h: Hand)
    requires
        hand_fits(h),
    ensures
        hand_index(h) < 27628,
{
    lemma_bag_counts();
    match h {
        Hand::HighCard { kickers } => {
            lemma_mask_index_bound(kickers, 5);
        },
        Hand::OnePair { pair, kickers } => {
            pair.lemma_index_roundtrip();
            lemma_mask_index_bound(kickers, 3);
            let p = pair.spec_index();
            assert(p * 560 <= 12 * 560) by (nonlinear_arith)
                requires p <= 12;
        },
        Hand::TwoPair { pairs, kickers } => {
            lemma_mask_index_bound(pairs, 2);
            lemma_mask_index_bound(kickers, 1);
            let a = mask_index(pairs, 2);
            assert(a * 14 <= 104 * 14) by (nonlinear_arith)
                requires a <= 104;
        },
        Hand::ThreeOfAKind { trip, kickers } => {
            trip.lemma_index_roundtrip();
            lemma_mask_index_bound(kickers, 2);
            let t = trip.spec_index();
            assert(t * 105 <= 12 * 105) by (nonlinear_arith)
                requires t <= 12;
        },
        Hand::Straight { top } => {
            top.lemma_index_roundtrip();
        },
        Hand::Flush { ranks } => {
            lemma_mask_index_bound(ranks, 5);
        },
        Hand::FullHouse { trip, pair } => {
            trip.lemma_index_roundtrip();
            pair.lemma_index_roundtrip();
            let t = trip.spec_index();
            assert(t * 13 <= 12 * 13) by (nonlinear_arith)
                requires t <= 12;
        },
        Hand::FourOfAKind { quad, kickers } => {
            quad.lemma_index_roundtrip();
            lemma_mask_index_bound(kickers, 1);
            let q = quad.spec_index();
            assert(q * 14 <= 12 * 14) by (nonlinear_arith)
                requires q <= 12;
        },
        Hand::StraightFlush { top } => {
            top.lemma_index_roundtrip();
        },
    }
}

/// A number and a remainder below `m` are found again from `x * m + y`.
proof fn lemma_digits(x1: nat, y1: nat, x2: nat, y2: nat, m: nat)
    requires
        y1 < m,
        y2 < m,
        x1 * m + y1 == x2 * m + y2,
    ensures
        x1 == x2,
        y1 == y2,
{
    if x1 < x2 {
        assert(x1 * m + m <= x2 * m) by (nonlinear_arith)
            requires x1 < x2;
    } else if x2 < x1 {
        assert(x2 * m + m <= x1 * m) by (nonlinear_arith)
            requires x2 < x1;
    }
}

/// Ranks with the same index are the same.
proof fn lemma_rank_eq(a: Rank, b: Rank)
    requires
        a.spec_index() == b.spec_index(),
    ensures
        a == b,
{
    a.lemma_index_roundtrip();
    b.lemma_index_roundtrip();
}

/// Fitting hands with the same compact number are the same hand.
pub proof fn lemma_hand_index_injective(a: Hand, b: Hand)
    requires
        hand_fits(a),
        hand_fits(b),
        hand_index(a) == hand_index(b),
    ensures
        a == b,
{
    lemma_bag_counts();
    lemma_hand_index_bound(a);
    lemma_hand_index_bound(b);
    match a {
        Hand::HighCard { kickers: k1 } => {
            lemma_mask_index_bound(k1, 5);
            if let Hand::HighCard { kickers: k2 } = b {
                lemma_mask_bag_injective(k1, k2, 5);
            } else {
                lemma_other_ranges(b);
            }
        },
        Hand::OnePair { pair: p1, kickers: k1 } => {
            lemma_other_ranges(b);
            lemma_other_ranges(a);
            if let Hand::OnePair { pair: p2, kickers: k2 } = b {
                lemma_mask_index_bound(k1, 3);
                lemma_mask_index_bound(k2, 3);
                lemma_digits(p1.spec_index(), mask_index(k1, 3), p2.spec_index(), mask_index(k2, 3), 560);
                lemma_rank_eq(p1, p2);
                lemma_mask_bag_injective(k1, k2, 3);
            }
        },
        Hand::TwoPair { pairs: q1, kickers: k1 } => {
            lemma_other_ranges(b);
            lemma_other_ranges(a);
            if let Hand::TwoPair { pairs: q2, kickers: k2 } = b {
                lemma_mask_index_bound(k1, 1);
                lemma_mask_index_bound(k2, 1);
                lemma_digits(mask_index(q1, 2), mask_index(k1, 1), mask_index(q2, 2), mask_index(k2, 1), 14);
                lemma_mask_bag_injective(q1, q2, 2);
                lemma_mask_bag_injective(k1, k2, 1);
            }
        },
        Hand::ThreeOfAKind { trip: t1, kickers: k1 } => {
            lemma_other_ranges(b);
            lemma_other_ranges(a);
            if let Hand::ThreeOfAKind { trip: t2, kickers: k2 } = b {
                lemma_mask_index_bound(k1, 2);
                lemma_mask_index_bound(k2, 2);
                lemma_digits(t1.spec_index(), mask_index(k1, 2), t2.spec_index(), mask_index(k2, 2), 105);
                lemma_rank_eq(t1, t2);
                lemma_mask_bag_injective(k1, k2, 2);
            }
        },
        Hand::Straight { top: t1 } => {
            lemma_other_ranges(b);
            lemma_other_ranges(a);
            if let Hand::Straight { top: t2 } = b {
                lemma_rank_eq(t1, t2);
            }
        },
        Hand::Flush { ranks: r1 } => {
            lemma_other_ranges(b);
            lemma_other_ranges(a);
            if let Hand::Flush { ranks: r2 } = b {
                lemma_mask_bag_injective(r1, r2, 5);
            }
        },
        Hand::FullHouse { trip: t1, pair: p1 } => {
            lemma_other_ranges(b);
            lemma_other_ranges(a);
            if let Hand::FullHouse { trip: t2, pair: p2 } = b {
                p1.lemma_index_roundtrip();
                p2.lemma_index_roundtrip();
                lemma_digits(t1.spec_index(), p1.spec_index(), t2.spec_index(), p2.spec_index(), 13);
                lemma_rank_eq(t1, t2);
                lemma_rank_eq(p1, p2);
            }
        },
        Hand::FourOfAKind { quad: q1, kickers: k1 } => {
            lemma_other_ranges(b);
            lemma_other_ranges(a);
            if let Hand::FourOfAKind { quad: q2, kickers: k2 } = b {
                lemma_mask_index_bound(k1, 1);
                lemma_mask_index_bound(k2, 1);
                lemma_digits(q1.spec_index(), mask_index(k1, 1), q2.spec_index(), mask_index(k2, 1), 14);
                lemma_rank_eq(q1, q2);
                lemma_mask_bag_injective(k1, k2, 1);
            }
        },
        Hand::StraightFlush { top: t1 } => {
            lemma_other_ranges(b);
            lemma_other_ranges(a);
            if let Hand::StraightFlush { top: t2 } = b {
                lemma_rank_eq(t1, t2);
            }
        },
    }
}

/// The run of numbers each category of a fitting hand takes.
proof fn lemma_other_ranges(h: Hand)
    requires
        hand_fits(h),
    ensures
        h is HighCard <==> hand_index(h) < 8568,
        h is OnePair <==> 8568 <= hand_index(h) < 15848,
        h is TwoPair <==> 15848 <= hand_index(h) < 17318,
        h is ThreeOfAKind <==> 17318 <= hand_index(h) < 18683,
        h is Straight <==> 18683 <= hand_index(h) < 18696,
        h is Flush <==> 18696 <= hand_index(h) < 27264,
        h is FullHouse <==> 27264 <= hand_index(h) < 27433,
        h is FourOfAKind <==> 27433 <= hand_index(h) < 27615,
        h is StraightFlush <==> 27615 <= hand_index(h),
{
    lemma_bag_counts();
    lemma_hand_index_bound(h);
    match h {
        Hand::HighCard { kickers } => {
            lemma_mask_index_bound(kickers, 5);
        },
        Hand::OnePair { pair, kickers } => {
            pair.lemma_index_roundtrip();
            lemma_mask_index_bound(kickers, 3);
            let p = pair.spec_index();
            assert(p * 560 <= 12 * 560) by (nonlinear_arith)
                requires p <= 12;
        },
        Hand::TwoPair { pairs, kickers } => {
            lemma_mask_index_bound(pairs, 2);
            lemma_mask_index_bound(kickers, 1);
            let a = mask_index(pairs, 2);
            assert(a * 14 <= 104 * 14) by (nonlinear_arith)
                requires a <= 104;
        },
        Hand::ThreeOfAKind { trip, kickers } => {
            trip.lemma_index_roundtrip();
            lemma_mask_index_bound(kickers, 2);
            let t = trip.spec_index();
            assert(t * 105 <= 12 * 105) by (nonlinear_arith)
                requires t <= 12;
        },
        Hand::Straight { top } => {
            top.lemma_index_roundtrip();
        },
        Hand::Flush { ranks } => {
            lemma_mask_index_bound(ranks, 5);
        },
        Hand::FullHouse { trip, pair } => {
            trip.lemma_index_roundtrip();
            pair.lemma_index_roundtrip();
            let t = trip.spec_index();
            assert(t * 13 <= 12 * 13) by (nonlinear_arith)
                requires t <= 12;
        },
        Hand::FourOfAKind { quad, kickers } => {
            quad.lemma_index_roundtrip();
            lemma_mask_index_bound(kickers, 1);
            let q = quad.spec_index();
            assert(q * 14 <= 12 * 14) by (nonlinear_arith)
                requires q <= 12;
        },
        Hand::StraightFlush { top } => {
            top.lemma_index_roundtrip();
        },
    }
}

} // verus!

//! Sets and bags (multisets) of items, and the compact index spaces they encode into.

use vstd::prelude::*;
use vstd::arithmetic::power2::{pow2, lemma_pow2_pos};
use vstd::bits::{lemma_usize_shl_is_mul, lemma_usize_pow2_no_overflow};
use crate::combrs::{binom, binom_fits, comb, lemma_comb_zero, lemma_comb_monotone};

verus! {

/// The index of a set: the sum of `2^a` over its items `a`.
pub open spec fn set_code(s: Seq<usize>) -> nat
    decreases s.len(),
{
    if s.len() == 0 {
        0
    } else {
        set_code(s.drop_last()) + pow2(s.last() as nat)
    }
}

/// The index of a sorted bag: the sum of `C(s[i] + i, i + 1)` over its positions `i`.
pub open spec fn bag_code(s: Seq<usize>) -> nat
    decreases s.len(),
{
    if s.len() == 0 {
        0
    } else {
        let i = (s.len() - 1) as nat;
        bag_code(s.drop_last()) + comb((s.last() + i) as nat, i + 1)
    }
}

/// The code of any `k` items, sorted or not, each at most `m`, lies below `C(m + k, k)`.
pub proof fn lemma_bag_code_below(s: Seq<usize>, m: nat)
    requires
        forall|i: int| 0 <= i < s.len() ==> (#[trigger] s[i]) <= m,
    ensures
        bag_code(s) < comb(m + s.len(), s.len()),
    decreases s.len(),
{
    let k = s.len();
    if k > 0 {
        let i = (k - 1) as nat;
        assert forall|j: int| 0 <= j < s.drop_last().len() implies (#[trigger] s.drop_last()[j]) <= m by {
            assert(s.drop_last()[j] == s[j]);
        }
        lemma_bag_code_below(s.drop_last(), m);
        lemma_comb_monotone((s.last() + i) as nat, m + i, i + 1);
        assert(comb(m + k, k) == comb((m + k - 1) as nat, (k - 1) as nat) + comb((m + k - 1) as nat, k));
    }
}

/// Whether every item of `s` can be encoded in a `usize` index: the sum of the powers fits.
pub open spec fn set_code_fits(s: Seq<usize>) -> bool {
    &&& forall|i: int| 0 <= i < s.len() ==> (#[trigger] s[i]) < usize::BITS
    &&& set_code(s) <= usize::MAX
}

/// Whether every term of the index of `s` can be computed in a `usize`, and their sum fits.
pub open spec fn bag_code_fits(s: Seq<usize>) -> bool {
    &&& forall|i: int| 0 <= i < s.len() ==> (#[trigger] s[i]) + i <= usize::MAX
    &&& forall|i: int| 0 <= i < s.len() ==> binom_fits(((#[trigger] s[i]) + i) as nat, (i + 1) as nat)
    &&& bag_code(s) <= usize::MAX
}

/// Whether bit `i` of `idx` is set.
pub open spec fn has_bit(idx: nat, i: nat) -> bool {
    (idx / pow2(i)) % 2 == 1
}

/// The positions below `n` set in `idx`, lowest first: the set that `idx` encodes.
pub open spec fn set_items(idx: nat, n: nat) -> Seq<usize>
    decreases n,
{
    if n == 0 {
        Seq::empty()
    } else {
        set_items(idx, (n - 1) as nat) + if has_bit(idx, (n - 1) as nat) {
            seq![(n - 1) as usize]
        } else {
            Seq::<usize>::empty()
        }
    }
}

/// Encoding the items decoded from an index gives back the index, less what lies at or above
/// position `n`: decoding inverts encoding.
pub proof fn lemma_set_roundtrip(idx: nat, n: nat)
    requires
        n <= usize::MAX,
    ensures
        set_code(set_items(idx, n)) == idx % pow2(n),
    decreases n,
{
    if n == 0 {
        vstd::arithmetic::power2::lemma_pow2(0);
        vstd::arithmetic::power::lemma_pow0(2);
        assert(pow2(0) == 1);
        assert(idx % 1 == 0) by (nonlinear_arith);
    } else {
        let p = (n - 1) as nat;
        lemma_set_roundtrip(idx, p);
        let a = set_items(idx, p);
        let b = set_items(idx, n);
        vstd::arithmetic::power2::lemma_pow2_unfold(n);
        lemma_pow2_pos(p);
        let q = pow2(p);
        assert(pow2(n) == q * 2);
        vstd::arithmetic::div_mod::lemma_breakdown(idx as int, q as int, 2);
        vstd::arithmetic::div_mod::lemma_mod_pos_bound((idx / q) as int, 2);
        let r = (idx / q) % 2;
        if has_bit(idx, p) {
            assert(b =~= a.push(p as usize));
            assert(b.drop_last() =~= a);
            assert(set_code(b) == set_code(a) + q);
            assert(r == 1);
            assert(q * r == q) by (nonlinear_arith)
                requires r == 1;
        } else {
            assert(b =~= a);
            assert(r == 0);
            assert(q * r == 0);
        }
    }
}

/// The items decoded from an index increase, and lie below `n`.
pub proof fn lemma_set_items_sorted(idx: nat, n: nat)
    requires
        n <= usize::MAX,
    ensures
        forall|i: int| 0 <= i < set_items(idx, n).len() ==> (#[trigger] set_items(idx, n)[i]) < n,
        forall|i: int, j: int| 0 <= i < j < set_items(idx, n).len() ==> set_items(idx, n)[i] < set_items(idx, n)[j],
        set_items(idx, n).len() <= n,
    decreases n,
{
    if n > 0 {
        let p = (n - 1) as nat;
        lemma_set_items_sorted(idx, p);
        let a = set_items(idx, p);
        if has_bit(idx, p) {
            assert(set_items(idx, n) =~= a.push(p as usize));
        } else {
            assert(set_items(idx, n) =~= a);
        }
    }
}

/// The largest `a' <= a` with `C(a', i) <= idx` (or 0 if none is).
pub open spec fn greedy_top(a: nat, i: nat, idx: nat) -> nat
    decreases a,
{
    if comb(a, i) <= idx || a == 0 {
        a
    } else {
        greedy_top((a - 1) as nat, i, idx)
    }
}

/// Decoding a bag index greedily, from position `i - 1` down to 0: position `i - 1` gets
/// `a' - (i - 1)` for the largest `a' <= a` with `C(a', i) <= idx`, and the rest is decoded
/// from `a' - 1` with `idx - C(a', i)`.
pub open spec fn bag_decode(a: nat, i: nat, idx: nat, items: Seq<usize>) -> Seq<usize>
    decreases i,
{
    if i == 0 {
        items
    } else {
        let t = greedy_top(a, i, idx);
        let items2 = items.update(i - 1, (t - (i - 1)) as usize);
        if i == 1 {
            items2
        } else {
            bag_decode((t - 1) as nat, (i - 1) as nat, (idx - comb(t, i)) as nat, items2)
        }
    }
}

/// Whether every binomial coefficient that decoding a bag of `k` items out of `n` may compute
/// fits in a `usize`.
pub open spec fn bag_decode_fits(n: nat, k: nat) -> bool {
    forall|a: nat, i: nat| a + 1 <= n + k && 1 <= i <= k ==> #[trigger] binom_fits(a, i)
}


/// Whether `s` is a sorted bag of items below `n`.
pub open spec fn sorted_bag(s: Seq<usize>, n: nat) -> bool {
    &&& forall|i: int| 0 <= i < s.len() ==> (#[trigger] s[i]) < n
    &&& forall|i: int, j: int| 0 <= i <= j < s.len() ==> s[i] <= s[j]
}

/// The index of the first `i` items of a sorted bag lies between the last coefficient it adds
/// and the next coefficient up.
pub proof fn lemma_bag_code_bounds(s: Seq<usize>, n: nat, i: nat)
    requires
        sorted_bag(s, n),
        1 <= i <= s.len(),
    ensures
        comb((s[i - 1] + i - 1) as nat, i) <= bag_code(s.take(i as int)),
        bag_code(s.take(i as int)) < comb((s[i - 1] + i) as nat, i),
    decreases i,
{
    let p = s.take(i as int);
    assert(p.drop_last() =~= s.take(i - 1));
    assert(p.last() == s[i - 1]);
    let c = (s[i - 1] + i - 1) as nat;
    assert(bag_code(p) == bag_code(s.take(i - 1)) + comb(c, i));
    // Pascal's rule for the next coefficient up
    assert(comb(c + 1, i) == comb(c, (i - 1) as nat) + comb(c, i));
    if i == 1 {
        assert(s.take(0) =~= Seq::<usize>::empty());
        assert(comb(c, 0) == 1);
    } else {
        lemma_bag_code_bounds(s, n, (i - 1) as nat);
        // the previous item is no larger, so its next coefficient up is within C(c, i - 1)
        let c0 = (s[i - 2] + i - 1) as nat;
        assert(c0 <= c);
        lemma_comb_monotone(c0, c, (i - 1) as nat);
    }
}

/// The greedy search finds `t` when the index lies between the coefficient of `t` and the next
/// one up, starting from any `a >= t`.
proof fn lemma_greedy_finds(a: nat, t: nat, i: nat, idx: nat)
    requires
        t <= a,
        comb(t, i) <= idx,
        idx < comb(t + 1, i),
    ensures
        greedy_top(a, i, idx) == t,
    decreases a,
{
    if a > t {
        lemma_comb_monotone(t + 1, a, i);
        lemma_greedy_finds((a - 1) as nat, t, i, idx);
    }
}

/// Decoding the index of the first `i` items of a sorted bag, from any start at least as high as
/// the last of them, writes those items back.
proof fn lemma_bag_decode_prefix(s: Seq<usize>, n: nat, i: nat, a: nat, items: Seq<usize>)
    requires
        sorted_bag(s, n),
        1 <= i <= s.len(),
        items.len() == s.len(),
        s[i - 1] + i - 1 <= a,
        forall|j: int| i <= j < s.len() ==> items[j] == s[j],
    ensures
        bag_decode(a, i, bag_code(s.take(i as int)), items) == s,
    decreases i,
{
    let idx = bag_code(s.take(i as int));
    let c = (s[i - 1] + i - 1) as nat;
    lemma_bag_code_bounds(s, n, i);
    lemma_greedy_finds(a, c, i, idx);
    let items2 = items.update(i - 1, (c - (i - 1)) as usize);
    if i == 1 {
        assert(items2 =~= s);
    } else {
        let p = s.take(i as int);
        assert(p.drop_last() =~= s.take(i - 1));
        assert(p.last() == s[i - 1]);
        lemma_bag_decode_prefix(s, n, (i - 1) as nat, (c - 1) as nat, items2);
    }
}

/// Decoding the index of a sorted bag of `k >= 1` items below `n` gives the bag back, whatever
/// the items held before.
pub proof fn lemma_bag_roundtrip(s: Seq<usize>, n: nat, items: Seq<usize>)
    requires
        sorted_bag(s, n),
        s.len() >= 1,
        items.len() == s.len(),
    ensures
        bag_decode((n + s.len() - 1) as nat, s.len(), bag_code(s), items) == s,
{
    assert(s.take(s.len() as int) =~= s);
    lemma_bag_decode_prefix(s, n, s.len(), (n + s.len() - 1) as nat, items);
}

/// Two sorted bags of the same size with the same index are the same bag.
pub proof fn lemma_bag_code_injective(s: Seq<usize>, t: Seq<usize>, n: nat)
    requires
        sorted_bag(s, n),
        sorted_bag(t, n),
        s.len() == t.len(),
        bag_code(s) == bag_code(t),
    ensures
        s == t,
{
    if s.len() > 0 {
        lemma_bag_roundtrip(s, n, s);
        lemma_bag_roundtrip(t, n, s);
    } else {
        assert(s =~= t);
    }
}

/// `greedy_top` stops at a value whose coefficient fits the index, no lower than `i - 1`.
pub proof fn lemma_greedy_top(a: nat, i: nat, idx: nat)
    requires
        i >= 1,
        a + 1 >= i,
    ensures
        greedy_top(a, i, idx) <= a,
        greedy_top(a, i, idx) + 1 >= i,
        comb(greedy_top(a, i, idx), i) <= idx,
    decreases a,
{
    if comb(a, i) <= idx {
    } else {
        if a < i {
            lemma_comb_zero(a, i);
        }
        assert(a >= i);
        if a > 0 {
            lemma_greedy_top((a - 1) as nat, i, idx);
        }
    }
}

/// Decoding from `a` writes, at each of the first `i` positions, an item no greater than
/// `a - (i - 1)`, and leaves the other positions as they were.
pub proof fn lemma_bag_decode_range(a: nat, i: nat, idx: nat, items: Seq<usize>)
    requires
        a + 1 >= i,
        a <= usize::MAX,
        i <= items.len(),
    ensures
        bag_decode(a, i, idx, items).len() == items.len(),
        forall|j: int| 0 <= j < i ==> (#[trigger] bag_decode(a, i, idx, items)[j]) + i <= a + 1,
        forall|j: int| i <= j < items.len() ==> #[trigger] bag_decode(a, i, idx, items)[j] == items[j],
    decreases i,
{
    if i > 0 {
        let t = greedy_top(a, i, idx);
        lemma_greedy_top(a, i, idx);
        let items2 = items.update(i - 1, (t - (i - 1)) as usize);
        if i > 1 {
            lemma_bag_decode_range((t - 1) as nat, (i - 1) as nat, (idx - comb(t, i)) as nat, items2);
        }
    }
}

/// Choosing one item out of `n` can be done in `n` ways.
proof fn lemma_comb_one(n: nat)
    ensures
        comb(n, 1) == n,
    decreases n,
{
    if n > 0 {
        lemma_comb_one((n - 1) as nat);
        assert(comb((n - 1) as nat, 0) == 1);
    }
}

/// Below the next coefficient up from `a`, the greedy search stops at the `t` whose coefficient
/// is within the index and the next one up is beyond it.
proof fn lemma_greedy_brackets(a: nat, i: nat, idx: nat)
    requires
        i >= 1,
        idx < comb(a + 1, i),
    ensures
        greedy_top(a, i, idx) <= a,
        comb(greedy_top(a, i, idx), i) <= idx,
        idx < comb(greedy_top(a, i, idx) + 1, i),
    decreases a,
{
    if comb(a, i) <= idx {
    } else if a == 0 {
        assert(comb(0, i) == 0);
    } else {
        lemma_greedy_brackets((a - 1) as nat, i, idx);
    }
}

/// Decoding an index below the next coefficient up from `a` writes a sorted prefix of `i` items,
/// the last no greater than `a - (i - 1)`, whose index is the index decoded.
proof fn lemma_bag_decode_code(a: nat, i: nat, idx: nat, items: Seq<usize>)
    requires
        i >= 1,
        i <= items.len(),
        a <= usize::MAX,
        idx < comb(a + 1, i),
    ensures
        bag_decode(a, i, idx, items).len() == items.len(),
        bag_code(bag_decode(a, i, idx, items).take(i as int)) == idx,
        bag_decode(a, i, idx, items)[i - 1] + i <= a + 1,
        forall|j: int, l: int| 0 <= j <= l < i ==> bag_decode(a, i, idx, items)[j] <= bag_decode(a, i, idx, items)[l],
    decreases i,
{
    let t = greedy_top(a, i, idx);
    lemma_greedy_brackets(a, i, idx);
    if t + 1 < i {
        lemma_comb_zero(t + 1, i);
    }
    let items2 = items.update(i - 1, (t - (i - 1)) as usize);
    let d = bag_decode(a, i, idx, items);
    if i == 1 {
        lemma_comb_one(t);
        lemma_comb_one(t + 1);
        assert(d == items2);
        assert(d.take(1).drop_last() =~= Seq::<usize>::empty());
        assert(d.take(1).last() == t);
        assert(t == idx);
        assert(bag_code(d.take(1)) == bag_code(d.take(1).drop_last()) + comb((t + 0) as nat, 1));
    } else {
        // Pascal's rule bounds what is left of the index
        assert(comb(t + 1, i) == comb(t, (i - 1) as nat) + comb(t, i));
        let idx2 = (idx - comb(t, i)) as nat;
        lemma_bag_decode_code((t - 1) as nat, (i - 1) as nat, idx2, items2);
        lemma_bag_decode_range((t - 1) as nat, (i - 1) as nat, idx2, items2);
        assert(d == bag_decode((t - 1) as nat, (i - 1) as nat, idx2, items2));
        assert(d[i - 1] == items2[i - 1]);
        assert(d.take(i as int).drop_last() =~= d.take(i - 1));
        assert(d.take(i as int).last() == d[i - 1]);
        assert(d[i - 1] + (i - 1) == t);
        assert(bag_code(d.take(i as int)) == bag_code(d.take(i - 1)) + comb(t, i));
    }
}

/// Decoding any index of a space of bags of `k >= 1` items below `n` gives a sorted bag below
/// `n` whose index is the one decoded: with [lemma_bag_roundtrip], encoding and decoding are
/// inverse between the sorted bags and the indices below `C(n + k - 1, k)`.
pub proof fn lemma_bag_index_roundtrip(n: nat, k: nat, idx: nat, items: Seq<usize>)
    requires
        k >= 1,
        items.len() == k,
        n + k <= usize::MAX,
        idx < comb((n + k - 1) as nat, k),
    ensures
        sorted_bag(bag_decode((n + k - 1) as nat, k, idx, items), n),
        bag_code(bag_decode((n + k - 1) as nat, k, idx, items)) == idx,
{
    let a = (n + k - 1) as nat;
    if a == 0 {
        assert(comb(0, k) == 0);
    }
    let b = (a - 1) as nat;
    // the greedy search starts one lower, as the index is below the coefficient of `a`
    assert(greedy_top(a, k, idx) == greedy_top(b, k, idx));
    assert(bag_decode(a, k, idx, items) == bag_decode(b, k, idx, items));
    lemma_bag_decode_code(b, k, idx, items);
    let d = bag_decode(a, k, idx, items);
    assert(d.take(k as int) =~= d);
}

/// A helper structure to encode and decode sets (combinations) into and from index spaces.
#[derive(Debug, Clone, Copy, PartialEq, Eq, Structural, Hash, PartialOrd, Ord)]
pub struct SetSpace {
    /// The number of items to choose from, i.e. the universe of possible single items.
    pub num_uni: usize,
}

impl SetSpace {
    /// The space of sets of items below `num_uni`.
    pub fn new(num_uni: usize) -> (r: SetSpace)
        ensures
            r.num_uni == num_uni,
    {
        SetSpace { num_uni }
    }

    /// Encode a sequence of items into a single index within this space: the sum of `2^a` over
    /// its items `a`.
    pub fn enc(&self, seq: &[usize]) -> (r: usize)
        requires
            seq@.len() == self.num_uni,
            set_code_fits(seq@),
        ensures
            r == set_code(seq@),
    {
        let mut idx: usize = 0;
        let mut i: usize = 0;
        while i < seq.len()
            invariant
                i <= seq@.len(),
                set_code_fits(seq@),
                idx == set_code(seq@.take(i as int)),
            decreases seq@.len() - i,
        {
            let a = seq[i];
            proof {
                assert(seq@.take(i + 1).drop_last() =~= seq@.take(i as int));
                lemma_set_code_prefix(seq@, (i + 1) as nat);
                lemma_usize_pow2_no_overflow(a as nat);
                lemma_usize_shl_is_mul(1, a);
            }
            idx = idx + (1usize << a);
            i = i + 1;
        }
        proof {
            assert(seq@.take(seq@.len() as int) =~= seq@);
        }
        idx
    }

    /// Decode an index into the items of the set it encodes: the positions below `num_uni` set
    /// in the index, lowest first, are written at the front of `items`; the rest of `items` is
    /// left as it was.
    pub fn dec(&self, idx: usize, items: &mut Vec<usize>)
        requires
            old(items)@.len() == self.num_uni,
        ensures
            final(items)@ == set_items(idx as nat, self.num_uni as nat) + old(items)@.skip(
                set_items(idx as nat, self.num_uni as nat).len() as int,
            ),
    {
        let n = self.num_uni;
        let ghost x = idx as nat;
        let mut rest = idx;
        let mut pos: usize = 0;
        let mut i: usize = 0;
        proof {
            vstd::arithmetic::power2::lemma_pow2(0);
            vstd::arithmetic::power::lemma_pow0(2);
        }
        while i < n
            invariant
                i <= n,
                n == self.num_uni,
                items@.len() == n,
                old(items)@.len() == n,
                rest as nat == x / pow2(i as nat),
                pos as nat == set_items(x, i as nat).len(),
                pos <= i,
                items@ == set_items(x, i as nat) + old(items)@.skip(pos as int),
            decreases n - i,
        {
            proof {
                lemma_set_items_sorted(x, i as nat);
                lemma_pow2_pos(i as nat);
                vstd::arithmetic::power2::lemma_pow2_unfold((i + 1) as nat);
                vstd::arithmetic::div_mod::lemma_div_denominator(x as int, pow2(i as nat) as int, 2);
            }
            let ghost before = items@;
            if rest % 2 == 1 {
                proof {
                    assert(has_bit(x, i as nat));
                    assert(set_items(x, (i + 1) as nat) =~= set_items(x, i as nat).push(i));
                }
                items.set(pos, i);
                proof {
                    let si = set_items(x, i as nat);
                    let si1 = set_items(x, (i + 1) as nat);
                    assert(si1 == si.push(i));
                    assert(si1.len() == pos + 1);
                    let want = si1 + old(items)@.skip(pos + 1);
                    assert(want.len() == n);
                    assert forall|j: int| 0 <= j < n implies items@[j] == want[j] by {
                        if j < pos {
                            assert(before[j] == si[j]);
                            assert(want[j] == si1[j]);
                        } else if j == pos {
                            assert(want[j] == si1[j]);
                        } else {
                            assert(before[j] == old(items)@.skip(pos as int)[j - pos]);
                            assert(want[j] == old(items)@.skip(pos + 1)[j - pos - 1]);
                        }
                    }
                    assert(items@ =~= want);
                }
                pos = pos + 1;
            } else {
                proof {
                    assert(!has_bit(x, i as nat));
                    assert(set_items(x, (i + 1) as nat) =~= set_items(x, i as nat));
                }
            }
            rest = rest / 2;
            i = i + 1;
        }
    }
}

/// The index of a prefix is at most the index of the whole.
proof fn lemma_set_code_prefix(s: Seq<usize>, j: nat)
    requires
        j <= s.len(),
    ensures
        set_code(s.take(j as int)) <= set_code(s),
    decreases s.len(),
{
    if j < s.len() {
        assert(s.drop_last().take(j as int) =~= s.take(j as int));
        lemma_set_code_prefix(s.drop_last(), j);
    } else {
        assert(s.take(j as int) =~= s);
    }
}

/// The index of a prefix of a bag is at most the index of the whole.
proof fn lemma_bag_code_prefix(s: Seq<usize>, j: nat)
    requires
        j <= s.len(),
    ensures
        bag_code(s.take(j as int)) <= bag_code(s),
    decreases s.len(),
{
    if j < s.len() {
        assert(s.drop_last().take(j as int) =~= s.take(j as int));
        lemma_bag_code_prefix(s.drop_last(), j);
    } else {
        assert(s.take(j as int) =~= s);
    }
}

/// A helper structure to encode and decode bags (multisets) into and from index spaces.
#[derive(Debug, Clone, Copy, PartialEq, Eq, Structural, Hash, PartialOrd, Ord)]
pub struct BagSpace {
    /// The number of items to choose from, i.e. the universe of possible single items.
    pub num_uni: usize,
    /// The number of items in a particular bag within this space, i.e. the number to choose.
    pub num_seq: usize,
}

impl BagSpace {
    /// The space of bags of `num_seq` items below `num_uni`.
    pub fn new(num_uni: usize, num_seq: usize) -> (r: BagSpace)
        ensures
            r.num_uni == num_uni,
            r.num_seq == num_seq,
    {
        BagSpace { num_uni, num_seq }
    }

    /// Encode a sorted sequence of items into a single index within this space: the sum of
    /// `C(seq[i] + i, i + 1)` over the positions `i`.
    pub fn enc(&self, seq: &[usize]) -> (r: usize)
        requires
            seq@.len() == self.num_seq,
            bag_code_fits(seq@),
        ensures
            r == bag_code(seq@),
    {
        let mut idx: usize = 0;
        let mut i: usize = 0;
        while i < seq.len()
            invariant
                i <= seq@.len(),
                bag_code_fits(seq@),
                idx == bag_code(seq@.take(i as int)),
            decreases seq@.len() - i,
        {
            let a = seq[i];
            proof {
                assert(seq@.take(i + 1).drop_last() =~= seq@.take(i as int));
                assert(seq@.take(i + 1).last() == a);
                lemma_bag_code_prefix(seq@, (i + 1) as nat);
                assert(seq@[i as int] + i <= usize::MAX);
                assert(binom_fits((seq@[i as int] + i) as nat, (i + 1) as nat));
            }
            let c = binom(a + i, i + 1);
            idx = idx + c;
            i = i + 1;
        }
        proof {
            assert(seq@.take(seq@.len() as int) =~= seq@);
        }
        idx
    }

    /// Decode an index into a sorted bag, greedily from the last position down: position `i - 1`
    /// gets `a' - (i - 1)` for the largest `a'` with `C(a', i)` within what is left of the index.
    pub fn dec(&self, idx: usize, items: &mut Vec<usize>)
        requires
            old(items)@.len() == self.num_seq,
            self.num_seq >= 1,
            self.num_uni + self.num_seq <= usize::MAX,
            bag_decode_fits(self.num_uni as nat, self.num_seq as nat),
        ensures
            final(items)@ == bag_decode(
                (self.num_uni + self.num_seq - 1) as nat,
                self.num_seq as nat,
                idx as nat,
                old(items)@,
            ),
    {
        let n = self.num_uni;
        let k = self.num_seq;
        let mut idx = idx;
        let mut a: usize = n + k - 1;
        let mut pos: usize = k - 1;
        let mut i: usize = k;
        let ghost want = bag_decode(a as nat, k as nat, idx as nat, items@);
        loop
            invariant
                1 <= i <= k,
                pos + 1 == i,
                a + 1 >= i,
                a + 1 <= n + k,
                items@.len() == k,
                n == self.num_uni,
                k == self.num_seq,
                bag_decode_fits(n as nat, k as nat),
                bag_decode(a as nat, i as nat, idx as nat, items@) == want,
            ensures
                items@ == want,
            decreases i,
        {
            // find the largest `a` whose coefficient fits what is left of the index
            proof {
                lemma_greedy_top(a as nat, i as nat, idx as nat);
            }
            let ghost a0 = a;
            loop
                invariant
                    1 <= i <= k,
                    a <= a0,
                    a0 + 1 <= n + k,
                    bag_decode_fits(n as nat, k as nat),
                    greedy_top(a as nat, i as nat, idx as nat) == greedy_top(
                        a0 as nat,
                        i as nat,
                        idx as nat,
                    ),
                    greedy_top(a0 as nat, i as nat, idx as nat) + 1 >= i,
                    comb(greedy_top(a0 as nat, i as nat, idx as nat), i as nat) <= idx,
                ensures
                    a == greedy_top(a0 as nat, i as nat, idx as nat),
                decreases a,
            {
                proof {
                    assert(binom_fits(a as nat, i as nat));
                }
                let c = binom(a, i);
                if c <= idx {
                    break;
                }
                if a == 0 {
                    break;
                }
                a = a - 1;
            }
            items.set(pos, a - pos);
            if i == 1 {
                break;
            }
            proof {
                assert(binom_fits(a as nat, i as nat));
            }
            let c = binom(a, i);
            idx = idx - c;
            a = a - 1;
            pos = pos - 1;
            i = i - 1;
        }
    }
}

} // verus!

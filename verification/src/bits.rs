//! Bit-level facts shared by the packed masks of the deck: which positions are set, how many
//! are set below a bound, and the highest set positions.

use vstd::prelude::*;

verus! {

/// Whether position `i` of `x` is set.
pub open spec fn bit(x: u64, i: nat) -> bool {
    i < 64 && (x >> (i as u64)) & 1u64 == 1u64
}

/// The number of set positions of `x` below `n`.
pub open spec fn count_below(x: u64, n: nat) -> nat
    decreases n,
{
    if n == 0 {
        0
    } else {
        count_below(x, (n - 1) as nat) + if bit(x, (n - 1) as nat) { 1nat } else { 0nat }
    }
}

/// The number of set positions of `x`.
pub open spec fn popcount(x: u64) -> nat {
    count_below(x, 64)
}

/// The value with only position `i` set.
pub open spec fn single(i: nat) -> u64 {
    1u64 << (i as u64)
}

/// The `k` highest set positions of `x` among the positions below `n`.
pub open spec fn top_bits(x: u64, n: nat, k: nat) -> u64
    decreases n,
{
    if n == 0 || k == 0 {
        0
    } else if bit(x, (n - 1) as nat) {
        single((n - 1) as nat) | top_bits(x, (n - 1) as nat, (k - 1) as nat)
    } else {
        top_bits(x, (n - 1) as nat, k)
    }
}

/// The value whose positions below `n` are all set, and no other.
pub open spec fn low_mask(n: nat) -> u64 {
    if n >= 64 { 0xffff_ffff_ffff_ffffu64 } else { ((1u64 << (n as u64)) - 1) as u64 }
}

/// How `|`, `&` and `^` act on each position, and that zero has no set position.
pub proof fn lemma_bit_ops(a: u64, b: u64, i: nat)
    ensures
        bit(a | b, i) == (bit(a, i) || bit(b, i)),
        bit(a & b, i) == (bit(a, i) && bit(b, i)),
        bit(a ^ b, i) == (bit(a, i) != bit(b, i)),
        !bit(0, i),
{
    if i < 64 {
        let s = i as u64;
        assert({
            &&& (((a | b) >> s) & 1u64 == 1u64 <==> ((a >> s) & 1u64 == 1u64 || (b >> s) & 1u64
                == 1u64))
            &&& (((a & b) >> s) & 1u64 == 1u64 <==> ((a >> s) & 1u64 == 1u64 && (b >> s) & 1u64
                == 1u64))
            &&& (((a ^ b) >> s) & 1u64 == 1u64 <==> ((a >> s) & 1u64 == 1u64) != ((b >> s) & 1u64
                == 1u64))
            &&& (0u64 >> s) & 1u64 == 0u64
        }) by (bit_vector);
    }
}

/// The only set position of `single(i)` is `i`.
pub proof fn lemma_bit_single(i: nat, j: nat)
    requires
        i < 64,
    ensures
        bit(single(i), j) == (i == j),
{
    if j < 64 {
        let s = i as u64;
        let t = j as u64;
        assert(((1u64 << s) >> t) & 1u64 == 1u64 <==> s == t) by (bit_vector)
            requires
                s < 64,
                t < 64,
        ;
    }
}

/// Zero is the identity of `|`, which is associative and commutative.
pub proof fn lemma_or_laws(a: u64, b: u64, c: u64)
    ensures
        0 | a == a,
        a | 0 == a,
        a | (b | c) == (a | b) | c,
        a | b == b | a,
{
    assert(0 | a == a && a | 0 == a && a | (b | c) == (a | b) | c && a | b == b | a)
        by (bit_vector);
}

/// Widening a `u16` commutes with the bitwise operations.
pub proof fn lemma_u16_ops(a: u16, b: u16)
    ensures
        (a | b) as u64 == (a as u64) | (b as u64),
        (a & b) as u64 == (a as u64) & (b as u64),
        (a ^ b) as u64 == (a as u64) ^ (b as u64),
{
    assert((a | b) as u64 == (a as u64) | (b as u64) && (a & b) as u64 == (a as u64) & (b as u64)
        && (a ^ b) as u64 == (a as u64) ^ (b as u64)) by (bit_vector);
}

/// Widening a `u8` commutes with the bitwise operations.
pub proof fn lemma_u8_ops(a: u8, b: u8)
    ensures
        (a | b) as u64 == (a as u64) | (b as u64),
        (a & b) as u64 == (a as u64) & (b as u64),
        (a ^ b) as u64 == (a as u64) ^ (b as u64),
{
    assert((a | b) as u64 == (a as u64) | (b as u64) && (a & b) as u64 == (a as u64) & (b as u64)
        && (a ^ b) as u64 == (a as u64) ^ (b as u64)) by (bit_vector);
}

/// A single `u16` position, widened.
pub proof fn lemma_u16_single(i: u16)
    requires
        i < 16,
    ensures
        ((1u16 << i) as u64) == single(i as nat),
        single(i as nat) < 0x1_0000,
{
    let x = i as u64;
    assert((1u16 << i) as u64 == 1u64 << x && (1u64 << x) < 0x1_0000u64) by (bit_vector)
        requires
            i < 16,
            x == i as u64,
    ;
}

/// A single `u8` position, widened.
pub proof fn lemma_u8_single(i: u8)
    requires
        i < 8,
    ensures
        ((1u8 << i) as u64) == single(i as nat),
        single(i as nat) < 0x100,
{
    let x = i as u64;
    assert((1u8 << i) as u64 == 1u64 << x && (1u64 << x) < 0x100u64) by (bit_vector)
        requires
            i < 8,
            x == i as u64,
    ;
}

/// Keeping the low 13 positions leaves a value below `2^13`.
pub proof fn lemma_mask13(a: u16, b: u64)
    ensures
        a & 0x1fffu16 < 0x2000,
        b & 0x1fffu64 < 0x2000,
{
    assert(a & 0x1fffu16 < 0x2000 && b & 0x1fffu64 < 0x2000) by (bit_vector);
}

/// Whether position `i` of `x` is set, read from a single-position test.
pub proof fn lemma_test_bit(x: u64, i: nat)
    requires
        i < 64,
    ensures
        (x & single(i) != 0) == bit(x, i),
{
    let s = i as u64;
    assert((x & (1u64 << s) != 0u64) == ((x >> s) & 1u64 == 1u64)) by (bit_vector)
        requires
            s < 64,
    ;
}

pub proof fn lemma_bit_low_mask(n: nat, i: nat)
    requires
        n < 64,
    ensures
        bit(low_mask(n), i) == (i < n),
{
    if i < 64 {
        let s = i as u64;
        let m = n as u64;
        assert((((1u64 << m) - 1u64) as u64 >> s) & 1u64 == 1u64 <==> s < m) by (bit_vector)
            requires
                m < 64,
                s < 64,
        ;
    }
}

/// Halving shifts every position down by one.
proof fn lemma_half_bits(a: u64, s: u64)
    ensures
        s < 63 ==> ((a / 2) >> s) & 1u64 == (a >> ((s + 1) as u64)) & 1u64,
        ((a / 2) >> 63u64) & 1u64 == 0u64,
        (a >> 0u64) & 1u64 == a % 2,
{
    assert((s < 63 ==> ((a / 2) >> s) & 1u64 == (a >> ((s + 1) as u64)) & 1u64) && ((a / 2)
        >> 63u64) & 1u64 == 0u64 && (a >> 0u64) & 1u64 == a % 2) by (bit_vector);
}

/// Two values with the same set positions are equal.
pub proof fn lemma_bits_ext(a: u64, b: u64)
    requires
        forall|i: nat| i < 64 ==> bit(a, i) == bit(b, i),
    ensures
        a == b,
    decreases a + b,
{
    if a == 0 && b == 0 {
    } else {
        assert(bit(a, 0) == bit(b, 0));
        lemma_half_bits(a, 0);
        lemma_half_bits(b, 0);
        let ha = a / 2;
        let hb = b / 2;
        assert forall|i: nat| i < 64 implies bit(ha, i) == bit(hb, i) by {
            let s = i as u64;
            lemma_half_bits(a, s);
            lemma_half_bits(b, s);
            if i < 63 {
                assert(bit(a, i + 1) == bit(b, i + 1));
            }
        }
        lemma_bits_ext(ha, hb);
        assert(a == 2 * ha + a % 2);
        assert(b == 2 * hb + b % 2);
    }
}

/// A value below `2^n` has no set position at or above `n`.
pub proof fn lemma_bits_below(x: u64, n: nat, i: nat)
    requires
        n < 64,
        x < single(n),
        i >= n,
    ensures
        !bit(x, i),
{
    if i < 64 {
        let s = i as u64;
        let m = n as u64;
        assert((x >> s) & 1u64 == 0u64) by (bit_vector)
            requires
                m < 64,
                s < 64,
                m <= s,
                x < (1u64 << m),
        ;
    }
}

/// A value with no set position at or above `n` is below `2^n`.
pub proof fn lemma_bits_below_converse(x: u64, n: nat)
    requires
        n < 64,
        forall|i: nat| n <= i < 64 ==> !bit(x, i),
    ensures
        x < single(n),
{
    let y = x & low_mask(n);
    assert forall|i: nat| i < 64 implies bit(y, i) == bit(x, i) by {
        lemma_bit_ops(x, low_mask(n), i);
        lemma_bit_low_mask(n, i);
    }
    lemma_bits_ext(y, x);
    let m = n as u64;
    assert(x & (((1u64 << m) - 1u64) as u64) < (1u64 << m)) by (bit_vector)
        requires
            m < 64,
    ;
}

/// Positions below `n` combine to a value below `2^n`.
pub proof fn lemma_or_below(a: u64, b: u64, n: nat)
    requires
        n < 64,
        a < single(n),
        b < single(n),
    ensures
        a | b < single(n),
{
    assert forall|i: nat| n <= i < 64 implies !bit(a | b, i) by {
        lemma_bit_ops(a, b, i);
        lemma_bits_below(a, n, i);
        lemma_bits_below(b, n, i);
    }
    lemma_bits_below_converse(a | b, n);
}

/// A lower single position is below a higher one.
pub proof fn lemma_single_below(i: nat, n: nat)
    requires
        i < n < 64,
    ensures
        single(i) < single(n),
{
    assert forall|k: nat| n <= k < 64 implies !bit(single(i), k) by {
        lemma_bit_single(i, k);
    }
    lemma_bits_below_converse(single(i), n);
}

pub proof fn lemma_count_below_bound(x: u64, n: nat)
    ensures
        count_below(x, n) <= n,
    decreases n,
{
    if n > 0 {
        lemma_count_below_bound(x, (n - 1) as nat);
    }
}

pub proof fn lemma_count_below_zero(n: nat)
    ensures
        count_below(0, n) == 0,
    decreases n,
{
    if n > 0 {
        lemma_count_below_zero((n - 1) as nat);
        lemma_bit_ops(0, 0, (n - 1) as nat);
    }
}

/// Counting depends only on the positions below the bound.
pub proof fn lemma_count_below_same(x: u64, y: u64, n: nat)
    requires
        forall|i: nat| i < n ==> bit(x, i) == bit(y, i),
    ensures
        count_below(x, n) == count_below(y, n),
    decreases n,
{
    if n > 0 {
        lemma_count_below_same(x, y, (n - 1) as nat);
    }
}

/// Setting a position that was clear, below the bound, adds one to the count.
pub proof fn lemma_count_below_add(x: u64, j: nat, n: nat)
    requires
        j < n,
        j < 64,
        !bit(x, j),
    ensures
        count_below(x | single(j), n) == count_below(x, n) + 1,
    decreases n,
{
    lemma_bit_ops(x, single(j), (n - 1) as nat);
    lemma_bit_single(j, (n - 1) as nat);
    if j == n - 1 {
        assert forall|i: nat| i < (n - 1) as nat implies bit(x | single(j), i) == bit(x, i) by {
            lemma_bit_ops(x, single(j), i);
            lemma_bit_single(j, i);
        }
        lemma_count_below_same(x | single(j), x, (n - 1) as nat);
    } else {
        lemma_count_below_add(x, j, (n - 1) as nat);
    }
}

/// A count stays at its final value past the highest set position.
pub proof fn lemma_count_below_full(x: u64, n: nat, m: nat)
    requires
        n <= m,
        forall|i: nat| n <= i < m ==> !bit(x, i),
    ensures
        count_below(x, m) == count_below(x, n),
    decreases m,
{
    if m > n {
        lemma_count_below_full(x, n, (m - 1) as nat);
    }
}

/// Each set position of `top_bits` is set in `x` and lies below `n`.
pub proof fn lemma_top_bits_subset(x: u64, n: nat, k: nat, i: nat)
    requires
        n <= 64,
    ensures
        bit(top_bits(x, n, k), i) ==> bit(x, i) && i < n,
    decreases n,
{
    if n == 0 || k == 0 {
        lemma_bit_ops(0, 0, i);
    } else if bit(x, (n - 1) as nat) {
        lemma_bit_ops(single((n - 1) as nat), top_bits(x, (n - 1) as nat, (k - 1) as nat), i);
        lemma_bit_single((n - 1) as nat, i);
        lemma_top_bits_subset(x, (n - 1) as nat, (k - 1) as nat, i);
    } else {
        lemma_top_bits_subset(x, (n - 1) as nat, k, i);
    }
}

/// Positions with nothing set between `n` and `m` change nothing of what `top_bits` keeps.
pub proof fn lemma_top_bits_gap(x: u64, n: nat, m: nat, k: nat)
    requires
        n <= m,
        forall|b: nat| n <= b < m ==> !#[trigger] bit(x, b),
    ensures
        top_bits(x, m, k) == top_bits(x, n, k),
    decreases m,
{
    if m > n && k > 0 {
        lemma_top_bits_gap(x, n, (m - 1) as nat, k);
    }
}

/// `top_bits` of bits that repeat those of `v` from position `o` on, with nothing below `o`,
/// keeps the same positions as `top_bits` of `v`, moved up by `o`.
pub proof fn lemma_top_bits_shift(x: u64, v: u64, o: nat, m: nat, k: nat)
    requires
        o + m <= 64,
        forall|i: nat| i < m ==> #[trigger] bit(x, o + i) == bit(v, i),
        forall|b: nat| b < o ==> !#[trigger] bit(x, b),
    ensures
        forall|i: nat| i < m ==> #[trigger] bit(top_bits(x, o + m, k), o + i) == bit(top_bits(v, m, k), i),
        forall|b: nat| b < o ==> !#[trigger] bit(top_bits(x, o + m, k), b),
    decreases m,
{
    if m == 0 || k == 0 {
        assert forall|b: nat| b < o implies !#[trigger] bit(top_bits(x, o + m, k), b) by {
            lemma_top_bits_subset(x, o + m, k, b);
        }
        if k == 0 {
            assert forall|i: nat| i < m implies #[trigger] bit(top_bits(x, o + m, k), o + i) == bit(top_bits(v, m, k), i) by {
                lemma_bit_ops(0, 0, o + i);
                lemma_bit_ops(0, 0, i);
            }
        }
    } else {
        let p = (m - 1) as nat;
        assert(bit(x, o + p) == bit(v, p));
        if bit(v, p) {
            lemma_top_bits_shift(x, v, o, p, (k - 1) as nat);
            let tx = top_bits(x, o + p, (k - 1) as nat);
            let tv = top_bits(v, p, (k - 1) as nat);
            assert(top_bits(x, o + m, k) == single(o + p) | tx);
            assert(top_bits(v, m, k) == single(p) | tv);
            assert forall|i: nat| i < m implies #[trigger] bit(top_bits(x, o + m, k), o + i) == bit(top_bits(v, m, k), i) by {
                lemma_bit_ops(single(o + p), tx, o + i);
                lemma_bit_ops(single(p), tv, i);
                lemma_bit_single(o + p, o + i);
                lemma_bit_single(p, i);
                if i == p {
                } else {
                    lemma_top_bits_subset(x, o + p, (k - 1) as nat, o + i);
                    lemma_top_bits_subset(v, p, (k - 1) as nat, i);
                }
            }
            assert forall|b: nat| b < o implies !#[trigger] bit(top_bits(x, o + m, k), b) by {
                lemma_bit_ops(single(o + p), tx, b);
                lemma_bit_single(o + p, b);
            }
        } else {
            lemma_top_bits_shift(x, v, o, p, k);
            assert(top_bits(x, o + m, k) == top_bits(x, o + p, k));
            assert(top_bits(v, m, k) == top_bits(v, p, k));
            assert forall|i: nat| i < m implies #[trigger] bit(top_bits(x, o + m, k), o + i) == bit(top_bits(v, m, k), i) by {
                if i == p {
                    lemma_top_bits_subset(x, o + p, k, o + i);
                    lemma_top_bits_subset(v, p, k, i);
                }
            }
        }
    }
}

/// The positions `top_bits` keeps are the highest: a set position above a kept one is kept too.
pub proof fn lemma_top_bits_max(x: u64, n: nat, k: nat, i: nat, j: nat)
    requires
        n <= 64,
        i < j < n,
        bit(x, j),
        bit(top_bits(x, n, k), i),
    ensures
        bit(top_bits(x, n, k), j),
    decreases n,
{
    let p = (n - 1) as nat;
    if k == 0 {
        lemma_bit_ops(0, 0, i);
    } else if bit(x, p) {
        let rest = top_bits(x, p, (k - 1) as nat);
        lemma_bit_ops(single(p), rest, i);
        lemma_bit_ops(single(p), rest, j);
        lemma_bit_single(p, i);
        lemma_bit_single(p, j);
        if j < p {
            lemma_top_bits_max(x, p, (k - 1) as nat, i, j);
        }
    } else {
        lemma_top_bits_max(x, p, k, i, j);
    }
}

/// `top_bits` keeps `min(k, count)` positions.
pub proof fn lemma_top_bits_count(x: u64, n: nat, k: nat)
    requires
        n <= 64,
    ensures
        count_below(top_bits(x, n, k), n) == if k < count_below(x, n) { k } else { count_below(x, n) },
        count_below(top_bits(x, n, k), 64) == count_below(top_bits(x, n, k), n),
    decreases n,
{
    assert forall|i: nat| n <= i < 64 implies !bit(top_bits(x, n, k), i) by {
        lemma_top_bits_subset(x, n, k, i);
    }
    lemma_count_below_full(top_bits(x, n, k), n, 64);
    if n == 0 {
    } else if k == 0 {
        lemma_count_below_zero(n);
    } else if bit(x, (n - 1) as nat) {
        let m = (n - 1) as nat;
        let t = top_bits(x, m, (k - 1) as nat);
        lemma_top_bits_count(x, m, (k - 1) as nat);
        lemma_top_bits_subset(x, m, (k - 1) as nat, m);
        lemma_count_below_add(t, m, n);
        lemma_or_laws(t, single(m), 0);
        assert forall|i: nat| i < m implies bit(t, i) == bit(single(m) | t, i) by {
            lemma_bit_ops(single(m), t, i);
            lemma_bit_single(m, i);
        }
        lemma_count_below_same(t, single(m) | t, m);
        assert(!bit(t, m));
    } else {
        let m = (n - 1) as nat;
        let t = top_bits(x, m, k);
        lemma_top_bits_count(x, m, k);
        lemma_top_bits_subset(x, m, k, m);
    }
}

/// Counting the set positions of `x` below `n`, one position at a time.
pub fn count_bits(x: u64, n: u32) -> (r: u32)
    requires
        n <= 64,
    ensures
        r == count_below(x, n as nat),
{
    let mut c: u32 = 0;
    let mut i: u32 = 0;
    while i < n
        invariant
            i <= n <= 64,
            c == count_below(x, i as nat),
            c <= i,
        decreases n - i,
    {
        proof {
            lemma_count_below_bound(x, i as nat);
        }
        if (x >> i) & 1 == 1 {
            c = c + 1;
        }
        i = i + 1;
    }
    c
}

/// Keeping the `k` highest set positions of `x` below `n`, scanning from the top.
pub fn keep_top_bits(x: u64, n: u32, k: usize) -> (r: u64)
    requires
        n <= 64,
    ensures
        r == top_bits(x, n as nat, k as nat),
{
    let mut out: u64 = 0;
    let mut left: usize = k;
    let mut i: u32 = n;
    proof {
        lemma_or_laws(top_bits(x, n as nat, k as nat), 0, 0);
    }
    while i > 0
        invariant
            i <= n <= 64,
            left <= k,
            top_bits(x, n as nat, k as nat) == out | top_bits(x, i as nat, left as nat),
        decreases i,
    {
        if left == 0 {
            proof {
                assert(top_bits(x, i as nat, 0) == 0);
                lemma_or_laws(out, 0, 0);
            }
            return out;
        }
        let j = i - 1;
        if (x >> j) & 1 == 1 {
            proof {
                let t = top_bits(x, j as nat, (left - 1) as nat);
                let s = single(j as nat);
                assert(top_bits(x, i as nat, left as nat) == s | t);
                lemma_or_laws(out, s, t);
            }
            out = out | (1u64 << j);
            left = left - 1;
        }
        i = j;
    }
    proof {
        lemma_or_laws(out, 0, 0);
    }
    out
}

/// The set positions of `x` below `n`, lowest first.
pub fn positions(x: u64, n: u32) -> (r: Vec<u32>)
    requires
        n <= 64,
    ensures
        r.len() == count_below(x, n as nat),
        forall|t: int| 0 <= t < r.len() ==> r[t] < n && bit(x, r[t] as nat),
        forall|t: int, u: int| 0 <= t < u < r.len() ==> r[t] < r[u],
        forall|i: nat| i < n && bit(x, i) ==> exists|t: int| 0 <= t < r.len() && r[t] == i,
{
    let mut out: Vec<u32> = Vec::new();
    let mut i: u32 = 0;
    while i < n
        invariant
            i <= n <= 64,
            out.len() == count_below(x, i as nat),
            forall|t: int| 0 <= t < out.len() ==> out[t] < i && bit(x, out[t] as nat),
            forall|t: int, u: int| 0 <= t < u < out.len() ==> out[t] < out[u],
            forall|k: nat| k < i && bit(x, k) ==> exists|t: int| 0 <= t < out.len() && out[t] == k,
        decreases n - i,
    {
        let ghost before = out@;
        let set = (x >> i) & 1 == 1;
        if set {
            out.push(i);
        }
        proof {
            assert(set == bit(x, i as nat));
            assert forall|k: nat| k < i + 1 && bit(x, k) implies exists|t: int| 0 <= t < out.len() && out[t] == k by {
                if k == i {
                    assert(out[before.len() as int] == i);
                } else {
                    let t = choose|t: int| 0 <= t < before.len() && before[t] == k;
                    assert(out[t] == k);
                }
            }
        }
        i = i + 1;
    }
    out
}

/// The set positions of `x` below `n`, highest first.
pub fn positions_rev(x: u64, n: u32) -> (r: Vec<u32>)
    requires
        n <= 64,
    ensures
        r.len() == count_below(x, n as nat),
        forall|t: int| 0 <= t < r.len() ==> r[t] < n && bit(x, r[t] as nat),
        forall|t: int, u: int| 0 <= t < u < r.len() ==> r[t] > r[u],
        forall|i: nat| i < n && bit(x, i) ==> exists|t: int| 0 <= t < r.len() && r[t] == i,
{
    let mut out: Vec<u32> = Vec::new();
    let mut i: u32 = n;
    while i > 0
        invariant
            i <= n <= 64,
            out.len() + count_below(x, i as nat) == count_below(x, n as nat),
            forall|t: int| 0 <= t < out.len() ==> i <= out[t] < n && bit(x, out[t] as nat),
            forall|t: int, u: int| 0 <= t < u < out.len() ==> out[t] > out[u],
            forall|k: nat| i <= k < n && bit(x, k) ==> exists|t: int| 0 <= t < out.len() && out[t] == k,
        decreases i,
    {
        let j = i - 1;
        let ghost before = out@;
        let set = (x >> j) & 1 == 1;
        if set {
            out.push(j);
        }
        proof {
            assert(set == bit(x, j as nat));
            assert forall|k: nat| j <= k < n && bit(x, k) implies exists|t: int| 0 <= t < out.len() && out[t] == k by {
                if k == j {
                    assert(out[before.len() as int] == j);
                } else {
                    let t = choose|t: int| 0 <= t < before.len() && before[t] == k;
                    assert(out[t] == k);
                }
            }
        }
        i = j;
    }
    out
}

/// Positions found at least as far as a set of set positions: counting finds them all.
pub proof fn lemma_count_at_least(x: u64, n: nat, st: Set<nat>)
    requires
        st.finite(),
        forall|i: nat| #[trigger] st.contains(i) ==> i < n && bit(x, i),
    ensures
        count_below(x, n) >= st.len(),
    decreases n,
{
    if n == 0 {
        assert(st =~= Set::<nat>::empty());
    } else {
        let st2 = st.remove((n - 1) as nat);
        lemma_count_at_least(x, (n - 1) as nat, st2);
    }
}

/// No position below `n` is set when none is counted.
pub proof fn lemma_count_zero_bits(x: u64, n: nat)
    requires
        count_below(x, n) == 0,
    ensures
        forall|i: nat| i < n ==> !#[trigger] bit(x, i),
    decreases n,
{
    if n > 0 {
        lemma_count_zero_bits(x, (n - 1) as nat);
    }
}

} // verus!

//! Combinatorial utilities: binomial coefficients, and encoding sets and bags (multisets) into
//! compact index spaces and back.

use vstd::prelude::*;

pub mod bagspace;

verus! {

/// The binomial coefficient C(n, k), by Pascal's rule.
pub open spec fn comb(n: nat, k: nat) -> nat
    decreases n,
{
    if k == 0 {
        1
    } else if n == 0 {
        0
    } else {
        comb((n - 1) as nat, (k - 1) as nat) + comb((n - 1) as nat, k)
    }
}

/// Computing C(n, k) step by step never exceeds a `usize`: every partial product
/// `C(n, i) * (n - i)` for `i < k` fits.
pub open spec fn binom_fits(n: nat, k: nat) -> bool {
    forall|i: nat| i < k && i <= n ==> #[trigger] comb(n, i) * (n - i) <= usize::MAX
}

/// There are no ways to choose more items than there are.
pub proof fn lemma_comb_zero(n: nat, k: nat)
    requires
        k > n,
    ensures
        comb(n, k) == 0,
    decreases n,
{
    if n > 0 {
        lemma_comb_zero((n - 1) as nat, (k - 1) as nat);
        lemma_comb_zero((n - 1) as nat, k);
    }
}

/// The step that computes C(n, k + 1) from C(n, k): C(n, k) * (n - k) == C(n, k + 1) * (k + 1).
pub proof fn lemma_comb_step(n: nat, k: nat)
    ensures
        comb(n, k) * (n - k) == comb(n, k + 1) * (k + 1),
    decreases n,
{
    if k > n {
        lemma_comb_zero(n, k);
        lemma_comb_zero(n, k + 1);
        assert(comb(n, k) * (n - k) == 0);
        assert(comb(n, k + 1) * (k + 1) == 0);
    } else if n == 0 {
        lemma_comb_zero(0, 1);
        assert(comb(n, k + 1) * (k + 1) == 0);
    } else {
        let m = (n - 1) as nat;
        if k == 0 {
            lemma_comb_step(m, 0);
            let c1 = comb(m, 1);
            assert(comb(m, 0) == 1);
            assert(c1 == m) by (nonlinear_arith)
                requires
                    1 * (m - 0) == c1 * (0 + 1),
            ;
            assert(comb(n, 1) == comb(m, 0) + comb(m, 1));
            assert(comb(n, 0) == 1);
            assert(1 * (n - 0) == n);
        } else {
            lemma_comb_step(m, k);
            lemma_comb_step(m, (k - 1) as nat);
            let a = comb(m, (k - 1) as nat);
            let b = comb(m, k);
            let c = comb(m, k + 1);
            assert(comb(n, k) == a + b);
            assert(comb(n, k + 1) == b + c);
            assert(b * (m - k) == c * (k + 1));
            assert(a * (m - (k - 1)) == b * k);
            assert((a + b) * (n - k) == (b + c) * (k + 1)) by (nonlinear_arith)
                requires
                    b * (m - k) == c * (k + 1),
                    a * (m - (k - 1)) == b * k,
                    n == m + 1,
            ;
        }
    }
}

/// Choosing from more items never gives fewer ways: C(a, k) <= C(b, k) when a <= b.
pub proof fn lemma_comb_monotone(a: nat, b: nat, k: nat)
    requires
        a <= b,
    ensures
        comb(a, k) <= comb(b, k),
    decreases b - a,
{
    if a < b {
        lemma_comb_monotone(a, (b - 1) as nat, k);
        if k > 0 {
            assert(comb(b, k) == comb((b - 1) as nat, (k - 1) as nat) + comb((b - 1) as nat, k));
        }
    }
}

/// There are at most 2^n ways to choose among `n` items.
pub proof fn lemma_comb_pow2(n: nat, k: nat)
    ensures
        comb(n, k) <= vstd::arithmetic::power2::pow2(n),
    decreases n,
{
    vstd::arithmetic::power2::lemma_pow2_pos(n);
    if n > 0 && k > 0 {
        lemma_comb_pow2((n - 1) as nat, (k - 1) as nat);
        lemma_comb_pow2((n - 1) as nat, k);
    }
    if n > 0 {
        vstd::arithmetic::power2::lemma_pow2_unfold(n);
    }
}

/// Binomial coefficient C(n, k), which is zero when `k > n`.
pub fn binom(n: usize, k: usize) -> (r: usize)
    requires
        binom_fits(n as nat, k as nat),
    ensures
        r == comb(n as nat, k as nat),
{
    // choosing more items than there are gives zero
    if k > n {
        proof {
            lemma_comb_zero(n as nat, k as nat);
        }
        return 0;
    }
    // multiply and divide step by step, each division being exact
    let mut res: usize = 1;
    let mut i: usize = 0;
    while i < k
        invariant
            i <= k <= n,
            res == comb(n as nat, i as nat),
            binom_fits(n as nat, k as nat),
        decreases k - i,
    {
        proof {
            lemma_comb_step(n as nat, i as nat);
            assert(comb(n as nat, i as nat) * (n - i) <= usize::MAX);
        }
        let p = res * (n - i);
        proof {
            let c = comb(n as nat, (i + 1) as nat);
            let pi = p as int;
            let d = (i + 1) as int;
            assert(pi == c * d);
            assert(pi / d == c) by (nonlinear_arith)
                requires
                    pi == c * d,
                    d > 0,
            ;
        }
        res = p / (i + 1);
        i = i + 1;
    }
    res
}

} // verus!

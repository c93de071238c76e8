//! Exact integer binomial coefficients.
//!
//! `binom` is the mathematical definition by Pascal's rule; the executable
//! functions compute it exactly with interleaved division so that the
//! accumulator never exceeds the final result by more than one factor.

use vstd::prelude::*;
use vstd::arithmetic::div_mod::*;
use vstd::arithmetic::mul::*;
use vstd::arithmetic::power2::pow2;
use vstd::arithmetic::power2::lemma2_to64;
use vstd::arithmetic::power2::lemma2_to64_rest;

verus! {

/// C(n, k): the number of k-element subsets of an n-element set.
pub open spec fn binom(n: nat, k: nat) -> nat
    decreases n,
{
    if k == 0 {
        1
    } else if n == 0 {
        0
    } else {
        binom((n - 1) as nat, (k - 1) as nat) + binom((n - 1) as nat, k)
    }
}

/// C(n, k) = 0 whenever k > n.
pub proof fn lemma_binom_above(n: nat, k: nat)
    requires
        k > n,
    ensures
        binom(n, k) == 0,
    decreases n,
{
    if n > 0 {
        lemma_binom_above((n - 1) as nat, (k - 1) as nat);
        lemma_binom_above((n - 1) as nat, k);
    }
}

/// C(n, n) = 1.
pub proof fn lemma_binom_diag(n: nat)
    ensures
        binom(n, n) == 1,
    decreases n,
{
    if n > 0 {
        lemma_binom_diag((n - 1) as nat);
        lemma_binom_above((n - 1) as nat, n);
    }
}

/// C(n, 1) = n.
pub proof fn lemma_binom_one(n: nat)
    ensures
        binom(n, 1) == n,
    decreases n,
{
    if n > 0 {
        lemma_binom_one((n - 1) as nat);
        assert(binom(n, 1) == binom((n - 1) as nat, 0) + binom((n - 1) as nat, 1));
    }
}

/// C is monotone in its upper argument.
pub proof fn lemma_binom_mono(n1: nat, n2: nat, k: nat)
    requires
        n1 <= n2,
    ensures
        binom(n1, k) <= binom(n2, k),
    decreases n2 - n1,
{
    if n1 < n2 {
        lemma_binom_mono(n1, (n2 - 1) as nat, k);
    }
}

/// Going one step up the diagonal cannot decrease C.
pub proof fn lemma_binom_diag_step(m: nat, i: nat)
    ensures
        binom(m, i) <= binom(m + 1, i + 1),
{
}

/// Absorption: i * C(m, i) == m * C(m - 1, i - 1).
pub proof fn lemma_binom_absorb(m: nat, i: nat)
    requires
        m >= 1,
        i >= 1,
    ensures
        i * binom(m, i) == m * binom((m - 1) as nat, (i - 1) as nat),
    decreases m,
{
    let m1 = (m - 1) as nat;
    let i1 = (i - 1) as nat;
    if i == 1 {
        lemma_binom_one(m);
        lemma_binom_one(m1);
        assert(binom(m1, 0) == 1);
        assert(i * binom(m, i) == m) by (nonlinear_arith)
            requires
                i == 1,
                binom(m, i) == m,
        ;
        assert(m * binom(m1, 0) == m) by (nonlinear_arith)
            requires
                binom(m1, 0) == 1,
        ;
    } else if m == 1 {
        lemma_binom_above(0, i1);
        lemma_binom_above(1, i);
        assert(i * binom(m, i) == 0) by (nonlinear_arith)
            requires
                binom(m, i) == 0,
        ;
        assert(m * binom(m1, i1) == 0) by (nonlinear_arith)
            requires
                binom(m1, i1) == 0,
        ;
    } else {
        let m2 = (m - 2) as nat;
        let i2 = (i - 2) as nat;
        lemma_binom_absorb(m1, i1);
        lemma_binom_absorb(m1, i);
        let a = binom(m2, i2) as int;
        let b = binom(m2, i1) as int;
        let c = binom(m1, i1) as int;
        let d = binom(m1, i) as int;
        let e = binom(m, i) as int;
        assert(e == c + d);
        assert(c == a + b);
        // i * C(m-1, i-1) = (i-1) * C(m-1, i-1) + C(m-1, i-1)
        //                 = (m-1) * C(m-2, i-2) + C(m-1, i-1)
        // i * C(m-1, i)   = (m-1) * C(m-2, i-1)
        assert((i - 1) * c == (m - 1) * a);
        assert(i * d == (m - 1) * b);
        assert(i * e == i * c + i * d) by {
            lemma_mul_is_distributive_add(i as int, c, d);
        }
        assert(i * c == (i - 1) * c + c) by {
            lemma_mul_is_distributive_add_other_way(c, (i - 1) as int, 1int);
        }
        assert((m - 1) * a + (m - 1) * b == (m - 1) * c) by {
            lemma_mul_is_distributive_add((m - 1) as int, a, b);
        }
        assert((m - 1) * c + c == m * c) by {
            lemma_mul_is_distributive_add_other_way(c, (m - 1) as int, 1int);
        }
        assert(i * e == m * c);
    }
}

/// The accumulator of the product loop never exceeds the final coefficient:
/// C(n - k + i, i) <= C(n, k) for i <= k <= n.
pub proof fn lemma_binom_partial_le(n: nat, k: nat, i: nat)
    requires
        i <= k,
        k <= n,
    ensures
        binom((n - k + i) as nat, i) <= binom(n, k),
    decreases k - i,
{
    if i < k {
        lemma_binom_diag_step((n - k + i) as nat, i);
        lemma_binom_partial_le(n, k, (i + 1) as nat);
    }
}

/// n to the k-th power.
pub open spec fn npow(b: nat, e: nat) -> nat
    decreases e,
{
    if e == 0 {
        1
    } else {
        b * npow(b, (e - 1) as nat)
    }
}

/// npow is monotone in its base.
pub proof fn lemma_npow_base_mono(b1: nat, b2: nat, e: nat)
    requires
        b1 <= b2,
    ensures
        npow(b1, e) <= npow(b2, e),
    decreases e,
{
    if e > 0 {
        lemma_npow_base_mono(b1, b2, (e - 1) as nat);
        assert(b1 * npow(b1, (e - 1) as nat) <= b2 * npow(b2, (e - 1) as nat))
            by (nonlinear_arith)
            requires
                b1 <= b2,
                npow(b1, (e - 1) as nat) <= npow(b2, (e - 1) as nat),
                b1 >= 0,
                npow(b1, (e - 1) as nat) >= 0,
        ;
    }
}

/// C(n, k) is at most n^k.
pub proof fn lemma_binom_le_npow(n: nat, k: nat)
    ensures
        binom(n, k) <= npow(n, k),
    decreases n,
{
    if k == 0 || n == 0 {
        if k > 0 {
            lemma_binom_above(n, k);
        }
    } else {
        let n1 = (n - 1) as nat;
        let k1 = (k - 1) as nat;
        lemma_binom_le_npow(n1, k1);
        lemma_binom_le_npow(n1, k);
        lemma_npow_base_mono(n1, n, k1);
        // n^(k-1)_(n-1) + (n-1) * n^(k-1)_(n-1) == n * n^(k-1)_(n-1)
        assert(npow(n1, k) == n1 * npow(n1, k1));
        assert(npow(n1, k1) + n1 * npow(n1, k1) == n * npow(n1, k1)) by (nonlinear_arith)
            requires
                n == n1 + 1,
        ;
        assert(n * npow(n1, k1) <= n * npow(n, k1)) by (nonlinear_arith)
            requires
                npow(n1, k1) <= npow(n, k1),
                n >= 0,
        ;
        assert(npow(n, k) == n * npow(n, k1));
    }
}

/// In the lower half of a row, C grows with k.
pub proof fn lemma_binom_k_step(n: nat, k: nat)
    requires
        2 * k + 1 <= n,
    ensures
        binom(n, k) <= binom(n, k + 1),
{
    let n1 = (n - 1) as nat;
    // (k+1) * C(n, k+1) == n * C(n-1, k)
    lemma_binom_absorb(n, k + 1);
    // n * C(n, k) == k * C(n, k) + n * C(n-1, k)  (Pascal, distributed)
    if k == 0 {
        lemma_binom_one(n);
        lemma_binom_one(n1);
    } else {
        lemma_binom_absorb(n, k);
        let c = binom(n, k) as int;
        let ck1 = binom(n, k + 1) as int;
        let d = binom(n1, k) as int;
        let d1 = binom(n1, (k - 1) as nat) as int;
        assert(c == d1 + d);
        assert((k + 1) * ck1 == n * d);
        assert(k * c == n * d1);
        assert(n * c == n * d1 + n * d) by (nonlinear_arith)
            requires
                c == d1 + d,
        ;
        assert((n - k) * c == (k + 1) * ck1) by (nonlinear_arith)
            requires
                n * c == k * c + (k + 1) * ck1,
        ;
        assert((k + 1) * c <= (k + 1) * ck1) by (nonlinear_arith)
            requires
                (n - k) * c == (k + 1) * ck1,
                n - k >= k + 1,
                c >= 0,
        ;
        assert(c <= ck1) by (nonlinear_arith)
            requires
                (k + 1) * c <= (k + 1) * ck1,
                k >= 0,
        ;
    }
}

/// C(n, k1) <= C(n, k2) whenever k1 <= k2 stay in the lower half of the row.
pub proof fn lemma_binom_k_chain(n: nat, k1: nat, k2: nat)
    requires
        k1 <= k2,
        2 * k2 <= n + 1,
    ensures
        binom(n, k1) <= binom(n, k2),
    decreases k2 - k1,
{
    if k1 < k2 {
        lemma_binom_k_step(n, k1);
        lemma_binom_k_chain(n, k1 + 1, k2);
    }
}

/// Every binomial of a 128-bit row with at most 9 chosen elements fits well
/// below u64::MAX.
pub proof fn lemma_binom_128_small(k: nat)
    requires
        k <= 9,
    ensures
        binom(128, k) <= pow2(63),
{
    lemma_binom_k_chain(128, k, 9);
    lemma_binom_le_npow(128, 9);
    lemma2_to64();
    lemma2_to64_rest();
    assert(npow(128nat, 0nat) == 1);
    assert(npow(128nat, 1nat) == 128);
    assert(npow(128nat, 2nat) == 16384);
    assert(npow(128nat, 3nat) == 2097152);
    assert(npow(128nat, 4nat) == 268435456);
    assert(npow(128nat, 5nat) == 34359738368);
    assert(npow(128nat, 6nat) == 4398046511104);
    assert(npow(128nat, 7nat) == 562949953421312);
    assert(npow(128nat, 8nat) == 72057594037927936);
    assert(npow(128nat, 9nat) == 9223372036854775808);
}

/// Exact binomial coefficient, or `None` exactly when C(n, k) exceeds `u64::MAX`.
pub fn checked_binomial(n: u64, k: u8) -> (r: Option<u64>)
    ensures
        r is Some <==> binom(n as nat, k as nat) <= u64::MAX,
        r is Some ==> r->0 == binom(n as nat, k as nat),
{
    if (k as u64) > n {
        proof {
            lemma_binom_above(n as nat, k as nat);
        }
        return Some(0);
    }
    let ghost nn = n as nat;
    let ghost kk = k as nat;
    let mut acc: u128 = 1;
    let mut i: u64 = 0;
    proof {
        lemma_binom_partial_le(nn, kk, 0);
    }
    while i < k as u64
        invariant
            nn == n as nat,
            kk == k as nat,
            i <= kk <= nn,
            acc == binom((nn - kk + i) as nat, i as nat),
            binom((nn - kk + i) as nat, i as nat) <= binom(nn, kk),
        decreases k as u64 - i,
    {
        let m: u64 = n - (k as u64) + i + 1;
        let ghost mm = m as nat;
        proof {
            lemma_binom_absorb(mm, (i + 1) as nat);
            lemma_binom_partial_le(nn, kk, (i + 1) as nat);
        }
        match acc.checked_mul(m as u128) {
            Some(p) => {
                // p == (i + 1) * C(m, i + 1), so the division is exact.
                assert(p == acc * (m as u128));
                assert(acc == binom((mm - 1) as nat, i as nat));
                assert(p == binom((mm - 1) as nat, i as nat) * mm) by {
                    lemma_mul_is_commutative(acc as int, mm as int);
                }
                assert(p == (i + 1) * binom(mm, (i + 1) as nat));
                acc = p / ((i + 1) as u128);
                proof {
                    lemma_div_multiples_vanish(
                        binom(mm, (i + 1) as nat) as int,
                        (i + 1) as int,
                    );
                }
                i = i + 1;
            },
            None => {
                // acc * m overflowed u128, and acc <= C(n, k), so C(n, k)
                // cannot fit in a u64.
                proof {
                    if binom(nn, kk) <= u64::MAX {
                        assert(acc * (m as u128) <= u64::MAX * (u64::MAX as u128)) by (nonlinear_arith)
                            requires
                                acc <= u64::MAX,
                                m as u128 <= u64::MAX as u128,
                        ;
                    }
                }
                return None;
            },
        }
    }
    if acc > u64::MAX as u128 {
        None
    } else {
        Some(acc as u64)
    }
}

/// Exact binomial coefficient; the result is required to fit in a `u64`.
pub fn binomial(n: u64, k: u8) -> (r: u64)
    requires
        binom(n as nat, k as nat) <= u64::MAX,
    ensures
        r == binom(n as nat, k as nat),
{
    match checked_binomial(n, k) {
        Some(v) => v,
        None => {
            proof {
                assert(false);
            }
            0
        },
    }
}

} // verus!

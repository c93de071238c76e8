//! The combinatorial marker codec.
//!
//! A marker of weight k is a bit pattern with exactly k set bits.  The codec
//! enumerates the weight-k patterns of a 128-bit word in the order of the
//! combinatorial number system: the pattern with set bits at positions
//! c1 < c2 < ... < ck has index C(c1,1) + C(c2,2) + ... + C(ck,k).
//! `rank` walks that enumeration forward and `unrank` evaluates the index sum,
//! and the two are proved inverse to each other.
//!
//! The enumeration is computed directly from its defining step: there is no
//! shared lookup table and so no lazily initialized state that concurrent
//! callers could race on.

use vstd::prelude::*;
use vstd::arithmetic::power2::*;
use vstd::arithmetic::div_mod::*;
use vstd::arithmetic::mul::*;
use vstd::bits::lemma_u128_shr_is_div;
use crate::binomial::{
    binom, binomial, lemma_binom_above, lemma_binom_diag, lemma_binom_mono, lemma_binom_128_small,
};
use crate::bitmath::{
    pop, tzs, tos, lemma_pow2_facts, lemma_pop_split, lemma_pop_ones, lemma_pop_even_succ,
    lemma_pop_zero, lemma_u128_bit_step, lemma_u128_one_shl, lemma_u128_shl_is_mul,
    lemma_u128_shl_or_low, trailing_zeros128,
};

verus! {

/// Contribution of the bits of `m` to the combinatorial index, where the
/// lowest bit of `m` sits at absolute position `pos` and `j` set bits lie
/// below it.
pub open spec fn midx(m: nat, pos: nat, j: nat) -> nat
    decreases m,
{
    if m == 0 {
        0
    } else if m % 2 == 1 {
        binom(pos, j + 1) + midx(m / 2, pos + 1, j + 1)
    } else {
        midx(m / 2, pos + 1, j)
    }
}

/// The index of a marker within the enumeration of its weight class.
pub open spec fn marker_index(m: nat) -> nat {
    midx(m, 0, 0)
}

/// The first pattern of weight k: the k low bits set.
pub open spec fn first_pattern(k: nat) -> nat {
    (pow2(k) - 1) as nat
}

/// The greatest 128-bit pattern of weight k: the k high bits set.
pub open spec fn top_pattern(k: nat) -> nat {
    ((pow2(k) - 1) * pow2((128 - k) as nat)) as nat
}

/// Trailing zeros of the marker.
pub open spec fn run_z(m: nat) -> nat {
    tzs(m)
}

/// Length of the run of ones just above the trailing zeros.
pub open spec fn run_a(m: nat) -> nat {
    tos(m / pow2(tzs(m)))
}

/// The bits above that run, which always end in a zero.
pub open spec fn run_h(m: nat) -> nat {
    (m / pow2(tzs(m))) / pow2(run_a(m))
}

/// The lexicographically next pattern of the same weight: the top bit of the
/// low run moves up one place and the rest of the run falls to the bottom.
pub open spec fn next_pattern(m: nat) -> nat {
    let z = run_z(m);
    let a = run_a(m);
    let h = run_h(m);
    (h + 1) * pow2(z + a) + ((pow2((a - 1) as nat) - 1) as nat)
}

/// The run of ones touches the top of the 128-bit word: no next pattern.
pub open spec fn is_top_pattern(m: nat) -> bool {
    m != 0 && run_z(m) + run_a(m) == 128
}

/// The v-th pattern of weight k, and 0 once the enumeration is exhausted.
pub open spec fn nth_pattern(v: nat, k: nat) -> nat
    decreases v,
{
    if v == 0 {
        first_pattern(k)
    } else {
        let p = nth_pattern((v - 1) as nat, k);
        if p == 0 || is_top_pattern(p) {
            0
        } else {
            next_pattern(p)
        }
    }
}

/// A nonzero m is an odd number shifted left by its trailing zeros.
pub proof fn lemma_tzs_decomp(m: nat)
    requires
        m >= 1,
    ensures
        m == (m / pow2(tzs(m))) * pow2(tzs(m)),
        (m / pow2(tzs(m))) % 2 == 1,
    decreases m,
{
    lemma_pow2_facts();
    if m % 2 == 1 {
        assert(tzs(m) == 0);
        assert(m / 1 == m);
    } else {
        let t1 = tzs(m / 2);
        lemma_tzs_decomp(m / 2);
        let q = (m / 2) / pow2(t1);
        lemma_fundamental_div_mod(m as int, 2);
        assert(m == 2 * (m / 2));
        lemma_pow2_unfold((t1 + 1) as nat);
        assert(m == q * (2 * pow2(t1))) by (nonlinear_arith)
            requires
                m == 2 * (m / 2),
                m / 2 == q * pow2(t1),
        ;
        assert(m == q * pow2(tzs(m))) by (nonlinear_arith)
            requires
                m == q * (2 * pow2(t1)),
                pow2(tzs(m)) == 2 * pow2(t1),
        ;
        lemma_pow2_pos(tzs(m));
        lemma_div_multiples_vanish(q as int, pow2(tzs(m)) as int);
        assert(pow2(tzs(m)) * q == q * pow2(tzs(m))) by (nonlinear_arith);
    }
}

/// An odd s is a run of tos(s) ones with an even remainder above it.
pub proof fn lemma_tos_decomp(s: nat)
    requires
        s % 2 == 1,
    ensures
        s == (s / pow2(tos(s))) * pow2(tos(s)) + pow2(tos(s)) - 1,
        (s / pow2(tos(s))) % 2 == 0,
        tos(s) >= 1,
    decreases s,
{
    lemma_pow2_facts();
    let a = tos(s);
    let s2 = s / 2;
    lemma_fundamental_div_mod(s as int, 2);
    assert(s == 2 * s2 + 1);
    if s2 % 2 == 0 {
        assert(a == 1 + tos(s2) && tos(s2) == 0);
        assert(s == s2 * pow2(1) + pow2(1) - 1);
        lemma_fundamental_div_mod_converse(s as int, 2, s2 as int, 1int);
    } else {
        let a2 = tos(s2);
        lemma_tos_decomp(s2);
        let h = s2 / pow2(a2);
        assert(a == a2 + 1);
        lemma_pow2_unfold(a);
        lemma_pow2_pos(a2);
        assert(s == h * pow2(a) + pow2(a) - 1) by (nonlinear_arith)
            requires
                s == 2 * s2 + 1,
                s2 == h * pow2(a2) + pow2(a2) - 1,
                pow2(a) == 2 * pow2(a2),
                pow2(a2) >= 1,
        ;
        lemma_pow2_pos(a);
        lemma_fundamental_div_mod_converse(
            s as int,
            pow2(a) as int,
            h as int,
            pow2(a) as int - 1,
        );
    }
}

/// Full decomposition of a nonzero marker into (h, run of a ones, z zeros).
pub proof fn lemma_run_decomp(m: nat)
    requires
        m >= 1,
    ensures
        m == (run_h(m) * pow2(run_a(m)) + pow2(run_a(m)) - 1) * pow2(run_z(m)),
        run_h(m) % 2 == 0,
        run_a(m) >= 1,
{
    lemma_tzs_decomp(m);
    let s = m / pow2(tzs(m));
    lemma_tos_decomp(s);
}

/// Bounds of the decomposition for a marker that fits in 128 bits.
pub proof fn lemma_run_bounds(m: nat)
    requires
        1 <= m < pow2(128),
    ensures
        run_z(m) + run_a(m) <= 128,
        run_h(m) < pow2((128 - run_z(m) - run_a(m)) as nat),
    decreases m,
{
    lemma_run_decomp(m);
    let z = run_z(m);
    let a = run_a(m);
    let h = run_h(m);
    lemma_pow2_pos(z);
    lemma_pow2_pos(a);
    lemma_pow2_pos((a - 1) as nat);
    // m >= 2^(z + a - 1), because the top bit of the run is set.
    lemma_pow2_unfold(a);
    assert(pow2(a) - 1 >= pow2((a - 1) as nat));
    lemma_pow2_adds((a - 1) as nat, z);
    assert(m >= pow2((a - 1) as nat) * pow2(z)) by (nonlinear_arith)
        requires
            m == (h * pow2(a) + pow2(a) - 1) * pow2(z),
            pow2(a) - 1 >= pow2((a - 1) as nat),
            h * pow2(a) >= 0,
            pow2(z) >= 1,
    ;
    assert(m >= pow2((z + a - 1) as nat));
    if z + a >= 129 {
        lemma_pow2_strictly_increases(128, (z + a - 1) as nat);
        assert(false);
    }
    // h < 2^(128 - z - a), else m >= 2^128.
    let w = (128 - z - a) as nat;
    if h >= pow2(w) {
        lemma_pow2_adds(a, z);
        lemma_pow2_adds(w, (a + z) as nat);
        lemma_pow2_pos((a + z) as nat);
        assert(m >= h * (pow2(a) * pow2(z))) by (nonlinear_arith)
            requires
                m == (h * pow2(a) + pow2(a) - 1) * pow2(z),
                pow2(a) >= 1,
                pow2(z) >= 1,
                h >= 0,
        ;
        assert(h * (pow2(a) * pow2(z)) >= pow2(w) * (pow2(a) * pow2(z))) by (nonlinear_arith)
            requires
                h >= pow2(w),
                pow2(a) * pow2(z) >= 1,
        ;
        assert(pow2(w) * (pow2(a) * pow2(z)) == pow2(128nat)) by {
            lemma_pow2_adds(a, z);
            lemma_pow2_adds(w, (a + z) as nat);
        }
        assert(false);
    }
}

/// Splitting a word at bit s splits its index contribution.
pub proof fn lemma_midx_split(x: nat, s: nat, y: nat, pos: nat, j: nat)
    requires
        y < pow2(s),
    ensures
        midx(x * pow2(s) + y, pos, j) == midx(y, pos, j) + midx(x, pos + s, j + pop(y)),
    decreases s,
{
    lemma_pow2_facts();
    if s == 0 {
        assert(x * 1 == x) by (nonlinear_arith);
    } else {
        let s1 = (s - 1) as nat;
        let t = x * pow2(s) + y;
        lemma_pow2_unfold(s);
        assert(x * pow2(s) == (x * pow2(s1)) * 2) by (nonlinear_arith)
            requires
                pow2(s) == 2 * pow2(s1),
        ;
        let half = x * pow2(s1) + y / 2;
        lemma_fundamental_div_mod(y as int, 2);
        assert(t == half * 2 + y % 2) by (nonlinear_arith)
            requires
                t == (x * pow2(s1)) * 2 + y,
                half == x * pow2(s1) + y / 2,
                y == 2 * (y / 2) + y % 2,
        ;
        assert(t % 2 == y % 2 && t / 2 == half) by (nonlinear_arith)
            requires
                t == half * 2 + y % 2,
                y % 2 < 2,
        ;
        assert(y / 2 < pow2(s1)) by (nonlinear_arith)
            requires
                y < 2 * pow2(s1),
        ;
        lemma_midx_split(x, s1, y / 2, pos + 1, j + (y % 2));
        if t != 0 {
            if y % 2 == 1 {
                assert(pop(y) == 1 + pop(y / 2));
                assert(midx(t, pos, j) == binom(pos, j + 1) + midx(half, pos + 1, j + 1));
                assert(midx(y, pos, j) == binom(pos, j + 1) + midx(y / 2, pos + 1, j + 1));
            } else {
                if y == 0 {
                    assert(pop(y) == 0 && midx(y, pos, j) == 0 && y / 2 == 0);
                } else {
                    assert(pop(y) == pop(y / 2));
                    assert(midx(y, pos, j) == midx(y / 2, pos + 1, j));
                }
                assert(midx(t, pos, j) == midx(half, pos + 1, j));
            }
        } else {
            assert(x * pow2(s1) == 0) by (nonlinear_arith)
                requires
                    x * pow2(s1) + y / 2 == 0,
            ;
            assert(x * pow2(s1) >= x) by (nonlinear_arith)
                requires
                    pow2(s1) >= 1,
                    x >= 0,
            ;
            assert(x == 0 && y == 0);
        }
    }
}

/// Index contribution of a run of a ones starting at position pos.
pub proof fn lemma_midx_ones(a: nat, pos: nat, j: nat)
    ensures
        midx((pow2(a) - 1) as nat, pos, j) + binom(pos, j) == binom(pos + a, j + a),
    decreases a,
{
    lemma_pow2_facts();
    if a == 0 {
    } else {
        let a1 = (a - 1) as nat;
        let n = (pow2(a) - 1) as nat;
        lemma_pow2_unfold(a);
        lemma_pow2_pos(a1);
        assert(n == 2 * (pow2(a1) - 1) + 1);
        assert(n % 2 == 1 && n / 2 == pow2(a1) - 1) by (nonlinear_arith)
            requires
                n == 2 * (pow2(a1) - 1) + 1,
                pow2(a1) >= 1,
        ;
        lemma_midx_ones(a1, pos + 1, j + 1);
        assert(midx(n, pos, j) == binom(pos, j + 1) + midx((pow2(a1) - 1) as nat, pos + 1, j + 1));
        // Pascal: C(pos, j+1) + C(pos, j) == C(pos+1, j+1)
        assert(binom(pos + 1, j + 1) == binom(pos, j) + binom(pos, j + 1));
    }
}

/// The index contribution of any w-bit word is bounded by a binomial.
pub proof fn lemma_midx_upper(m: nat, w: nat, pos: nat, j: nat)
    requires
        m < pow2(w),
    ensures
        midx(m, pos, j) + binom(pos, j) <= binom(pos + w, j + pop(m)),
    decreases w,
{
    lemma_pow2_facts();
    if m == 0 {
        lemma_binom_mono(pos, pos + w, j);
    } else {
        // w >= 1 because m >= 1
        if w == 0 {
            assert(false);
        }
        let w1 = (w - 1) as nat;
        lemma_pow2_unfold(w);
        assert(m / 2 < pow2(w1)) by (nonlinear_arith)
            requires
                m < 2 * pow2(w1),
        ;
        if m % 2 == 1 {
            lemma_midx_upper(m / 2, w1, pos + 1, j + 1);
            assert(binom(pos + 1, j + 1) == binom(pos, j) + binom(pos, j + 1));
            assert(pop(m) == 1 + pop(m / 2));
        } else {
            lemma_midx_upper(m / 2, w1, pos + 1, j);
            lemma_binom_mono(pos, pos + 1, j);
            assert(pop(m) == pop(m / 2));
        }
    }
}

/// A word with a bit at or above position w has index at least C(pos + w, j + pop).
pub proof fn lemma_midx_lower(m: nat, w: nat, pos: nat, j: nat)
    requires
        m >= pow2(w),
    ensures
        midx(m, pos, j) >= binom(pos + w, j + pop(m)),
    decreases w, m,
{
    lemma_pow2_facts();
    lemma_pow2_pos(w);
    if w == 0 {
        if m % 2 == 1 {
            if m / 2 == 0 {
                assert(pop(m) == 1);
            } else {
                lemma_midx_lower(m / 2, 0, pos + 1, j + 1);
                lemma_binom_mono(pos, pos + 1, (j + pop(m)) as nat);
                assert(pop(m) == 1 + pop(m / 2));
            }
        } else {
            lemma_midx_lower(m / 2, 0, pos + 1, j);
            lemma_binom_mono(pos, pos + 1, (j + pop(m)) as nat);
            assert(pop(m) == pop(m / 2));
        }
    } else {
        let w1 = (w - 1) as nat;
        lemma_pow2_unfold(w);
        assert(m / 2 >= pow2(w1)) by (nonlinear_arith)
            requires
                m >= 2 * pow2(w1),
                m / 2 >= (m - 1) / 2,
                m == 2 * (m / 2) + m % 2,
                m % 2 < 2,
        ;
        if m % 2 == 1 {
            lemma_midx_lower(m / 2, w1, pos + 1, j + 1);
            assert(pop(m) == 1 + pop(m / 2));
        } else {
            lemma_midx_lower(m / 2, w1, pos + 1, j);
            assert(pop(m) == pop(m / 2));
        }
    }
}

/// The first pattern has index 0 and weight k.
pub proof fn lemma_first_pattern(k: nat)
    requires
        k <= 128,
    ensures
        marker_index(first_pattern(k)) == 0,
        pop(first_pattern(k)) == k,
        first_pattern(k) < pow2(128),
        k >= 1 ==> first_pattern(k) != 0,
{
    lemma_pow2_facts();
    lemma_pop_ones(k);
    lemma_midx_ones(k, 0, 0);
    lemma_binom_diag(k);
    lemma_pow2_pos(k);
    if k < 128 {
        lemma_pow2_strictly_increases(k, 128);
    }
    if k >= 1 {
        lemma_pow2_unfold(k);
        lemma_pow2_pos((k - 1) as nat);
    }
}

/// tzs of an odd number shifted left by z is z.
pub proof fn lemma_tzs_shift(x: nat, z: nat)
    requires
        x % 2 == 1,
    ensures
        tzs(x * pow2(z)) == z,
    decreases z,
{
    lemma_pow2_facts();
    if z == 0 {
        assert(x * 1 == x) by (nonlinear_arith);
    } else {
        let z1 = (z - 1) as nat;
        lemma_tzs_shift(x, z1);
        let t = x * pow2(z);
        lemma_pow2_unfold(z);
        assert(t == (x * pow2(z1)) * 2) by (nonlinear_arith)
            requires
                t == x * pow2(z),
                pow2(z) == 2 * pow2(z1),
        ;
        assert(t % 2 == 0 && t / 2 == x * pow2(z1)) by (nonlinear_arith)
            requires
                t == (x * pow2(z1)) * 2,
        ;
        lemma_pow2_pos(z1);
        assert(t != 0) by (nonlinear_arith)
            requires
                t == x * pow2(z1) * 2,
                x >= 1,
                pow2(z1) >= 1,
        ;
    }
}

/// tos of a block of k ones is k.
pub proof fn lemma_tos_ones(k: nat)
    ensures
        tos((pow2(k) - 1) as nat) == k,
    decreases k,
{
    lemma_pow2_facts();
    if k > 0 {
        let k1 = (k - 1) as nat;
        let n = (pow2(k) - 1) as nat;
        lemma_pow2_unfold(k);
        lemma_pow2_pos(k1);
        assert(n == 2 * (pow2(k1) - 1) + 1);
        assert(n % 2 == 1 && n / 2 == pow2(k1) - 1) by (nonlinear_arith)
            requires
                n == 2 * (pow2(k1) - 1) + 1,
                pow2(k1) >= 1,
        ;
        lemma_tos_ones(k1);
    }
}

/// The top pattern of weight 1 <= k <= 128: its shape, and that it is the
/// only weight-k pattern whose run touches the top of the word.
pub proof fn lemma_top_pattern(k: nat)
    requires
        1 <= k <= 128,
    ensures
        is_top_pattern(top_pattern(k)),
        pop(top_pattern(k)) == k,
        top_pattern(k) < pow2(128),
        marker_index(top_pattern(k)) + 1 == binom(128, k),
        top_pattern(k) != 0,
{
    lemma_pow2_facts();
    let z = (128 - k) as nat;
    let ones = (pow2(k) - 1) as nat;
    let t = top_pattern(k);
    lemma_pow2_pos(k);
    lemma_pow2_pos(z);
    lemma_pow2_unfold(k);
    lemma_pow2_pos((k - 1) as nat);
    assert(ones % 2 == 1) by (nonlinear_arith)
        requires
            ones == 2 * (pow2((k - 1) as nat) - 1) + 1,
    ;
    lemma_tzs_shift(ones, z);
    lemma_pow2_pos(z);
    lemma_div_multiples_vanish(ones as int, pow2(z) as int);
    assert(pow2(z) * ones == ones * pow2(z)) by (nonlinear_arith);
    assert(t / pow2(z) == ones);
    lemma_tos_ones(k);
    assert(run_z(t) == z && run_a(t) == k);
    // weight
    lemma_pop_split(ones, z, 0);
    assert(pop(0nat) == 0);
    lemma_pop_ones(k);
    // below 2^128
    lemma_pow2_adds(k, z);
    assert(t < pow2(128nat)) by (nonlinear_arith)
        requires
            t == ones * pow2(z),
            ones < pow2(k),
            pow2(z) >= 1,
            pow2(k) * pow2(z) == pow2(128nat),
    ;
    // index: C(128, k) - 1
    lemma_midx_split(ones, z, 0, 0, 0);
    assert(marker_index(t) == midx(ones, z, 0));
    lemma_midx_ones(k, z, 0);
    // nonzero
    assert(t >= 1) by (nonlinear_arith)
        requires
            t == ones * pow2(z),
            ones >= 1,
            pow2(z) >= 1,
    ;
    assert(is_top_pattern(t));
}

/// Stepping to the next pattern adds one to the index and keeps the weight.
pub proof fn lemma_next_pattern(m: nat)
    requires
        1 <= m < pow2(128),
        !is_top_pattern(m),
    ensures
        marker_index(next_pattern(m)) == marker_index(m) + 1,
        pop(next_pattern(m)) == pop(m),
        next_pattern(m) < pow2(128),
        next_pattern(m) != 0,
{
    lemma_pow2_facts();
    lemma_run_decomp(m);
    lemma_run_bounds(m);
    let z = run_z(m);
    let a = run_a(m);
    let h = run_h(m);
    let s = (h * pow2(a) + pow2(a) - 1) as nat;
    let w = (128 - z - a) as nat;
    let n2 = next_pattern(m);
    lemma_pow2_pos(z);
    lemma_pow2_pos(a);
    lemma_pow2_pos((a - 1) as nat);
    lemma_pow2_pos(w);
    // --- index of m ---
    // peel the z zeros
    lemma_midx_split(s, z, 0, 0, 0);
    assert(pop(0nat) == 0 && midx(0nat, 0, 0) == 0);
    assert(marker_index(m) == midx(s, z, 0));
    // peel the run of ones
    let ones = (pow2(a) - 1) as nat;
    assert(s == h * pow2(a) + ones);
    lemma_midx_split(h, a, ones, z, 0);
    lemma_pop_ones(a);
    assert(midx(s, z, 0) == midx(ones, z, 0) + midx(h, z + a, a));
    lemma_midx_ones(a, z, 0);
    assert(midx(ones, z, 0) + 1 == binom(z + a, a));
    // midx(h, ...) steps into h/2 since h is even
    let hrest = midx(h / 2, z + a + 1, a);
    if h == 0 {
        assert(midx(h, z + a, a) == 0 && h / 2 == 0 && hrest == 0);
    } else {
        assert(midx(h, z + a, a) == hrest);
    }
    // --- index of the next pattern ---
    let lowones = (pow2((a - 1) as nat) - 1) as nat;
    assert(n2 == (h + 1) * pow2(z + a) + lowones);
    lemma_pow2_strictly_increases((a - 1) as nat, z + a);
    lemma_midx_split((h + 1) as nat, (z + a) as nat, lowones, 0, 0);
    lemma_pop_ones((a - 1) as nat);
    assert(marker_index(n2) == midx(lowones, 0, 0) + midx((h + 1) as nat, z + a, (a - 1) as nat));
    lemma_midx_ones((a - 1) as nat, 0, 0);
    lemma_binom_diag((a - 1) as nat);
    assert(midx(lowones, 0, 0) == 0);
    // h + 1 is odd and (h+1)/2 == h/2
    lemma_fundamental_div_mod(h as int, 2);
    assert((h + 1) % 2 == 1 && (h + 1) / 2 == h / 2) by (nonlinear_arith)
        requires
            h == 2 * (h / 2),
    ;
    assert(midx((h + 1) as nat, z + a, (a - 1) as nat) == binom(z + a, a) + hrest);
    assert(marker_index(n2) == binom(z + a, a) + hrest);
    assert(marker_index(m) + 1 == binom(z + a, a) + hrest);
    // --- weight ---
    lemma_pop_split(s, z, 0);
    lemma_pop_split(h, a, ones);
    assert(pop(m) == pop(h) + a);
    lemma_pow2_strictly_increases((a - 1) as nat, z + a);
    lemma_pop_split((h + 1) as nat, z + a, lowones);
    lemma_pop_even_succ(h);
    lemma_pop_ones((a - 1) as nat);
    assert(pop(n2) == pop(h) + 1 + (a - 1));
    // --- still fits ---
    // h is even and h < 2^w, so h + 1 <= 2^w - 1
    lemma_pow2_unfold(w);
    assert(h + 1 < pow2(w)) by (nonlinear_arith)
        requires
            h < pow2(w),
            h % 2 == 0,
            pow2(w) == 2 * pow2((w - 1) as nat),
            h == 2 * (h / 2),
    ;
    lemma_pow2_adds(w, (z + a) as nat);
    assert((h + 1) * pow2(z + a) <= (pow2(w) - 1) * pow2(z + a)) by (nonlinear_arith)
        requires
            h + 1 <= pow2(w) - 1,
            pow2(z + a) >= 1,
    ;
    assert((pow2(w) - 1) * pow2(z + a) == pow2(128nat) - pow2(z + a)) by (nonlinear_arith)
        requires
            pow2(w) * pow2((z + a) as nat) == pow2(128nat),
    ;
    lemma_pow2_strictly_increases((a - 1) as nat, (z + a) as nat);
    assert(n2 < pow2(128nat));
    // --- nonzero ---
    lemma_pop_zero(n2);
    lemma_pop_zero(m);
}

/// Codec bijection: for v below C(128, k) the v-th weight-k pattern exists,
/// has weight k, and decodes back to v.
pub proof fn lemma_codec_bijection(v: nat, k: nat)
    requires
        1 <= k,
        v < binom(128, k),
    ensures
        nth_pattern(v, k) != 0,
        pop(nth_pattern(v, k)) == k,
        marker_index(nth_pattern(v, k)) == v,
        nth_pattern(v, k) < pow2(128),
    decreases v,
{
    if k > 128 {
        lemma_binom_above(128, k);
        assert(false);
    }
    if v == 0 {
        lemma_first_pattern(k);
        lemma_pop_zero(first_pattern(k));
    } else {
        let p = nth_pattern((v - 1) as nat, k);
        lemma_codec_bijection((v - 1) as nat, k);
        if is_top_pattern(p) {
            // only the top pattern has a run touching the word top, and its
            // index is C(128, k) - 1, which v - 1 is strictly below
            lemma_run_decomp(p);
            lemma_run_bounds(p);
            let z = run_z(p);
            let a = run_a(p);
            let h = run_h(p);
            lemma_pow2_facts();
            lemma_pow2_pos(z);
            lemma_pow2_pos(a);
            lemma_pow2_pos((128 - z - a) as nat);
            assert(h < pow2((128 - z - a) as nat));
            assert(h == 0);
            lemma_pop_split((h * pow2(a) + pow2(a) - 1) as nat, z, 0);
            lemma_pop_split(h, a, (pow2(a) - 1) as nat);
            lemma_pop_ones(a);
            assert(h * pow2(a) == 0) by (nonlinear_arith)
                requires
                    h == 0,
            ;
            assert(pop(0nat) == 0);
            assert(a == k);
            assert(p == top_pattern(k)) by (nonlinear_arith)
                requires
                    p == (0 * pow2(a) + pow2(a) - 1) * pow2(z),
                    top_pattern(k) == (pow2(k) - 1) * pow2((128 - k) as nat),
                    a == k,
                    z == 128 - k,
            ;
            lemma_top_pattern(k);
            assert(false);
        }
        lemma_next_pattern(p);
    }
}

/// Once the enumeration has run out it stays at 0.
pub proof fn lemma_nth_pattern_stays_zero(v1: nat, v2: nat, k: nat)
    requires
        nth_pattern(v1, k) == 0,
        v1 <= v2,
    ensures
        nth_pattern(v2, k) == 0,
    decreases v2 - v1,
{
    if v1 < v2 {
        lemma_nth_pattern_stays_zero(v1, (v2 - 1) as nat, k);
    }
}

/// The enumeration yields 0 exactly from C(128, k) on.
pub proof fn lemma_nth_pattern_zero_iff(v: nat, k: nat)
    requires
        1 <= k <= 128,
    ensures
        nth_pattern(v, k) == 0 <==> v >= binom(128, k),
    decreases v,
{
    let c = binom(128, k);
    lemma_binom_mono(k, 128, k);
    lemma_binom_diag(k);
    assert(c >= 1);
    if v < c {
        lemma_codec_bijection(v, k);
    } else if v == c {
        let p = nth_pattern((v - 1) as nat, k);
        lemma_codec_bijection((v - 1) as nat, k);
        if !is_top_pattern(p) {
            lemma_next_pattern(p);
            lemma_midx_upper(next_pattern(p), 128, 0, 0);
            assert(false);
        }
    } else {
        lemma_nth_pattern_zero_iff((v - 1) as nat, k);
    }
}

/// The top pattern is the only weight-k pattern whose run touches the word top.
pub proof fn lemma_top_unique(m: nat, k: nat)
    requires
        is_top_pattern(m),
        pop(m) == k,
        m < pow2(128),
    ensures
        m == top_pattern(k),
{
    lemma_run_decomp(m);
    lemma_run_bounds(m);
    let z = run_z(m);
    let a = run_a(m);
    let h = run_h(m);
    lemma_pow2_facts();
    lemma_pow2_pos(z);
    lemma_pow2_pos(a);
    assert(pow2((128 - z - a) as nat) == 1);
    assert(h == 0);
    lemma_pop_split((h * pow2(a) + pow2(a) - 1) as nat, z, 0);
    lemma_pop_split(h, a, (pow2(a) - 1) as nat);
    lemma_pop_ones(a);
    assert(h * pow2(a) == 0) by (nonlinear_arith)
        requires
            h == 0,
    ;
    assert(pop(0nat) == 0);
    assert(a == k);
    assert(m == top_pattern(k)) by (nonlinear_arith)
        requires
            m == (0 * pow2(a) + pow2(a) - 1) * pow2(z),
            top_pattern(k) == (pow2(k) - 1) * pow2((128 - k) as nat),
            a == k,
            z == 128 - k,
    ;
}

/// A pattern indexed below C(w, k) uses only the low w bits.
pub proof fn lemma_pattern_below_width(v: nat, k: nat, w: nat)
    requires
        1 <= k,
        w <= 128,
        v < binom(w, k),
    ensures
        nth_pattern(v, k) < pow2(w),
{
    lemma_binom_mono(w, 128, k);
    lemma_codec_bijection(v, k);
    let p = nth_pattern(v, k);
    if p >= pow2(w) {
        lemma_midx_lower(p, w, 0, 0);
        assert(false);
    }
}

/// A word that ends in a one followed by z zeros ors with its predecessor
/// into the same word with the z low bits filled.
#[verifier::rlimit(100)]
#[verifier::spinoff_prover]
proof fn lemma_or_fill(m: u128, mm1: u128, t: u128, q: u128, z: u128, zfill: u128)
    by (bit_vector)
    requires
        z <= 126,
        q % 2 == 1,
        m == q << z,
        mm1 + 1 == m,
        t == m | mm1,
        zfill + 1 == (1u128 << z),
    ensures
        t == m + zfill,
{
}

/// Isolating the lowest set bit of t + 1 against the complement of t.
#[verifier::rlimit(100)]
#[verifier::spinoff_prover]
proof fn lemma_low_bit(t: u128, t1: u128, u: u128, q: u128, za: u128)
    by (bit_vector)
    requires
        za <= 127,
        q % 2 == 1,
        t1 == q << za,
        t1 == t + 1,
        u == (!t) & t1,
    ensures
        u == (1u128 << za),
{
}

/// The next marker of the same weight: one step of the enumeration.
///
/// The pattern must not be 0 and not the greatest of its weight class.
pub fn next_rank(marker: u128) -> (r: u128)
    requires
        marker != 0,
        !is_top_pattern(marker as nat),
    ensures
        r as nat == next_pattern(marker as nat),
        pop(r as nat) == pop(marker as nat),
        marker_index(r as nat) == marker_index(marker as nat) + 1,
        r != 0,
{
    let ghost mn = marker as nat;
    let ghost z = run_z(mn);
    let ghost a = run_a(mn);
    let ghost h = run_h(mn);
    let ghost w = (128 - z - a) as nat;
    let ghost s = (h * pow2(a) + pow2(a) - 1) as nat;
    let ghost zu = z as u128;
    let ghost zau = (z + a) as u128;
    let ghost zfill = ((pow2(z) - 1) as nat) as u128;
    let zeros = trailing_zeros128(marker);
    proof {
        lemma_pow2_facts();
        lemma_run_decomp(mn);
        lemma_run_bounds(mn);
        lemma_next_pattern(mn);
        lemma_pow2_pos(z);
        lemma_pow2_pos(a);
        lemma_pow2_pos(w);
        lemma_pow2_pos((z + a) as nat);
        assert(z + a <= 127);
        assert(zeros == z);
        lemma_pow2_strictly_increases(z, 127);
        lemma_u128_one_shl(zu);
        // m is the odd run part s shifted left by z
        lemma_tzs_decomp(mn);
        lemma_tos_decomp(mn / pow2(tzs(mn)));
        assert(s == mn / pow2(z));
        assert(s % 2 == 1);
        assert(s * pow2(z) == mn);
        lemma_pow2_strictly_increases((z + a) as nat, 128);
        assert(s * pow2(z) <= u128::MAX);
        lemma_u128_shl_is_mul((s as nat) as u128, zu);
        assert(marker == ((s as nat) as u128) << zu);
        assert(zfill + 1 == (1u128 << zu));
    }
    let mm1 = marker - 1;
    let t = marker | mm1;
    proof {
        lemma_or_fill(marker, mm1, t, (s as nat) as u128, zu, zfill);
        // t == h * 2^(z+a) + 2^(z+a) - 1
        lemma_pow2_adds(a, z);
        assert(t as nat == h * pow2((z + a) as nat) + pow2((z + a) as nat) - 1) by (nonlinear_arith)
            requires
                t as nat == mn + pow2(z) - 1,
                mn == (h * pow2(a) + pow2(a) - 1) * pow2(z),
                pow2((z + a) as nat) == pow2(a) * pow2(z),
                pow2(z) >= 1,
        ;
        // t + 1 stays below 2^128
        lemma_pow2_unfold(w);
        lemma_fundamental_div_mod(h as int, 2);
        assert(h + 1 < pow2(w)) by (nonlinear_arith)
            requires
                h < pow2(w),
                h % 2 == 0,
                pow2(w) == 2 * pow2((w - 1) as nat),
                h == 2 * (h / 2),
        ;
        lemma_pow2_adds(w, (z + a) as nat);
        assert((h + 1) * pow2((z + a) as nat) < pow2(w) * pow2((z + a) as nat)) by (nonlinear_arith)
            requires
                h + 1 < pow2(w),
                pow2((z + a) as nat) >= 1,
        ;
        assert((t as nat) + 1 == (h + 1) * pow2((z + a) as nat)) by (nonlinear_arith)
            requires
                t as nat == h * pow2((z + a) as nat) + pow2((z + a) as nat) - 1,
        ;
        assert((t as nat) + 1 < pow2(128nat));
    }
    let t1 = t + 1;
    let u = (!t) & t1;
    let ghost hp1 = ((h + 1) as nat) as u128;
    proof {
        assert(t1 as nat == (h + 1) * pow2((z + a) as nat)) by (nonlinear_arith)
            requires
                t as nat == h * pow2((z + a) as nat) + pow2((z + a) as nat) - 1,
                t1 == t + 1,
        ;
        assert(hp1 % 2 == 1);
        lemma_u128_shl_is_mul(hp1, zau);
        lemma_low_bit(t, t1, u, hp1, zau);
        lemma_u128_one_shl(zau);
        assert(u as nat == pow2((z + a) as nat));
    }
    let um1 = u - 1;
    let sh = um1 >> ((zeros as u128) + 1);
    let r = t1 | sh;
    proof {
        // the shifted fill is the bottom part of the next pattern
        lemma_u128_shr_is_div(um1, (zu + 1) as u128);
        lemma_pow2_adds((a - 1) as nat, (z + 1) as nat);
        lemma_pow2_pos((z + 1) as nat);
        lemma_pow2_pos((a - 1) as nat);
        assert((pow2((a - 1) as nat) - 1) * pow2((z + 1) as nat) + pow2((z + 1) as nat) - 1
            == pow2((z + a) as nat) - 1) by (nonlinear_arith)
            requires
                pow2((a - 1) as nat) * pow2((z + 1) as nat) == pow2((z + a) as nat),
                pow2((a - 1) as nat) >= 1,
                pow2((z + 1) as nat) >= 1,
        ;
        lemma_fundamental_div_mod_converse(
            um1 as int,
            pow2((z + 1) as nat) as int,
            pow2((a - 1) as nat) as int - 1,
            pow2((z + 1) as nat) as int - 1,
        );
        assert(sh as nat == pow2((a - 1) as nat) - 1);
        // or the two disjoint parts together
        lemma_pow2_strictly_increases((a - 1) as nat, (z + a) as nat);
        lemma_u128_shl_or_low(hp1, zau, sh);
        assert(r == (hp1 << zau) | sh);
        assert(r as nat == (h + 1) * pow2((z + a) as nat) + pow2((a - 1) as nat) - 1);
    }
    r
}

/// The marker of `value` within the weight-k enumeration, as the classical
/// combinatorial number system lists it; 0 once `value` is out of range.
pub fn rank(value: usize, k: u8) -> (r: u128)
    requires
        1 <= k <= 9,
    ensures
        r as nat == nth_pattern(value as nat, k as nat),
        r == 0 <==> value as nat >= binom(128, k as nat),
        r != 0 ==> pop(r as nat) == k as nat && marker_index(r as nat) == value as nat,
{
    let ghost kn = k as nat;
    proof {
        lemma_pow2_facts();
        lemma_u128_one_shl(k as u128);
        lemma_pow2_pos(kn);
    }
    let ones: u128 = (1u128 << (k as u128)) - 1;
    let top: u128 = ones << ((128 - k as u32) as u128);
    proof {
        lemma_first_pattern(kn);
        lemma_top_pattern(kn);
        lemma_pow2_adds(kn, (128 - kn) as nat);
        lemma_pow2_pos((128 - kn) as nat);
        assert((pow2(kn) - 1) * pow2((128 - kn) as nat) < pow2(128nat)) by (nonlinear_arith)
            requires
                pow2(kn) >= 1,
                pow2((128 - kn) as nat) >= 1,
                pow2(kn) * pow2((128 - kn) as nat) == pow2(128nat),
        ;
        lemma_u128_shl_is_mul(ones, (128 - kn) as u128);
        assert(top as nat == top_pattern(kn));
        lemma_pop_zero(first_pattern(kn));
    }
    let mut marker = ones;
    let mut i: usize = 0;
    while i < value
        invariant
            1 <= k <= 9,
            kn == k as nat,
            top as nat == top_pattern(kn),
            marker as nat == nth_pattern(i as nat, kn),
            i <= value,
            marker != 0,
            pop(marker as nat) == kn,
            marker_index(marker as nat) == i as nat,
        decreases value - i,
    {
        if marker == top {
            proof {
                lemma_top_pattern(kn);
                assert(is_top_pattern(marker as nat));
                assert(nth_pattern((i + 1) as nat, kn) == 0);
                lemma_nth_pattern_stays_zero((i + 1) as nat, value as nat, kn);
                lemma_nth_pattern_zero_iff(value as nat, kn);
            }
            return 0;
        }
        proof {
            lemma_pow2_facts();
            if is_top_pattern(marker as nat) {
                lemma_top_unique(marker as nat, kn);
                assert(false);
            }
        }
        marker = next_rank(marker);
        i = i + 1;
    }
    proof {
        lemma_midx_upper(marker as nat, 128, 0, 0);
        lemma_nth_pattern_zero_iff(value as nat, kn);
    }
    marker
}

/// The index of a marker in the enumeration of its weight class: the inverse
/// of `rank` on every pattern of weight at most 9.
pub fn unrank(marker: u128) -> (r: u64)
    requires
        pop(marker as nat) <= 9,
    ensures
        r as nat == marker_index(marker as nat),
{
    let ghost mn = marker as nat;
    proof {
        lemma_pow2_facts();
        lemma_midx_upper(mn, 128, 0, 0);
        lemma_binom_128_small(pop(mn));
        lemma2_to64_rest();
    }
    let mut w = marker;
    let mut posn: u32 = 0;
    let mut j: u8 = 0;
    let mut value: u64 = 0;
    while w != 0
        invariant
            pop(mn) <= 9,
            value + midx(w as nat, posn as nat, j as nat) == marker_index(mn),
            pop(w as nat) + j as nat == pop(mn),
            (w as nat) < pow2((128 - posn) as nat),
            posn <= 128,
            marker_index(mn) + 1 <= binom(128, pop(mn)),
            binom(128, pop(mn)) <= pow2(63nat),
            pow2(63nat) == 0x8000000000000000,
        decreases w,
    {
        proof {
            lemma_u128_bit_step(w);
            if posn == 128 {
                lemma_pow2_facts();
                assert(false);
            }
            lemma_pow2_unfold((128 - posn) as nat);
            assert(w as nat / 2 < pow2((128 - posn - 1) as nat)) by (nonlinear_arith)
                requires
                    (w as nat) < 2 * pow2((128 - posn - 1) as nat),
            ;
        }
        if w & 1 == 1 {
            j = j + 1;
            proof {
                assert(midx(w as nat, posn as nat, (j - 1) as nat) == binom(
                    posn as nat,
                    j as nat,
                ) + midx(w as nat / 2, posn as nat + 1, j as nat));
            }
            let b = binomial(posn as u64, j);
            value = value + b;
        }
        w = w >> 1u128;
        posn = posn + 1;
    }
    value
}

} // verus!

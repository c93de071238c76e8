//! Arithmetic models of the bit-level notions the codec needs: population
//! count, trailing zeros and trailing ones, together with executable
//! counterparts for `u128` words and the lemmas that connect `%`/`/` by two
//! with the machine's bit operations.

use vstd::prelude::*;
use vstd::arithmetic::power2::*;
use vstd::arithmetic::power::lemma_pow_increases;
use vstd::arithmetic::div_mod::*;
use vstd::arithmetic::mul::*;
use vstd::bits::lemma_u128_shr_is_div;

verus! {

/// Number of set bits in the binary representation of n.
pub open spec fn pop(n: nat) -> nat
    decreases n,
{
    if n == 0 {
        0
    } else {
        n % 2 + pop(n / 2)
    }
}

/// Number of trailing zero bits; 0 for odd n and for n == 0.
pub open spec fn tzs(n: nat) -> nat
    decreases n,
{
    if n == 0 || n % 2 == 1 {
        0
    } else {
        1 + tzs(n / 2)
    }
}

/// Number of trailing one bits; 0 for even n.
pub open spec fn tos(n: nat) -> nat
    decreases n,
{
    if n % 2 == 0 {
        0
    } else {
        1 + tos(n / 2)
    }
}

/// Concrete powers of two at the word boundaries used below.
pub proof fn lemma_pow2_facts()
    ensures
        pow2(0) == 1,
        pow2(1) == 2,
        pow2(64) == 0x10000000000000000,
        pow2(127) == 0x80000000000000000000000000000000,
        pow2(128) == 0x100000000000000000000000000000000,
{
    lemma2_to64();
    lemma2_to64_rest();
    lemma_pow2_adds(64, 64);
    lemma_pow2_adds(63, 64);
}

/// The lowest bit and the rest, as the machine computes them.
pub proof fn lemma_u128_bit_step(m: u128)
    ensures
        (m & 1) == m % 2,
        (m >> 1u128) == m / 2,
        (m & 1) <= 1,
{
    assert((m & 1) == m % 2) by (bit_vector);
    assert((m >> 1u128) == m / 2) by (bit_vector);
}

/// A number below 2^b has at most b set bits.
pub proof fn lemma_pop_bound(n: nat, b: nat)
    requires
        n < pow2(b),
    ensures
        pop(n) <= b,
    decreases b,
{
    if b == 0 {
        lemma_pow2_facts();
    } else if n > 0 {
        assert(pow2(b) == 2 * pow2((b - 1) as nat)) by {
            lemma_pow2_unfold(b);
        }
        assert(n / 2 < pow2((b - 1) as nat));
        lemma_pop_bound(n / 2, (b - 1) as nat);
    }
}

/// pop is zero exactly on zero.
pub proof fn lemma_pop_zero(n: nat)
    ensures
        pop(n) == 0 <==> n == 0,
    decreases n,
{
    if n > 0 {
        lemma_pop_zero(n / 2);
    }
}

/// Splitting a word at bit s: the two halves count separately.
pub proof fn lemma_pop_split(x: nat, s: nat, y: nat)
    requires
        y < pow2(s),
    ensures
        pop(x * pow2(s) + y) == pop(x) + pop(y),
    decreases s,
{
    if s == 0 {
        lemma_pow2_facts();
        assert(x * 1 == x) by (nonlinear_arith);
    } else {
        let s1 = (s - 1) as nat;
        let t = x * pow2(s) + y;
        assert(pow2(s) == 2 * pow2(s1)) by {
            lemma_pow2_unfold(s);
        }
        assert(x * pow2(s) == (x * pow2(s1)) * 2) by (nonlinear_arith)
            requires
                pow2(s) == 2 * pow2(s1),
        ;
        let half = x * pow2(s1) + y / 2;
        assert(t == half * 2 + y % 2) by (nonlinear_arith)
            requires
                t == (x * pow2(s1)) * 2 + y,
                half == x * pow2(s1) + y / 2,
                y == 2 * (y / 2) + y % 2,
        ;
        lemma_fundamental_div_mod(y as int, 2);
        assert(t % 2 == y % 2 && t / 2 == half) by (nonlinear_arith)
            requires
                t == half * 2 + y % 2,
                y % 2 < 2,
        ;
        assert(y / 2 < pow2(s1)) by (nonlinear_arith)
            requires
                y < 2 * pow2(s1),
        ;
        lemma_pop_split(x, s1, y / 2);
        if t != 0 {
            assert(pop(t) == t % 2 + pop(t / 2));
        } else {
            assert(x * pow2(s1) == 0) by (nonlinear_arith)
                requires
                    x * pow2(s1) + y / 2 == 0,
            ;
        }
        assert(pop(y) == y % 2 + pop(y / 2) || y == 0);
    }
}

/// A block of a ones has population a.
pub proof fn lemma_pop_ones(a: nat)
    ensures
        pop((pow2(a) - 1) as nat) == a,
    decreases a,
{
    if a == 0 {
        lemma_pow2_facts();
    } else {
        let a1 = (a - 1) as nat;
        let n = (pow2(a) - 1) as nat;
        lemma_pow2_unfold(a);
        lemma_pow2_pos(a1);
        assert(n == 2 * (pow2(a1) - 1) + 1);
        assert(n % 2 == 1 && n / 2 == pow2(a1) - 1) by (nonlinear_arith)
            requires
                n == 2 * (pow2(a1) - 1) + 1,
                pow2(a1) >= 1,
        ;
        lemma_pop_ones(a1);
    }
}

/// Setting the lowest bit of an even number adds one to its count.
pub proof fn lemma_pop_even_succ(h: nat)
    requires
        h % 2 == 0,
    ensures
        pop(h + 1) == pop(h) + 1,
{
    lemma_fundamental_div_mod(h as int, 2);
    assert((h + 1) % 2 == 1 && (h + 1) / 2 == h / 2) by (nonlinear_arith)
        requires
            h == 2 * (h / 2),
    ;
    if h == 0 {
        assert(pop(0nat) == 0);
        assert(pop(1nat) == 1nat % 2 + pop(1nat / 2));
    }
}

/// The trailing ones are all set bits, so there are at most pop of them.
pub proof fn lemma_tos_le_pop(n: nat)
    ensures
        tos(n) <= pop(n),
    decreases n,
{
    if n % 2 == 1 {
        lemma_tos_le_pop(n / 2);
    }
}

/// Intersection cannot increase the population count.
pub proof fn lemma_pop_and_le(x: u128, y: u128)
    ensures
        pop((x & y) as nat) <= pop(x as nat),
    decreases x as nat,
{
    if x == 0 {
        assert(x & y == 0) by (bit_vector)
            requires
                x == 0u128,
        ;
    } else {
        assert((x & y) & 1 == (x & 1) & (y & 1)) by (bit_vector);
        assert((x & y) >> 1u128 == (x >> 1u128) & (y >> 1u128)) by (bit_vector);
        assert((x & 1) & (y & 1) <= (x & 1)) by (bit_vector);
        lemma_u128_bit_step(x);
        lemma_u128_bit_step(y);
        lemma_u128_bit_step(x & y);
        lemma_pop_and_le(x >> 1u128, y >> 1u128);
        if (x & y) != 0 {
            assert(pop((x & y) as nat) == ((x & y) as nat) % 2 + pop(((x & y) as nat) / 2));
        }
    }
}

/// Bits of the trailing-ones run are set; the bit just above it is clear.
pub proof fn lemma_tos_bit(n: nat, p: nat)
    ensures
        p < tos(n) ==> (n / pow2(p)) % 2 == 1,
        p == tos(n) ==> (n / pow2(p)) % 2 == 0,
    decreases p,
{
    if p == 0 {
        lemma_pow2_facts();
    } else {
        lemma_tos_bit(n / 2, (p - 1) as nat);
        lemma_pow2_unfold(p);
        lemma_pow2_pos((p - 1) as nat);
        assert(n / pow2(p) == (n / 2) / pow2((p - 1) as nat)) by {
            lemma_div_denominator(n as int, 2, pow2((p - 1) as nat) as int);
        }
        if n % 2 == 0 && p == tos(n) {
            // tos(n) == 0 but p >= 1: nothing to show for the first clause,
            // and the second clause cannot apply.
            assert(tos(n) == 0);
        }
    }
}

/// 1 shifted left by s is 2^s.
pub proof fn lemma_u128_one_shl(s: u128)
    requires
        s < 128,
    ensures
        (1u128 << s) == pow2(s as nat),
    decreases s,
{
    if s == 0 {
        assert(1u128 << 0u128 == 1) by (bit_vector);
        lemma_pow2_facts();
    } else {
        let s1 = (s - 1) as u128;
        lemma_u128_one_shl(s1);
        lemma_pow2_unfold(s as nat);
        assert(1u128 << s == 2 * (1u128 << s1)) by (bit_vector)
            requires
                1 <= s < 128,
                s == s1 + 1,
        ;
    }
}

/// Left shift is multiplication by 2^s while it does not overflow.
pub proof fn lemma_u128_shl_is_mul(x: u128, s: u128)
    requires
        s < 128,
        x * pow2(s as nat) <= u128::MAX,
    ensures
        (x << s) == x * pow2(s as nat),
    decreases s,
{
    if s == 0 {
        assert(x << 0u128 == x) by (bit_vector);
        lemma_pow2_facts();
    } else {
        let s1 = (s - 1) as u128;
        assert(pow2(s as nat) == 2 * pow2(s1 as nat)) by {
            lemma_pow2_unfold(s as nat);
        }
        assert(x * pow2(s1 as nat) + x * pow2(s1 as nat) <= u128::MAX) by (nonlinear_arith)
            requires
                x * (2 * pow2(s1 as nat)) <= u128::MAX,
        ;
        lemma_u128_shl_is_mul(x, s1);
        assert(x << s == 2 * (x << s1)) by (bit_vector)
            requires
                1 <= s < 128,
                s == s1 + 1,
                (x << s1) <= u128::MAX / 2,
        ;
        assert(2 * (x * pow2(s1 as nat)) == x * pow2(s as nat)) by (nonlinear_arith)
            requires
                pow2(s as nat) == 2 * pow2(s1 as nat),
        ;
    }
}

/// Or-ing into the cleared low bits of a shifted word is addition.
pub proof fn lemma_u128_shl_or_low(x: u128, s: u128, y: u128)
    requires
        s < 128,
        y < (1u128 << s),
    ensures
        ((x << s) | y) == (x << s) + y,
{
    assert(((x << s) | y) == (x << s) + y) by (bit_vector)
        requires
            s < 128,
            y < (1u128 << s),
    ;
}

/// Setting a clear bit is addition and stays within the word's width.
pub proof fn lemma_set_clear_bit(e: nat, t: nat, v: nat)
    requires
        (e / pow2(t)) % 2 == 0,
        e < pow2(v),
        t < v,
    ensures
        e + pow2(t) < pow2(v),
{
    lemma_pow2_pos(t);
    lemma_pow2_pos(v);
    lemma_pow2_pos((t + 1) as nat);
    lemma_pow2_unfold((t + 1) as nat);
    let q = e / pow2(t + 1);
    let r2 = e % pow2(t + 1);
    lemma_fundamental_div_mod(e as int, pow2(t + 1) as int);
    assert(e == pow2(t + 1) * q + r2);
    assert(0 <= r2 < pow2(t + 1));
    // bit t of e is the top bit of r2
    assert(e / pow2(t) == 2 * q + r2 / pow2(t)) by (nonlinear_arith)
        requires
            e == pow2(t + 1) * q + r2,
            pow2(t + 1) == 2 * pow2(t),
            0 <= r2 < pow2(t + 1),
            pow2(t) >= 1,
    ;
    assert(r2 / pow2(t) < 2) by (nonlinear_arith)
        requires
            r2 < 2 * pow2(t),
            pow2(t) >= 1,
    ;
    assert((e / pow2(t)) % 2 == r2 / pow2(t)) by (nonlinear_arith)
        requires
            e / pow2(t) == 2 * q + r2 / pow2(t),
            0 <= r2 / pow2(t) < 2,
    ;
    lemma_fundamental_div_mod(r2 as int, pow2(t) as int);
    assert(r2 < pow2(t)) by (nonlinear_arith)
        requires
            r2 / pow2(t) == 0,
            r2 >= 0,
            pow2(t) >= 1,
            r2 == pow2(t) * (r2 / pow2(t)) + r2 % pow2(t),
            r2 % pow2(t) < pow2(t),
    ;
    // q is small enough that one more block still fits
    let vt = (v - t - 1) as nat;
    lemma_pow2_adds(vt, (t + 1) as nat);
    assert(q < pow2(vt)) by (nonlinear_arith)
        requires
            pow2(t + 1) * q <= e,
            e < pow2(v),
            pow2(v) == pow2(vt) * pow2((t + 1) as nat),
            pow2((t + 1) as nat) >= 1,
            r2 >= 0,
            e == pow2(t + 1) * q + r2,
    ;
    assert(e + pow2(t) < (q + 1) * pow2(t + 1)) by (nonlinear_arith)
        requires
            e == pow2(t + 1) * q + r2,
            r2 < pow2(t),
            pow2(t + 1) == 2 * pow2(t),
    ;
    assert((q + 1) * pow2(t + 1) <= pow2(vt) * pow2((t + 1) as nat)) by (nonlinear_arith)
        requires
            q + 1 <= pow2(vt),
            pow2((t + 1) as nat) >= 1,
    ;
}

/// Or-ing a single clear bit into a word is addition.
pub proof fn lemma_u128_or_clear_bit(x: u128, p: u128)
    by (bit_vector)
    requires
        p < 128,
        (x >> p) & 1 == 0,
    ensures
        (x | (1u128 << p)) == x + (1u128 << p),
{
}

/// Number of set bits in a 128-bit word.
pub fn popcount128(x: u128) -> (r: u32)
    ensures
        r == pop(x as nat),
        r <= 128,
{
    proof {
        lemma_pow2_facts();
        lemma_pop_bound(x as nat, 128);
    }
    let mut m = x;
    let mut c: u32 = 0;
    while m != 0
        invariant
            c + pop(m as nat) == pop(x as nat),
            pop(x as nat) <= 128,
        decreases m,
    {
        proof {
            lemma_u128_bit_step(m);
        }
        c = c + (m & 1) as u32;
        m = m >> 1u128;
    }
    c
}

/// Number of trailing zero bits of a 128-bit word; 128 when x == 0.
pub fn trailing_zeros128(x: u128) -> (r: u32)
    ensures
        x != 0 ==> r == tzs(x as nat) && r <= 127,
        x == 0 ==> r == 128,
{
    if x == 0 {
        return 128;
    }
    let mut m = x;
    let mut z: u32 = 0;
    proof {
        lemma_pow2_facts();
    }
    while m & 1 == 0
        invariant
            x != 0,
            m == x as nat / pow2(z as nat),
            m != 0,
            pow2(z as nat) <= x as nat,
            z <= 127,
            tzs(x as nat) == z + tzs(m as nat),
        decreases m,
    {
        proof {
            lemma_u128_bit_step(m);
            assert(m as nat % 2 == 0 && m != 0);
            // the next quotient
            lemma_pow2_unfold((z + 1) as nat);
            lemma_pow2_pos(z as nat);
            lemma_div_denominator(x as int, pow2(z as nat) as int, 2);
            assert(m as nat / 2 == x as nat / pow2((z + 1) as nat)) by (nonlinear_arith)
                requires
                    m as nat == x as nat / pow2(z as nat),
                    (x as nat / pow2(z as nat)) / 2 == x as nat / (pow2(z as nat) * 2),
                    pow2((z + 1) as nat) == 2 * pow2(z as nat),
            ;
            // the run of zeros continues
            assert(tzs(m as nat) == 1 + tzs(m as nat / 2));
            // m even and nonzero means m >= 2, so 2^(z+1) <= x
            lemma_fundamental_div_mod(m as int, 2);
            assert(m as nat >= 2);
            lemma_fundamental_div_mod(x as int, pow2(z as nat) as int);
            assert(x as nat >= 2 * pow2(z as nat)) by (nonlinear_arith)
                requires
                    x as int == pow2(z as nat) * (x as int / pow2(z as nat) as int) + x as int % pow2(z as nat) as int,
                    x as int % pow2(z as nat) as int >= 0,
                    x as int / pow2(z as nat) as int >= 2,
                    pow2(z as nat) >= 1,
            ;
            if z == 127 {
                lemma_pow2_facts();
                assert(false);
            }
        }
        z = z + 1;
        m = m >> 1u128;
    }
    proof {
        lemma_u128_bit_step(m);
        assert(tzs(m as nat) == 0);
    }
    z
}

} // verus!

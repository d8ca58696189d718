//! Binary logarithms in fixed point.
//!
//! The integer part is the position of the highest bit. Each squaring of the
//! mantissa that follows yields one more bit of the fraction.

use vstd::arithmetic::logarithm::*;
use vstd::arithmetic::power::*;
use vstd::arithmetic::power2::*;
use vstd::prelude::*;

verus! {

/// Bits behind the binary point.
pub const FRACTION_BITS: u32 = 24;

/// The fixed-point number 1.
pub const UNIT: u64 = 0x100_0000;

/// A mantissa of 1.
pub const MANTISSA_ONE: u64 = 0x8000_0000_0000_0000;

/// The square of a mantissa, rounded down; twice `MANTISSA_ONE` stands for 2.
pub open spec fn squared(m: nat) -> nat {
    m * m / MANTISSA_ONE as nat
}

/// The first `n` bits of the fraction of a mantissa's logarithm.
pub open spec fn fraction(m: nat, n: nat) -> nat
    decreases n,
{
    if n == 0 {
        0
    } else {
        let s = squared(m);
        if s >= 2 * MANTISSA_ONE as nat {
            pow2((n - 1) as nat) + fraction(s / 2, (n - 1) as nat)
        } else {
            fraction(s, (n - 1) as nat)
        }
    }
}

/// The integer part of the logarithm.
pub open spec fn floor_log(x: nat) -> nat {
    log(2, x as int) as nat
}

/// The binary logarithm of `x` in fixed point.
pub open spec fn lg(x: nat) -> nat {
    let e = floor_log(x);
    e * UNIT as nat + fraction(x * pow2((63 - e) as nat), FRACTION_BITS as nat)
}

/// A mantissa from 1 below 2.
pub open spec fn mantissa(m: nat) -> bool {
    MANTISSA_ONE <= m < 2 * MANTISSA_ONE as nat
}

proof fn lemma_squared(m: nat)
    requires
        mantissa(m),
    ensures
        MANTISSA_ONE <= squared(m) < 4 * MANTISSA_ONE as nat,
        squared(m) < 2 * MANTISSA_ONE as nat ==> mantissa(squared(m)),
        squared(m) >= 2 * MANTISSA_ONE as nat ==> mantissa(squared(m) / 2),
        squared(m) * MANTISSA_ONE as nat <= m * m,
        m * m < 0x1_0000_0000_0000_0000_0000_0000_0000_0000,
{
    let one = MANTISSA_ONE as nat;
    assert(m * m >= one * one) by (nonlinear_arith)
        requires
            m >= one,
    ;
    assert(m * m < (2 * one) * (2 * one)) by (nonlinear_arith)
        requires
            m < 2 * one,
    ;
    assert(one * one == 0x4000_0000_0000_0000_0000_0000_0000_0000);
    assert((2 * one) * (2 * one) == 4 * (one * one)) by (nonlinear_arith);
}

proof fn lemma_fraction_bound(m: nat, n: nat)
    requires
        mantissa(m),
    ensures
        fraction(m, n) < pow2(n),
    decreases n,
{
    lemma2_to64();
    if n > 0 {
        lemma_squared(m);
        let s = squared(m);
        let k = (n - 1) as nat;
        lemma_pow2_unfold(n);
        if s >= 2 * MANTISSA_ONE as nat {
            lemma_fraction_bound(s / 2, k);
        } else {
            lemma_fraction_bound(s, k);
        }
    }
}

proof fn lemma_fraction_monotone(a: nat, b: nat, n: nat)
    requires
        mantissa(a),
        mantissa(b),
        a <= b,
    ensures
        fraction(a, n) <= fraction(b, n),
    decreases n,
{
    if n > 0 {
        lemma_squared(a);
        lemma_squared(b);
        let k = (n - 1) as nat;
        let sa = squared(a);
        let sb = squared(b);
        assert(a * a <= b * b) by (nonlinear_arith)
            requires
                a <= b,
        ;
        assert(sa <= sb);
        if sa >= 2 * MANTISSA_ONE as nat {
            lemma_fraction_monotone(sa / 2, sb / 2, k);
        } else if sb >= 2 * MANTISSA_ONE as nat {
            lemma_fraction_bound(sa, k);
        } else {
            lemma_fraction_monotone(sa, sb, k);
        }
    }
}

/// `x` shifted so that its highest bit is the highest of 64.
proof fn lemma_mantissa(x: nat)
    requires
        0 < x <= u64::MAX,
    ensures
        floor_log(x) <= 63,
        mantissa(x * pow2((63 - floor_log(x)) as nat)),
        pow2(floor_log(x)) <= x < pow2(floor_log(x) + 1),
{
    lemma2_to64();
    lemma2_to64_rest();
    lemma_log_nonnegative(2, x as int);
    let e = floor_log(x);
    lemma_pow_bracket(x);
    if e > 63 {
        lemma_pow2_monotone(64, e);
    }
    let r = (63 - e) as nat;
    lemma_pow2_adds(e, r);
    lemma_pow2_adds(e + 1, r);
    lemma_pow2_pos(r);
    let p = pow2(r);
    let lo = pow2(e);
    let hi = pow2(e + 1);
    assert(x * p >= lo * p) by (nonlinear_arith)
        requires
            x >= lo,
    ;
    assert(x * p < hi * p) by (nonlinear_arith)
        requires
            x < hi,
            p > 0,
    ;
}

proof fn lemma_pow2_monotone(a: nat, b: nat)
    requires
        a <= b,
    ensures
        pow2(a) <= pow2(b),
{
    if a < b {
        lemma_pow2_strictly_increases(a, b);
    }
}

proof fn lemma_pow_bracket(x: nat)
    requires
        x > 0,
    ensures
        pow2(floor_log(x)) <= x < pow2(floor_log(x) + 1),
    decreases x,
{
    lemma2_to64();
    if x < 2 {
        lemma_log0(2, x as int);
    } else {
        lemma_log_s(2, x as int);
        lemma_log_nonnegative(2, x as int / 2);
        lemma_pow_bracket(x / 2);
        let e = floor_log(x);
        lemma_pow2_unfold(e);
        lemma_pow2_unfold(e + 1);
    }
}

/// The logarithm of a power of two is its exponent.
pub proof fn law_log_of_power(k: nat)
    requires
        k <= 63,
    ensures
        lg(pow2(k)) == k * UNIT as nat,
{
    let x = pow2(k);
    lemma_pow2_pos(k);
    lemma2_to64();
    lemma2_to64_rest();
    if k < 63 {
        lemma_pow2_strictly_increases(k, 63);
    }
    lemma_mantissa(x);
    let e = floor_log(x);
    assert(e == k) by {
        if e < k {
            lemma_pow2_monotone(e + 1, k);
        }
        if k < e {
            lemma_pow2_strictly_increases(k, e);
        }
    }
    lemma_pow2_adds(k, (63 - k) as nat);
    lemma_fraction_of_one(FRACTION_BITS as nat);
}

proof fn lemma_fraction_of_one(n: nat)
    ensures
        fraction(MANTISSA_ONE as nat, n) == 0,
    decreases n,
{
    if n > 0 {
        let one = MANTISSA_ONE as nat;
        assert(squared(one) == one);
        lemma_fraction_of_one((n - 1) as nat);
    }
}

/// The logarithm of twice a number is greater by one.
pub proof fn law_log_doubles(x: nat)
    requires
        0 < x,
        2 * x <= u64::MAX,
    ensures
        lg(2 * x) == lg(x) + UNIT as nat,
{
    lemma_mantissa(x);
    lemma_mantissa(2 * x);
    let e = floor_log(x);
    let f = floor_log(2 * x);
    lemma_pow2_unfold(e + 1);
    lemma_pow2_unfold(e + 2);
    assert(f == e + 1) by {
        if f < e + 1 {
            lemma_pow2_monotone(f + 1, e + 1);
        }
        if f > e + 1 {
            lemma_pow2_monotone(e + 2, f);
        }
    }
    lemma_pow2_unfold((63 - e) as nat);
    let p = pow2((62 - e) as nat);
    assert((2 * x) * p == x * (2 * p)) by (nonlinear_arith);
    assert((e + 1) * UNIT == e * UNIT + UNIT) by (nonlinear_arith);
}

/// A larger number has no smaller logarithm.
pub proof fn law_log_monotone(x: nat, y: nat)
    requires
        0 < x <= y <= u64::MAX,
    ensures
        lg(x) <= lg(y),
{
    lemma_mantissa(x);
    lemma_mantissa(y);
    lemma2_to64();
    let ex = floor_log(x);
    let ey = floor_log(y);
    if ex == ey {
        let p = pow2((63 - ex) as nat);
        assert(x * p <= y * p) by (nonlinear_arith)
            requires
                x <= y,
        ;
        lemma_fraction_monotone(x * p, y * p, FRACTION_BITS as nat);
    } else {
        if ey < ex {
            lemma_pow2_monotone(ey + 1, ex);
        }
        lemma_fraction_bound(x * pow2((63 - ex) as nat), FRACTION_BITS as nat);
    }
}

/// The logarithm of a 64-bit number is below 64.
pub proof fn law_log_bound(x: nat)
    requires
        0 < x <= u64::MAX,
    ensures
        lg(x) < 64 * UNIT as nat,
{
    lemma_mantissa(x);
    lemma2_to64();
    lemma_fraction_bound(x * pow2((63 - floor_log(x)) as nat), FRACTION_BITS as nat);
}

/// The binary logarithm of `x` in fixed point.
pub fn log2(x: u64) -> (r: u64)
    requires
        x > 0,
    ensures
        r == lg(x as nat),
{
    let ghost e0 = floor_log(x as nat);
    proof {
        lemma_mantissa(x as nat);
        lemma2_to64();
        lemma2_to64_rest();
        law_log_bound(x as nat);
        assert(x * pow2(0) == x) by (nonlinear_arith)
            requires
                pow2(0) == 1,
        ;
    }
    let mut m: u64 = x;
    let mut e: u64 = 63;
    while m < MANTISSA_ONE
        invariant
            0 < x,
            e <= 63,
            m == x * pow2((63 - e) as nat),
            e0 == floor_log(x as nat),
            e0 <= 63,
            pow2(e0) <= x < pow2(e0 + 1),
            m > 0,
        decreases e,
    {
        proof {
            lemma2_to64();
            let r = (63 - e) as nat;
            if e == 0 {
                assert(x * pow2(63) >= pow2(63)) by (nonlinear_arith)
                    requires
                        x > 0,
                ;
                lemma2_to64_rest();
            }
            lemma_pow2_unfold(r + 1);
            let p = pow2(r);
            assert(2 * (x * p) == x * (2 * p)) by (nonlinear_arith);
        }
        m = m * 2;
        e -= 1;
    }
    proof {
        // The shifted value has exactly one place for its highest bit.
        let r = (63 - e) as nat;
        lemma2_to64();
        lemma2_to64_rest();
        let p = pow2(r);
        lemma_pow2_pos(r);
        if e < e0 {
            lemma_pow2_adds(e0, r);
            lemma_pow2_monotone(64, e0 + r);
            let q = pow2(e0);
            assert(x * p >= q * p) by (nonlinear_arith)
                requires
                    x >= q,
            ;
        }
        if e0 < e {
            lemma_pow2_adds(e0 + 1, r);
            lemma_pow2_monotone(e0 + 1 + r, 63);
            let q = pow2(e0 + 1);
            assert(x * p < q * p) by (nonlinear_arith)
                requires
                    x < q,
                    p > 0,
            ;
        }
        assert(e == e0);
        assert(mantissa(m as nat));
    }
    let mut bits: u64 = 0;
    let mut left: u32 = FRACTION_BITS;
    let ghost whole = fraction(m as nat, FRACTION_BITS as nat);
    proof {
        assert(0 * pow2(left as nat) == 0);
        lemma_fraction_bound(m as nat, FRACTION_BITS as nat);
        lemma2_to64();
    }
    while left > 0
        invariant
            left <= FRACTION_BITS,
            mantissa(m as nat),
            bits * pow2(left as nat) + fraction(m as nat, left as nat) == whole,
            bits <= whole,
            whole < UNIT,
        decreases left,
    {
        let ghost n = left as nat;
        let ghost k = (n - 1) as nat;
        let ghost m0 = m as nat;
        proof {
            lemma_squared(m as nat);
            lemma_pow2_unfold(n);
        }
        let s: u128 = (m as u128 * m as u128) / (MANTISSA_ONE as u128);
        let ghost b0 = bits as nat;
        let ghost p = pow2(k);
        proof {
            lemma_pow2_pos(k);
            assert(b0 * (2 * p) == (2 * b0) * p) by (nonlinear_arith);
            assert((2 * b0 + 1) * p == (2 * b0) * p + p) by (nonlinear_arith);
        }
        if s >= 0x1_0000_0000_0000_0000 {
            assert(2 * b0 + 1 <= whole) by {
                assert((2 * b0 + 1) * p >= 2 * b0 + 1) by (nonlinear_arith)
                    requires
                        p >= 1,
                ;
            }
            bits = bits * 2 + 1;
            m = (s / 2) as u64;
        } else {
            assert(2 * b0 <= whole) by {
                assert((2 * b0) * p >= 2 * b0) by (nonlinear_arith)
                    requires
                        p >= 1,
                ;
            }
            bits = bits * 2;
            m = s as u64;
        }
        left -= 1;
    }
    proof {
        lemma2_to64();
        assert(bits * pow2(0) == bits);
    }
    e * UNIT + bits
}

} // verus!

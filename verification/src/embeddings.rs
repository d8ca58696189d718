//! Document vectors: half-precision coordinates and the file they are in.
//!
//! Row `i` is the vector of document `i`. Coordinates are handled as the bit
//! patterns of floating-point numbers.
//!
//! ```text
//! magic[8] = "HPSEMB01"
//! version u32 = 1
//! num_docs u32
//! dim u32
//! dtype u32   0 = single, 1 = half
//! reserved[8]
//! then num_docs * dim coordinates, little-endian
//! ```

use crate::codec;
use crate::table;
use vstd::arithmetic::power2::*;
use vstd::prelude::*;

verus! {

// ---------------------------------------------------------------------------
// Half and single precision
// ---------------------------------------------------------------------------

/// The sign bit of a half.
pub open spec fn half_sign(h: nat) -> nat {
    h / 0x8000
}

/// The exponent field of a half.
pub open spec fn half_exp(h: nat) -> nat {
    (h / 0x400) % 32
}

/// The fraction field of a half.
pub open spec fn half_frac(h: nat) -> nat {
    h % 0x400
}

/// The magnitude of a finite half, as a multiple of 2^-24.
pub open spec fn half_units(h: nat) -> nat {
    if half_exp(h) == 0 {
        half_frac(h)
    } else {
        (0x400 + half_frac(h)) * pow2((half_exp(h) - 1) as nat)
    }
}

/// The sign bit of a single.
pub open spec fn single_sign(b: nat) -> nat {
    b / 0x8000_0000
}

/// The exponent field of a single.
pub open spec fn single_exp(b: nat) -> nat {
    (b / 0x80_0000) % 256
}

/// The fraction field of a single.
pub open spec fn single_frac(b: nat) -> nat {
    b % 0x80_0000
}

/// `b` is the single with the value of the finite half `h`: zero, or a
/// normal number. Its magnitude `(2^23 + frac) * 2^(exp - 150)` is stated as
/// a multiple of 2^-48.
pub open spec fn same_value(h: nat, b: nat) -> bool {
    &&& single_sign(b) == half_sign(h)
    &&& if half_units(h) == 0 {
        single_exp(b) == 0 && single_frac(b) == 0
    } else {
        &&& 102 < single_exp(b) < 255
        &&& (0x80_0000 + single_frac(b)) * pow2((single_exp(b) - 102) as nat) == half_units(h)
            * 0x100_0000
    }
}

proof fn lemma_single_fields(sign: nat, exp: nat, frac: nat)
    requires
        sign < 2,
        exp < 256,
        frac < 0x80_0000,
    ensures
        ({
            let b = sign * 0x8000_0000 + exp * 0x80_0000 + frac;
            &&& single_sign(b) == sign
            &&& single_exp(b) == exp
            &&& single_frac(b) == frac
            &&& b <= u32::MAX
        }),
{
}

/// `b` is the half `h` as a single. A half without magnitude keeps its
/// fraction.
pub open spec fn widens(h: nat, b: nat) -> bool {
    if half_exp(h) < 31 {
        same_value(h, b)
    } else {
        &&& single_sign(b) == half_sign(h)
        &&& single_exp(b) == 255
        &&& single_frac(b) == half_frac(h) * 0x2000
    }
}

/// A half as a single, without loss.
pub fn f16_to_f32(h: u16) -> (b: u32)
    ensures
        widens(h as nat, b as nat),
{
    let sign: u32 = (h / 0x8000) as u32;
    let exp: u32 = ((h / 0x400) % 32) as u32;
    let frac: u32 = (h % 0x400) as u32;
    if exp == 0 {
        if frac == 0 {
            proof {
                lemma_single_fields(sign as nat, 0, 0);
            }
            return sign * 0x8000_0000;
        }
        let mut f: u32 = frac;
        let mut e: u32 = 113;
        let ghost mut k: nat = 0;
        proof {
            lemma2_to64();
            assert(frac * pow2(0) == frac) by (nonlinear_arith)
                requires
                    pow2(0) == 1,
            ;
        }
        while f < 0x400
            invariant
                0 < frac < 0x400,
                0 < f < 0x800,
                f == frac * pow2(k),
                e == 113 - k,
                k <= 10,
            decreases 0x800 - f,
        {
            proof {
                lemma2_to64();
                lemma_pow2_unfold(k + 1);
                if k == 10 {
                    assert(frac * pow2(10) >= 0x400) by (nonlinear_arith)
                        requires
                            pow2(10) == 0x400,
                            frac > 0,
                    ;
                }
                let p = pow2(k);
                assert(2 * (frac * p) == frac * (2 * p)) by (nonlinear_arith);
            }
            f = f * 2;
            e = e - 1;
            proof {
                k = k + 1;
            }
        }
        let rest: u32 = f - 0x400;
        proof {
            lemma_single_fields(sign as nat, e as nat, (rest * 0x2000) as nat);
            // (2^23 + rest * 2^13) * 2^(11 - k) == f * 2^13 * 2^(11 - k) == frac * 2^24
            let q = pow2((e - 102) as nat);
            let p = pow2(k);
            lemma_pow2_adds(k, (11 - k) as nat);
            lemma2_to64();
            assert(p * q == 0x800);
            assert((0x80_0000 + rest * 0x2000) * q == (f * 0x2000) * q);
            assert((f * 0x2000) * q == (frac * 0x2000) * (p * q)) by (nonlinear_arith)
                requires
                    f == frac * p,
            ;
            assert((frac * 0x2000) * 0x800 == frac * 0x100_0000) by (nonlinear_arith);
        }
        return sign * 0x8000_0000 + e * 0x80_0000 + rest * 0x2000;
    }
    if exp == 31 {
        proof {
            lemma_single_fields(sign as nat, 255, (frac * 0x2000) as nat);
        }
        return sign * 0x8000_0000 + 255 * 0x80_0000 + frac * 0x2000;
    }
    proof {
        lemma_single_fields(sign as nat, (exp + 112) as nat, (frac * 0x2000) as nat);
        let q = pow2((exp + 10) as nat);
        let p = pow2((exp - 1) as nat);
        lemma_pow2_adds((exp - 1) as nat, 11);
        lemma2_to64();
        let m = 0x400 + frac as nat;
        assert((0x80_0000 + frac * 0x2000) == m * 0x2000) by (nonlinear_arith)
            requires
                m == 0x400 + frac,
        ;
        assert((m * 0x2000) * q == (m * p) * 0x100_0000) by (nonlinear_arith)
            requires
                q == p * 0x800,
        ;
        lemma_pow2_pos((exp - 1) as nat);
        assert(m * p > 0) by (nonlinear_arith)
            requires
                m > 0,
                p > 0,
        ;
    }
    sign * 0x8000_0000 + (exp + 112) * 0x80_0000 + frac * 0x2000
}

/// The exponent of a single as that of a half.
pub open spec fn rebased(exp: nat) -> int {
    exp - 112
}

/// The half that a single is stored as. Out of range is infinity, too small
/// is zero, and the fraction is rounded to the nearest, halves up. A carry
/// out of the fraction moves on to the exponent.
pub open spec fn stored_half(b: nat) -> nat {
    let sign = single_sign(b) * 0x8000;
    let frac = single_frac(b);
    let exp = rebased(single_exp(b));
    if single_exp(b) == 255 {
        sign + 0x7c00 + (if frac != 0 {
            0x200nat
        } else {
            0nat
        })
    } else if exp >= 31 {
        sign + 0x7c00
    } else if exp < -10 {
        sign
    } else if exp <= 0 {
        sign + ((frac + 0x80_0000) / pow2((1 - exp) as nat) + 0x1000) / 0x2000
    } else {
        (sign + exp * 0x400 + (frac + 0x1000) / 0x2000) as nat
    }
}

/// The half that a single is stored as.
pub fn f32_to_f16(b: u32) -> (h: u16)
    ensures
        h == stored_half(b as nat),
{
    let sign: u32 = (b / 0x8000_0000) * 0x8000;
    let exp: u32 = (b / 0x80_0000) % 256;
    let frac: u32 = b % 0x80_0000;
    if exp == 255 {
        return (sign + 0x7c00 + (if frac != 0 { 0x200 } else { 0 })) as u16;
    }
    if exp >= 143 {
        return (sign + 0x7c00) as u16;
    }
    if exp < 102 {
        return sign as u16;
    }
    if exp <= 112 {
        let shift: u32 = 113 - exp;
        proof {
            lemma2_to64();
        }
        let mut f: u32 = frac + 0x80_0000;
        let mut i: u32 = 0;
        let ghost whole = f as nat;
        assert(whole / pow2(0) == whole);
        while i < shift
            invariant
                i <= shift <= 11,
                f == whole / pow2(i as nat),
                whole < 0x100_0000,
                f <= whole,
                i > 0 ==> f < 0x80_0000,
            decreases shift - i,
        {
            proof {
                lemma_pow2_pos(i as nat);
                lemma_pow2_unfold((i + 1) as nat);
                vstd::arithmetic::div_mod::lemma_div_denominator(
                    whole as int,
                    pow2(i as nat) as int,
                    2,
                );
                assert(pow2(i as nat) * 2 == 2 * pow2(i as nat)) by (nonlinear_arith);
            }
            f = f / 2;
            i += 1;
        }
        return (sign + (f + 0x1000) / 0x2000) as u16;
    }
    let e: u32 = exp - 112;
    (sign + e * 0x400 + (frac + 0x1000) / 0x2000) as u16
}

/// A half that went through single precision is stored as it was.
pub proof fn law_half_survives_single(h: nat, b: nat)
    requires
        h <= u16::MAX,
        b <= u32::MAX,
        half_exp(h) < 31,
        same_value(h, b),
    ensures
        stored_half(b) == h,
{
    lemma2_to64();
    let e = single_exp(b);
    let f = single_frac(b);
    let he = half_exp(h);
    let hf = half_frac(h);
    let units = half_units(h);
    assert(h == half_sign(h) * 0x8000 + he * 0x400 + hf);
    if units == 0 {
        if he > 0 {
            lemma_pow2_pos((he - 1) as nat);
            let p = pow2((he - 1) as nat);
            assert((0x400 + hf) * p > 0) by (nonlinear_arith)
                requires
                    p > 0,
            ;
        }
    } else if he > 0 {
        // Both sides are a mantissa times a power of two.
        let p = pow2((he - 1) as nat);
        let m = (0x400 + hf) * 0x2000;
        lemma_pow2_adds((he - 1) as nat, 11);
        let q = pow2((he + 10) as nat);
        assert(units * 0x100_0000 == m * q) by (nonlinear_arith)
            requires
                units == (0x400 + hf) * p,
                m == (0x400 + hf) * 0x2000,
                q == p * 0x800,
        ;
        lemma_mantissa_unique((0x80_0000 + f) as nat, (e - 102) as nat, m as nat, he + 10);
        assert(f == hf * 0x2000);
        assert((hf * 0x2000 + 0x1000) / 0x2000 == hf);
    } else {
        // A subnormal half: hf * 2^24 == (2^23 + f) * 2^(e - 102).
        let x = (0x80_0000 + f) as nat;
        let k = (e - 102) as nat;
        lemma_pow2_pos(k);
        let p = pow2(k);
        assert(k <= 11) by {
            if k > 11 {
                lemma_pow2_strictly_increases(11, k);
                assert(x * p > 0x80_0000 * 0x800) by (nonlinear_arith)
                    requires
                        x >= 0x80_0000,
                        p > 0x800,
                ;
                // hf * 2^24 <= 0x3ff * 2^24 < 2^34
            }
        }
        if k == 11 {
            assert(x * 0x800 == hf * 0x100_0000);
            assert(hf * 0x100_0000 < 0x400 * 0x100_0000) by (nonlinear_arith)
                requires
                    hf < 0x400,
            ;
        }
        assert(k <= 10);
        // The shift by 11 - k undoes the normalisation.
        lemma_pow2_adds(k, (11 - k) as nat);
        let q = pow2((11 - k) as nat);
        lemma_pow2_pos((11 - k) as nat);
        assert(p * q == 0x800);
        assert(x == (hf * 0x2000) * q) by (nonlinear_arith)
            requires
                x * p == hf * 0x100_0000,
                p * q == 0x800,
                p > 0,
        ;
        assert(rebased(e) == k - 10);
        assert((1 - rebased(e)) as nat == (11 - k) as nat);
        vstd::arithmetic::div_mod::lemma_div_by_multiple((hf * 0x2000) as int, q as int);
        assert(x / q == hf * 0x2000);
        assert((hf * 0x2000 + 0x1000) / 0x2000 == hf);
    }
}

/// The magnitude of a finite single, as a multiple of 2^-149.
pub open spec fn magnitude(b: nat) -> nat {
    if single_exp(b) == 0 {
        single_frac(b)
    } else {
        (0x80_0000 + single_frac(b)) * pow2((single_exp(b) - 1) as nat)
    }
}

/// Every number from -1 to 1 comes back from half precision with its sign
/// and within a thousandth.
pub proof fn law_unit_range_survives_halves(b: nat, back: nat)
    requires
        b <= u32::MAX,
        back <= u32::MAX,
        b % 0x8000_0000 <= 0x3f80_0000,
        widens(stored_half(b), back),
    ensures
        single_sign(back) == single_sign(b),
        1000 * (magnitude(back) - magnitude(b)) < pow2(149),
        1000 * (magnitude(b) - magnitude(back)) < pow2(149),
{
    let h = stored_half(b);
    lemma_rounded(b);
    lemma_widened_magnitude(h, back);
    let x = pow2(137);
    lemma_pow2_adds(12, 137);
    lemma2_to64();
    lemma_pow2_pos(137);
    assert(pow2(149) == 4096 * x);
}

proof fn lemma_widened_magnitude(h: nat, back: nat)
    requires
        half_exp(h) < 31,
        same_value(h, back),
    ensures
        magnitude(back) == half_units(h) * pow2(125),
{
    let u = half_units(h);
    if u == 0 {
        assert(u * pow2(125) == 0) by (nonlinear_arith)
            requires
                u == 0,
        ;
    } else {
        let m = 0x80_0000 + single_frac(back);
        let e = single_exp(back);
        let p = pow2((e - 102) as nat);
        let q = pow2(101);
        lemma_pow2_adds((e - 102) as nat, 101);
        lemma_pow2_adds(24, 101);
        lemma2_to64();
        assert(m * (p * q) == u * (0x100_0000 * q)) by (nonlinear_arith)
            requires
                m * p == u * 0x100_0000,
        ;
    }
}

/// What is stored of a number from -1 to 1 differs from it by 2^-12 at most.
proof fn lemma_rounded(b: nat)
    requires
        b <= u32::MAX,
        b % 0x8000_0000 <= 0x3f80_0000,
    ensures
        half_sign(stored_half(b)) == single_sign(b),
        half_exp(stored_half(b)) < 31,
        half_units(stored_half(b)) * pow2(125) - magnitude(b) <= pow2(137),
        magnitude(b) - half_units(stored_half(b)) * pow2(125) <= pow2(137),
{
    let e = single_exp(b);
    let f = single_frac(b);
    let h = stored_half(b);
    let s = single_sign(b);
    let u = half_units(h);
    let m = (0x80_0000 + f) as nat;
    lemma2_to64();
    lemma_pow2_adds(12, 125);
    lemma_pow2_pos(125);
    let top = pow2(125);
    assert(pow2(137) == 0x1000 * top);
    assert(e <= 127);
    assert(e == 127 ==> f == 0);
    if e < 102 {
        assert(u == 0);
        assert(u * top == 0) by (nonlinear_arith)
            requires
                u == 0,
        ;
        if e > 0 {
            let p = pow2((e - 1) as nat);
            if e - 1 < 125 {
                lemma_pow2_strictly_increases((e - 1) as nat, 101);
            }
            lemma_pow2_adds(24, 101);
            let w = pow2(101);
            assert(m * p <= 0x100_0000 * w) by (nonlinear_arith)
                requires
                    m <= 0x100_0000,
                    p <= w,
            ;
        } else {
            lemma_pow2_strictly_increases(24, 125);
        }
    } else if e <= 112 {
        let k = (113 - e) as nat;
        let d = pow2(k);
        let p = pow2((e - 1) as nat);
        let q = m / d;
        let r = ((q + 0x1000) / 0x2000) as nat;
        lemma_pow2_pos(k);
        lemma_pow2_pos((e - 1) as nat);
        lemma_pow2_adds(k, (e - 1) as nat);
        lemma_pow2_adds(13, 112);
        let w = pow2(112);
        assert(d * p == w && top == 0x2000 * w);
        assert(d >= 2) by {
            lemma_pow2_unfold(k);
            lemma_pow2_pos((k - 1) as nat);
        }
        vstd::arithmetic::div_mod::lemma_fundamental_div_mod(m as int, d as int);
        assert(q < 0x80_0000) by (nonlinear_arith)
            requires
                d * q <= m < 0x100_0000,
                d >= 2,
                q >= 0,
        ;
        assert(h == s * 0x8000 + r);
        assert(r <= 0x400);
        if r < 0x400 {
            assert(half_exp(h) == 0 && half_frac(h) == r);
        } else {
            assert(half_exp(h) == 1 && half_frac(h) == 0);
            assert(0x400 * pow2(0) == 0x400);
        }
        assert(u == r);
        let rest = m % d;
        assert(rest < d);
        // m = d q + rest and |0x2000 r - q| <= 0x1000.
        assert(0x2000 * r - q <= 0x1000 && q - 0x2000 * r <= 0x1000);
        assert(m * p == q * w + rest * p) by (nonlinear_arith)
            requires
                m == d * q + rest,
                d * p == w,
        ;
        assert(rest * p <= w) by (nonlinear_arith)
            requires
                rest <= d,
                d * p == w,
                p >= 0,
        ;
        assert(rest * p >= 0) by (nonlinear_arith)
            requires
                rest >= 0,
                p >= 0,
        ;
        assert(u * top == (0x2000 * r) * w) by (nonlinear_arith)
            requires
                u == r,
                top == 0x2000 * w,
        ;
        assert((0x2000 * r) * w - q * w <= 0x1000 * w) by (nonlinear_arith)
            requires
                0x2000 * r - q <= 0x1000,
                w >= 0,
        ;
        assert(q * w - (0x2000 * r) * w <= 0x1000 * w) by (nonlinear_arith)
            requires
                q - 0x2000 * r <= 0x1000,
                w >= 0,
        ;
    } else {
        let exp = (e - 112) as nat;
        let r = ((f + 0x1000) / 0x2000) as nat;
        let p = pow2((exp - 1) as nat);
        let q = pow2((e - 1) as nat);
        lemma_pow2_adds((exp - 1) as nat, 125);
        lemma_pow2_adds(13, (e - 1) as nat);
        lemma_pow2_pos((e - 1) as nat);
        assert(p * top == 0x2000 * q);
        assert(h == s * 0x8000 + exp * 0x400 + r);
        assert(r <= 0x400);
        if r < 0x400 {
            assert(half_exp(h) == exp && half_frac(h) == r);
        } else {
            assert(half_exp(h) == exp + 1 && half_frac(h) == 0);
            lemma_pow2_unfold(exp);
            let q2 = pow2(exp);
            assert(half_frac(h) + 0x400 == 0x400);
            assert(u == 0x400 * q2);
            assert(0x400 * q2 == (0x400 + r) * p) by (nonlinear_arith)
                requires
                    q2 == 2 * p,
                    r == 0x400,
            ;
        }
        assert(u == (0x400 + r) * p);
        assert(u * top == ((0x400 + r) * 0x2000) * q) by (nonlinear_arith)
            requires
                u == (0x400 + r) * p,
                p * top == 0x2000 * q,
        ;
        let v = ((0x400 + r) * 0x2000) as nat;
        assert(v - m <= 0x1000 && m - v <= 0x1000);
        assert(e == 127 ==> v == m);
        assert(v * q - m * q <= 0x1000 * q && m * q - v * q <= 0x1000 * q) by (nonlinear_arith)
            requires
                v - m <= 0x1000,
                m - v <= 0x1000,
                q >= 0,
        ;
        if e < 126 {
            lemma_pow2_strictly_increases((e - 1) as nat, 125);
        }
    }
}

/// A 24-bit mantissa and its exponent are determined by their product.
proof fn lemma_mantissa_unique(x: nat, a: nat, y: nat, b: nat)
    requires
        0x80_0000 <= x < 0x100_0000,
        0x80_0000 <= y < 0x100_0000,
        x * pow2(a) == y * pow2(b),
    ensures
        x == y,
        a == b,
{
    if a < b {
        lemma_mantissa_shift(y, b, x, a);
    } else if b < a {
        lemma_mantissa_shift(x, a, y, b);
    } else {
        lemma_pow2_pos(a);
        let p = pow2(a);
        assert(x == y) by (nonlinear_arith)
            requires
                x * p == y * p,
                p > 0,
        ;
    }
}

proof fn lemma_mantissa_shift(x: nat, a: nat, y: nat, b: nat)
    requires
        0x80_0000 <= x,
        y < 0x100_0000,
        b < a,
    ensures
        x * pow2(a) > y * pow2(b),
{
    lemma_pow2_adds(b, (a - b) as nat);
    lemma_pow2_unfold((a - b) as nat);
    lemma_pow2_pos((a - b - 1) as nat);
    lemma_pow2_pos(b);
    let p = pow2(b);
    let r = pow2((a - b) as nat);
    assert(x * (p * r) > y * p) by (nonlinear_arith)
        requires
            x >= 0x80_0000,
            y < 0x100_0000,
            r >= 2,
            p > 0,
    ;
}

// ---------------------------------------------------------------------------
// The order of singles
// ---------------------------------------------------------------------------

/// The number `a` is less than the number `b`: singles are sign and
/// magnitude, and the zeros are equal.
pub open spec fn single_less(a: nat, b: nat) -> bool {
    let x = a % 0x8000_0000;
    let y = b % 0x8000_0000;
    if single_sign(a) == 0 {
        single_sign(b) == 0 && x < y
    } else if single_sign(b) == 0 {
        x > 0 || y > 0
    } else {
        x > y
    }
}

/// The key of a single: bit patterns in numeric order, the zeros together.
pub open spec fn key_of(b: nat) -> nat {
    if single_sign(b) == 0 {
        b + 0x8000_0000
    } else {
        (0x1_0000_0000 - b % 0x8000_0000 - 0x8000_0000) as nat
    }
}

/// An integer that orders as the single with bits `b` does.
pub fn order_key(b: u32) -> (k: u32)
    ensures
        k == key_of(b as nat),
{
    if b < 0x8000_0000 {
        b + 0x8000_0000
    } else {
        0x8000_0000 - (b - 0x8000_0000)
    }
}

/// Keys order as the numbers do.
pub proof fn law_keys_order_numbers(a: u32, b: u32)
    ensures
        key_of(a as nat) < key_of(b as nat) <==> single_less(a as nat, b as nat),
{
}

// ---------------------------------------------------------------------------
// The sidecar file
// ---------------------------------------------------------------------------

/// The bytes `HPSEMB01` as a number.
pub const MAGIC: u64 = 0x3130_424d_4553_5048;

pub const VERSION: u32 = 1;

pub const HEADER_LEN: usize = 32;

pub const DTYPE_F32: u32 = 0;

pub const DTYPE_F16: u32 = 1;

/// The size of the vectors that the code model gives.
pub const CODERANK_DIM: usize = 768;

/// Why bytes are not a vector file, or vectors cannot become one.
#[derive(Clone, Copy, PartialEq, Eq, Debug, Structural)]
pub enum EmbeddingsError {
    NotASidecar,
    UnsupportedVersion(u32),
    UnknownDtype(u32),
    Truncated,
    DimMismatch,
}

/// Bytes per coordinate.
pub open spec fn width_of(dtype: nat) -> nat {
    if dtype == DTYPE_F16 {
        2
    } else {
        4
    }
}

/// What a file says of itself: the number of documents, the dimension and
/// the coordinate type.
pub open spec fn header_of(b: Seq<u8>) -> Result<(u32, u32, u32), EmbeddingsError> {
    let version = codec::le_at(b, 8, 4);
    let num_docs = codec::le_at(b, 12, 4);
    let dim = codec::le_at(b, 16, 4);
    let dtype = codec::le_at(b, 20, 4);
    if b.len() < HEADER_LEN || codec::le_at(b, 0, 8) != MAGIC {
        Err(EmbeddingsError::NotASidecar)
    } else if version != VERSION {
        Err(EmbeddingsError::UnsupportedVersion(version as u32))
    } else if dtype != DTYPE_F16 && dtype != DTYPE_F32 {
        Err(EmbeddingsError::UnknownDtype(dtype as u32))
    } else if b.len() < HEADER_LEN + num_docs * dim * width_of(dtype) {
        Err(EmbeddingsError::Truncated)
    } else {
        Ok((num_docs as u32, dim as u32, dtype as u32))
    }
}

/// The document vectors of an index, one row per document.
pub struct EmbeddingStore {
    pub bytes: Vec<u8>,
    pub num_docs: u32,
    pub dim: u32,
    pub dtype: u32,
}

impl EmbeddingStore {
    /// The header agrees with the bytes.
    pub open spec fn wf(&self) -> bool {
        header_of(self.bytes@) == Ok::<(u32, u32, u32), EmbeddingsError>(
            (self.num_docs, self.dim, self.dtype),
        )
    }

    /// Where the row of `doc_id` begins.
    pub open spec fn row_at(&self, doc_id: int) -> int {
        HEADER_LEN + doc_id * self.dim * width_of(self.dtype as nat)
    }

    /// The stored coordinates of `doc_id`.
    pub open spec fn row(&self, doc_id: int) -> Seq<nat> {
        table::entries(
            self.bytes@,
            self.row_at(doc_id),
            self.dim as int,
            width_of(self.dtype as nat) as int,
        )
    }

    /// A vector file.
    pub fn open(bytes: Vec<u8>) -> (r: Result<EmbeddingStore, EmbeddingsError>)
        ensures
            match r {
                Ok(s) => s.wf() && s.bytes@ == bytes@,
                Err(e) => header_of(bytes@) == Err::<(u32, u32, u32), EmbeddingsError>(e),
            },
    {
        let size: usize = bytes.len();
        if size < HEADER_LEN || codec::read_le(bytes.as_slice(), 0, 8) != MAGIC {
            return Err(EmbeddingsError::NotASidecar);
        }
        let version: u32 = table::field(bytes.as_slice(), 0);
        if version != VERSION {
            return Err(EmbeddingsError::UnsupportedVersion(version));
        }
        let num_docs: u32 = table::field(bytes.as_slice(), 1);
        let dim: u32 = table::field(bytes.as_slice(), 2);
        let dtype: u32 = table::field(bytes.as_slice(), 3);
        if dtype != DTYPE_F16 && dtype != DTYPE_F32 {
            return Err(EmbeddingsError::UnknownDtype(dtype));
        }
        let width: u128 = if dtype == DTYPE_F16 { 2 } else { 4 };
        proof {
            assert(num_docs * dim <= 0x1_0000_0000 * 0x1_0000_0000) by (nonlinear_arith)
                requires
                    num_docs < 0x1_0000_0000,
                    dim < 0x1_0000_0000,
            ;
            let product = num_docs * dim;
            assert(product * width <= product * 4) by (nonlinear_arith)
                requires
                    width <= 4,
                    product >= 0,
            ;
            assert(0 <= num_docs * dim) by (nonlinear_arith)
                requires
                    num_docs >= 0,
                    dim >= 0,
            ;
        }
        let cells: u128 = num_docs as u128 * dim as u128;
        let expected: u128 = HEADER_LEN as u128 + cells * width;
        if (size as u128) < expected {
            return Err(EmbeddingsError::Truncated);
        }
        Ok(EmbeddingStore { bytes, num_docs, dim, dtype })
    }

    pub fn num_docs(&self) -> (n: u32)
        ensures
            n == self.num_docs,
    {
        self.num_docs
    }

    pub fn dim(&self) -> (n: u32)
        ensures
            n == self.dim,
    {
        self.dim
    }

    pub fn dtype_f16(&self) -> (r: bool)
        ensures
            r == (self.dtype == DTYPE_F16),
    {
        self.dtype == DTYPE_F16
    }

    pub fn size_bytes(&self) -> (n: u64)
        ensures
            n == self.bytes@.len(),
    {
        self.bytes.len() as u64
    }

    proof fn lemma_row_in_file(&self, doc_id: u32)
        requires
            self.wf(),
            doc_id < self.num_docs,
        ensures
            0 <= doc_id * self.dim,
            HEADER_LEN <= self.row_at(doc_id as int),
            self.row_at(doc_id as int) + self.dim * width_of(self.dtype as nat)
                <= self.bytes@.len(),
    {
        let w = width_of(self.dtype as nat) as int;
        let n = self.num_docs as int;
        let d = self.dim as int;
        let i = doc_id as int;
        let b = self.bytes@;
        codec::lemma_le_nat_bound(b.subrange(12, 16));
        codec::lemma_le_nat_bound(b.subrange(16, 20));
        lemma2_to64();
        assert(i * d * w + d * w <= n * d * w) by (nonlinear_arith)
            requires
                0 <= i < n,
                d >= 0,
                w >= 0,
        ;
        assert(i * d * w >= 0 && i * d >= 0) by (nonlinear_arith)
            requires
                0 <= i,
                d >= 0,
                w >= 0,
        ;
    }

    /// Copy the vector of `doc_id` to the front of `out`, as singles. Nothing
    /// happens if there is no such document, or no room.
    pub fn copy_f32(&self, doc_id: u32, out: &mut Vec<u32>)
        requires
            self.wf(),
        ensures
            doc_id >= self.num_docs || old(out)@.len() < self.dim ==> final(out)@ == old(out)@,
            doc_id < self.num_docs && self.dim <= old(out)@.len() ==> {
                &&& final(out)@.len() == old(out)@.len()
                &&& forall|i: int|
                    0 <= i < self.dim ==> {
                        let stored = self.row(doc_id as int)[i];
                        if self.dtype == DTYPE_F16 {
                            widens(stored, (#[trigger] final(out)@[i]) as nat)
                        } else {
                            final(out)@[i] == stored
                        }
                    }
                &&& forall|i: int|
                    self.dim <= i < old(out)@.len() ==> final(out)@[i] == #[trigger] old(out)@[i]
            },
    {
        let room: usize = out.len();
        if doc_id >= self.num_docs || (room as u64) < self.dim as u64 {
            return;
        }
        let dim: usize = self.dim as usize;
        let total: usize = self.bytes.len();
        let half: bool = self.dtype == DTYPE_F16;
        let width: usize = if half { 2 } else { 4 };
        proof {
            self.lemma_row_in_file(doc_id);
            let i = doc_id * self.dim;
            let w = width as int;
            assert(i <= i * w) by (nonlinear_arith)
                requires
                    i >= 0,
                    w >= 1,
            ;
            assert(dim <= dim * width) by (nonlinear_arith)
                requires
                    width >= 1,
                    dim >= 0,
            ;
        }
        let start: usize = HEADER_LEN + doc_id as usize * dim * width;
        let ghost before = out@;
        let mut i: usize = 0;
        while i < dim
            invariant
                self.wf(),
                doc_id < self.num_docs,
                dim == self.dim,
                i <= dim <= before.len(),
                total == self.bytes@.len(),
                half == (self.dtype == DTYPE_F16),
                width == width_of(self.dtype as nat),
                width == if half { 2int } else { 4int },
                start == self.row_at(doc_id as int),
                start + dim * width <= total,
                out@.len() == before.len(),
                forall|j: int|
                    0 <= j < i ==> {
                        let stored = self.row(doc_id as int)[j];
                        if half {
                            widens(stored, (#[trigger] out@[j]) as nat)
                        } else {
                            out@[j] == stored
                        }
                    },
                forall|j: int| i <= j < before.len() ==> out@[j] == #[trigger] before[j],
            decreases dim - i,
        {
            proof {
                assert(i * width + width <= dim * width) by (nonlinear_arith)
                    requires
                        i + 1 <= dim,
                        width >= 0,
                ;
                assert(0 <= i * width) by (nonlinear_arith)
                    requires
                        i >= 0,
                        width >= 0,
                ;
                lemma2_to64();
            }
            let raw: u64 = codec::read_le(self.bytes.as_slice(), start + i * width, width);
            let ghost stored = self.row(doc_id as int)[i as int];
            assert(raw == stored);
            let single: u32 = if half { f16_to_f32(raw as u16) } else { raw as u32 };
            out.set(i, single);
            i += 1;
        }
    }
}

/// The vectors, row after row, as stored.
pub open spec fn stored_rows(vectors: Seq<Seq<u32>>) -> Seq<nat>
    decreases vectors.len(),
{
    if vectors.len() == 0 {
        Seq::empty()
    } else {
        stored_rows(vectors.drop_last()) + stored_row(vectors.last())
    }
}

/// One vector as stored.
pub open spec fn stored_row(v: Seq<u32>) -> Seq<nat> {
    v.map_values(|b: u32| stored_half(b as nat))
}

/// The vector in half precision.
pub fn to_halves(v: &[u32]) -> (lanes: Vec<u16>)
    ensures
        table::nats_u16(lanes@) == stored_row(v@),
        lanes@.len() == v@.len(),
{
    let mut lanes: Vec<u16> = Vec::new();
    let mut i: usize = 0;
    while i < v.len()
        invariant
            i <= v@.len(),
            lanes@.len() == i,
            forall|k: int|
                0 <= k < i ==> #[trigger] lanes@[k] == stored_half(v@[k] as nat),
        decreases v@.len() - i,
    {
        lanes.push(f32_to_f16(v[i]));
        i += 1;
    }
    assert(table::nats_u16(lanes@) =~= stored_row(v@));
    lanes
}

/// The rows of a list of vectors.
pub open spec fn rows_of(vectors: Seq<Vec<u32>>) -> Seq<Seq<u32>> {
    vectors.map_values(|v: Vec<u32>| v@)
}

/// The file that holds `vectors` in half precision.
pub open spec fn sidecar(dim: u32, vectors: Seq<Seq<u32>>) -> Seq<u8> {
    table::framed(
        MAGIC as nat,
        seq![VERSION as nat, vectors.len(), dim as nat, DTYPE_F16 as nat, 0nat, 0nat],
        table::table(stored_rows(vectors), 2),
    )
}

/// Every vector has the stated dimension.
pub open spec fn same_dim(dim: u32, vectors: Seq<Seq<u32>>) -> bool {
    forall|i: int| 0 <= i < vectors.len() ==> (#[trigger] vectors[i]).len() == dim
}

/// The file that holds `vectors`, one per document, in half precision.
pub fn write_f16(dim: u32, vectors: &Vec<Vec<u32>>) -> (r: Result<Vec<u8>, EmbeddingsError>)
    requires
        vectors@.len() <= u32::MAX,
    ensures
        match r {
            Ok(b) => same_dim(dim, rows_of(vectors@)) && b@ == sidecar(dim, rows_of(vectors@)),
            Err(e) => e == EmbeddingsError::DimMismatch && !same_dim(dim, rows_of(vectors@)),
        },
{
    let n: usize = vectors.len();
    let ghost rows = rows_of(vectors@);
    let mut i: usize = 0;
    while i < n
        invariant
            i <= n == vectors@.len(),
            rows == rows_of(vectors@),
            forall|j: int| 0 <= j < i ==> (#[trigger] rows[j]).len() == dim,
        decreases n - i,
    {
        let len: usize = vectors[i].len();
        assert(rows[i as int] == vectors@[i as int]@);
        if len as u64 != dim as u64 {
            return Err(EmbeddingsError::DimMismatch);
        }
        i += 1;
    }
    let fields: [u32; 6] = [VERSION, n as u32, dim, DTYPE_F16, 0, 0];
    let mut out: Vec<u8> = table::new_frame(MAGIC, fields.as_slice());
    let ghost head = out@;
    let mut d: usize = 0;
    assert(out@ =~= head + table::table(stored_rows(rows.take(0)), 2));
    while d < n
        invariant
            d <= n == vectors@.len(),
            rows == rows_of(vectors@),
            out@ == head + table::table(stored_rows(rows.take(d as int)), 2),
        decreases n - d,
    {
        let len: usize = vectors[d].len();
        let mut lanes: Vec<u16> = Vec::new();
        let mut j: usize = 0;
        while j < len
            invariant
                d < n == vectors@.len(),
                j <= len == vectors@[d as int]@.len(),
                lanes@.len() == j,
                forall|k: int|
                    0 <= k < j ==> #[trigger] lanes@[k] == stored_half(
                        vectors@[d as int]@[k] as nat,
                    ),
            decreases len - j,
        {
            lanes.push(f32_to_f16(vectors[d][j]));
            j += 1;
        }
        table::push_u16(&mut out, lanes.as_slice());
        proof {
            let done = rows.take(d as int);
            let more = rows.take(d + 1);
            assert(more.drop_last() =~= done);
            assert(table::nats_u16(lanes@) =~= stored_row(rows[d as int]));
            table::lemma_table_concat(stored_rows(done), stored_row(rows[d as int]), 2);
            assert(out@ =~= head + table::table(stored_rows(more), 2));
        }
        d += 1;
    }
    proof {
        assert(rows.take(n as int) =~= rows);
        assert(table::nats_u32(fields@) =~= seq![
            VERSION as nat,
            n as nat,
            dim as nat,
            DTYPE_F16 as nat,
            0nat,
            0nat,
        ]);
        assert(out@ =~= sidecar(dim, rows));
    }
    Ok(out)
}

proof fn lemma_stored_rows(dim: u32, vectors: Seq<Seq<u32>>)
    requires
        same_dim(dim, vectors),
    ensures
        stored_rows(vectors).len() == vectors.len() * dim,
        table::fits(stored_rows(vectors), 2),
    decreases vectors.len(),
{
    let all = stored_rows(vectors);
    let m = dim as int;
    if vectors.len() == 0 {
        assert(0 * m == 0) by (nonlinear_arith);
    } else {
        let front = vectors.drop_last();
        let rest = stored_rows(front);
        assert(same_dim(dim, front));
        lemma_stored_rows(dim, front);
        let k = vectors.len() as int;
        assert((k - 1) * m + m == k * m) by (nonlinear_arith);
        assert(vectors.last().len() == dim);
        assert forall|j: int| 0 <= j < all.len() implies (#[trigger] all[j]) < pow2(16) by {
            if j < rest.len() {
                assert(rest[j] < pow2(16));
            } else {
                lemma_half_bound(vectors.last()[j - rest.len()]);
                lemma2_to64();
            }
        }
    }
}

proof fn lemma_stored_cell(dim: u32, vectors: Seq<Seq<u32>>, d: int, i: int)
    requires
        same_dim(dim, vectors),
        0 <= d < vectors.len(),
        0 <= i < dim,
    ensures
        0 <= d * dim + i < stored_rows(vectors).len(),
        stored_rows(vectors)[d * dim + i] == stored_half(vectors[d][i] as nat),
    decreases vectors.len(),
{
    let front = vectors.drop_last();
    let rest = stored_rows(front);
    let m = dim as int;
    assert(same_dim(dim, front));
    lemma_stored_rows(dim, front);
    assert(vectors.last().len() == dim);
    assert(d * m >= 0) by (nonlinear_arith)
        requires
            d >= 0,
            m >= 0,
    ;
    if d < front.len() {
        lemma_stored_cell(dim, front, d, i);
        assert(front[d] == vectors[d]);
    } else {
        assert(stored_rows(vectors)[rest.len() + i] == stored_row(vectors.last())[i]);
    }
}

pub proof fn lemma_half_bound(b: u32)
    ensures
        stored_half(b as nat) <= u16::MAX,
{
    let e = rebased(single_exp(b as nat));
    if -10 <= e <= 0 {
        let k = (1 - e) as nat;
        lemma_pow2_pos(k);
        lemma_pow2_unfold(k);
        lemma_pow2_pos((k - 1) as nat);
        let x = single_frac(b as nat) + 0x80_0000;
        let p = pow2(k);
        assert(x / p <= x / 2) by (nonlinear_arith)
            requires
                p >= 2,
                x >= 0,
        ;
    }
}

/// What was written is what is read: the file opens, and each coordinate is
/// the one given, in half precision.
pub proof fn law_written_vectors_read_back(dim: u32, vectors: Seq<Seq<u32>>, s: EmbeddingStore)
    requires
        vectors.len() <= u32::MAX,
        same_dim(dim, vectors),
        s.bytes@ == sidecar(dim, vectors),
    ensures
        header_of(s.bytes@) == Ok::<(u32, u32, u32), EmbeddingsError>(
            (vectors.len() as u32, dim, DTYPE_F16),
        ),
        s.wf() ==> forall|d: int|
            0 <= d < vectors.len() ==> #[trigger] s.row(d) == stored_row(vectors[d]),
{
    let b = s.bytes@;
    let fields = seq![VERSION as nat, vectors.len(), dim as nat, DTYPE_F16 as nat, 0nat, 0nat];
    let body = stored_rows(vectors);
    lemma2_to64();
    lemma2_to64_rest();
    table::lemma_framed(MAGIC as nat, fields, table::table(body, 2));
    lemma_stored_rows(dim, vectors);
    table::lemma_table_len(body, 2);
    assert(fields[0] == VERSION && fields[1] == vectors.len() && fields[2] == dim && fields[3]
        == DTYPE_F16);
    assert(codec::le_at(b, 12, 4) == fields[1]);
    assert(codec::le_at(b, 16, 4) == fields[2]);
    assert(codec::le_at(b, 20, 4) == fields[3]);
    if s.wf() {
        let head = b.take(32);
        assert(head + table::table(body, 2) + Seq::<u8>::empty() =~= b);
        assert forall|d: int| 0 <= d < vectors.len() implies #[trigger] s.row(d) == stored_row(
            vectors[d],
        ) by {
            assert(vectors[d].len() == dim);
            assert forall|i: int| 0 <= i < dim implies s.row(d)[i] == stored_row(vectors[d])[i] by {
                lemma_stored_cell(dim, vectors, d, i);
                let at = d * dim + i;
                table::lemma_table_entry(head, body, 2, Seq::empty(), at);
                assert(d * dim * 2 + i * 2 == at * 2);
            }
            assert(s.row(d) =~= stored_row(vectors[d]));
        }
    }
}

} // verus!

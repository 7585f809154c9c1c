//! Half-precision numbers, given by their bit patterns.

use crate::binary32::{
    exponent_field, fraction_field, is_finite, is_infinite, is_nan, is_negative, number, units,
};
use vstd::arithmetic::power2::{lemma2_to64, lemma_pow2_adds, pow2};
use vstd::prelude::*;

verus! {

/// The exponent field of a bit pattern.
pub open spec fn half_exponent(b: u16) -> int {
    (b as int / 0x400) % 0x20
}

/// The fraction field of a bit pattern.
pub open spec fn half_fraction(b: u16) -> int {
    b as int % 0x400
}

/// The magnitude of a number in units of `2^-24`.
pub open spec fn half_units(b: u16) -> int {
    if half_exponent(b) == 0 {
        half_fraction(b)
    } else {
        (0x400 + half_fraction(b)) * pow2((half_exponent(b) - 1) as nat)
    }
}

/// Whether the single-precision bit pattern `r` stands for what the half-precision bit
/// pattern `b` stands for: the same number, the same infinity, or no number. What is
/// no number keeps its fraction, with the first bit set.
pub open spec fn is_widened(b: u16, r: u32) -> bool {
    if half_exponent(b) == 0x1f {
        &&& is_negative(r) == (b >= 0x8000)
        &&& exponent_field(r) == 0xff
        &&& fraction_field(r) == (if half_fraction(b) == 0 || half_fraction(b) >= 0x200 {
            half_fraction(b) * 0x2000
        } else {
            half_fraction(b) * 0x2000 + 0x40_0000
        })
    } else {
        &&& is_finite(r)
        &&& is_negative(r) == (b >= 0x8000)
        &&& units(r) == half_units(b) * pow2(125)
    }
}

/// The fields of a single-precision bit pattern.
fn pack(negative: bool, exponent: u32, fraction: u32) -> (r: u32)
    requires
        exponent <= 0xff,
        fraction < 0x80_0000,
    ensures
        is_negative(r) == negative,
        exponent_field(r) == exponent,
        fraction_field(r) == fraction,
{
    let sign: u32 = if negative {
        0x8000_0000
    } else {
        0
    };
    sign + exponent * 0x80_0000 + fraction
}

/// The place of the first bit of a number below 1024, and its power of two.
fn first_bit(v: u32) -> (r: (u32, u32))
    requires
        0 < v < 0x400,
    ensures
        r.0 <= 9,
        r.1 == pow2(r.0 as nat),
        r.1 <= v < 2 * r.1,
{
    let mut k: u32 = 0;
    let mut p: u32 = 1;
    proof {
        lemma2_to64();
    }
    while 2 * p <= v
        invariant
            k <= 9,
            p == pow2(k as nat),
            p <= v,
            0 < v < 0x400,
        decreases v - p,
    {
        proof {
            lemma_pow2_adds(k as nat, 1);
            lemma2_to64();
            if k == 9 {
                assert(p == 0x200);
            }
        }
        k = k + 1;
        p = 2 * p;
    }
    (k, p)
}

/// The single-precision bit pattern of a half-precision one.
pub fn widen(b: u16) -> (r: u32)
    ensures
        is_widened(b, r),
{
    let negative: bool = b >= 0x8000;
    let exponent: u32 = (b as u32 / 0x400) % 0x20;
    let fraction: u32 = b as u32 % 0x400;
    if exponent == 0x1f {
        if fraction == 0 || fraction >= 0x200 {
            pack(negative, 0xff, fraction * 0x2000)
        } else {
            pack(negative, 0xff, fraction * 0x2000 + 0x40_0000)
        }
    } else if exponent > 0 {
        let r: u32 = pack(negative, exponent + 112, fraction * 0x2000);
        proof {
            let e = exponent as nat;
            lemma2_to64();
            lemma_pow2_adds((e - 1) as nat, 112);
            lemma_pow2_adds(13, 112);
            let p = pow2((e - 1) as nat) as int;
            let q = pow2(112) as int;
            let f = fraction as int;
            assert(pow2((e + 111) as nat) == p * q);
            assert(pow2(125) == 0x2000 * q);
            assert((0x80_0000 + f * 0x2000) * (p * q) == ((0x400 + f) * p) * (0x2000 * q))
                by (nonlinear_arith);
        }
        r
    } else if fraction == 0 {
        let r: u32 = pack(negative, 0, 0);
        assert(0 * pow2(125) == 0);
        r
    } else {
        let (k, p) = first_bit(fraction);
        let scale: u32 = shift_of(k);
        proof {
            assert((fraction - p) * scale < p * scale) by (nonlinear_arith)
                requires
                    fraction < 2 * p,
                    scale > 0,
            ;
            assert((fraction - p) * scale >= 0) by (nonlinear_arith)
                requires
                    fraction >= p,
                    scale > 0,
            ;
        }
        let r: u32 = pack(negative, k + 103, (fraction - p) * scale);
        proof {
            let q = pow2((k + 102) as nat) as int;
            lemma_pow2_adds((23 - k) as nat, (k + 102) as nat);
            let f = fraction as int;
            let pi = p as int;
            let si = scale as int;
            assert(si * q == pow2(125));
            assert((0x80_0000 + (f - pi) * si) * q == f * (si * q)) by (nonlinear_arith)
                requires
                    pi * si == 0x80_0000,
            ;
        }
        r
    }
}

/// The power of two that brings `2^k` to `2^23`.
fn shift_of(k: u32) -> (r: u32)
    requires
        k <= 9,
    ensures
        r == pow2((23 - k) as nat),
        pow2(k as nat) * r == 0x80_0000,
        r > 0,
{
    let mut s: u32 = 0x80_0000;
    let mut i: u32 = 0;
    proof {
        lemma2_to64();
    }
    while i < k
        invariant
            i <= k <= 9,
            s == pow2((23 - i) as nat),
            s > 0,
        decreases k - i,
    {
        proof {
            lemma_pow2_adds((22 - i) as nat, 1);
            lemma2_to64();
            vstd::arithmetic::power2::lemma_pow2_pos((22 - i) as nat);
        }
        s = s / 2;
        i = i + 1;
    }
    proof {
        lemma_pow2_adds(k as nat, (23 - k) as nat);
        lemma2_to64();
    }
    s
}

/// A half-precision number keeps its value: its sign, and its magnitude in units of
/// `2^-24`, which are `2^125` units of single precision; an infinity stays one, and what is
/// no number stays none.
pub proof fn lemma_widened_keeps_value(b: u16, r: u32)
    requires
        is_widened(b, r),
    ensures
        ({
            let (field, fraction) = ((b as int % 0x8000) / 0x400, b as int % 0x400);
            let n = if b < 0x8000 {
                number(r).n
            } else {
                -number(r).n
            };
            &&& field == 0 ==> is_finite(r) && n == fraction * pow2(125)
            &&& 0 < field < 31 ==> is_finite(r) && n == (0x400 + fraction) * pow2(
                (field - 1) as nat,
            ) * pow2(125)
            &&& field == 31 ==> is_infinite(r) == (fraction == 0) && is_nan(r) == (fraction != 0)
            &&& is_negative(r) == (b >= 0x8000)
        }),
{
    assert((b as int % 0x8000) / 0x400 == half_exponent(b));
}

} // verus!

//! Single-precision numbers, given by their bit patterns.
//!
//! Scores and the duration of a timestamp step arrive as single-precision
//! numbers. What the aligner does with them is an order, a difference and a
//! product; these are computed here on bit patterns and stated over exact
//! fractions.

use crate::binary64::{is_end, is_exact, lemma_small_is_exact};
use crate::rounding::{
    Ratio, Rounded, at_most, dyadic, from_integer, in_binade, lemma_at_most_same,
    lemma_binade_exists, lemma_dyadic_positive, lemma_dyadic_scaled, lemma_dyadic_zero,
    lemma_nearest_is, lemma_nonnegative_product, lemma_order_of_rounded, lemma_positive_product,
    lemma_rounded_equal, lemma_rounded_exact, lemma_rounded_is, lemma_rounded_monotone,
    lemma_rounded_near, lemma_rounded_positive, lemma_rounded_whole, lemma_same_product,
    lemma_same_total, lemma_same_transitive, lemma_scaled_positive, lemma_signed_rounded_equal,
    lemma_signed_rounded_positive, lemma_signed_units, lemma_sum_units, lemma_truncated_whole,
    magnitude, multiply, nearest_int, product, round_sum, round_units, rounded,
    rounded_up_from_zero, same, saturated, scaled, signed, total, truncate_to_i64, truncated, whole,
};
use vstd::arithmetic::power2::{
    lemma2_to64, lemma2_to64_rest, lemma_pow2_adds, lemma_pow2_pos, lemma_pow2_strictly_increases,
    lemma_pow2_unfold, pow2,
};
use vstd::prelude::*;

verus! {

/// The exponent field of a bit pattern.
pub open spec fn exponent_field(b: u32) -> int {
    (b as int / 0x80_0000) % 0x100
}

/// The fraction field of a bit pattern.
pub open spec fn fraction_field(b: u32) -> int {
    b as int % 0x80_0000
}

pub open spec fn is_negative(b: u32) -> bool {
    b >= 0x8000_0000
}

pub open spec fn is_nan(b: u32) -> bool {
    exponent_field(b) == 0xff && fraction_field(b) != 0
}

pub open spec fn is_infinite(b: u32) -> bool {
    exponent_field(b) == 0xff && fraction_field(b) == 0
}

pub open spec fn is_finite(b: u32) -> bool {
    exponent_field(b) != 0xff
}

/// The magnitude of a number in units of `2^-149`.
pub open spec fn units(b: u32) -> int {
    let field = exponent_field(b);
    if field == 0 {
        fraction_field(b)
    } else {
        (0x80_0000 + fraction_field(b)) * pow2((field - 1) as nat)
    }
}

/// The number with the bit pattern `b`.
pub open spec fn number(b: u32) -> Ratio {
    signed(is_negative(b), Ratio { n: units(b), d: pow2(149) as int })
}

/// `a > b` for single-precision numbers.
pub open spec fn exceeds(a: u32, b: u32) -> bool {
    if is_nan(a) || is_nan(b) {
        false
    } else if is_infinite(a) || is_infinite(b) {
        // Above minus infinity, below plus infinity.
        a != b && ((is_infinite(a) && !is_negative(a)) || (is_infinite(b) && is_negative(b)))
    } else {
        !at_most(number(a), number(b))
    }
}

/// A number that orders bit patterns as the numbers they stand for.
spec fn order_key(b: u32) -> int {
    if is_negative(b) {
        -(b - 0x8000_0000)
    } else {
        b as int
    }
}

/// The magnitudes of larger bit patterns are larger.
proof fn lemma_units_ordered(a: u32, b: u32)
    requires
        a < b < 0x8000_0000,
        is_finite(b),
    ensures
        units(a) < units(b),
        is_finite(a),
{
    let (fa, fb) = (exponent_field(a), exponent_field(b));
    let (ma, mb) = (fraction_field(a), fraction_field(b));
    assert(fa <= fb && fb < 0xff);
    if fb > 0 {
        lemma_pow2_pos((fb - 1) as nat);
        let pb = pow2((fb - 1) as nat) as int;
        assert((0x80_0000 + mb) * pb >= 0x80_0000) by (nonlinear_arith)
            requires
                mb >= 0,
                pb >= 1,
        ;
        if fa == fb {
            assert((0x80_0000 + ma) * pb < (0x80_0000 + mb) * pb) by (nonlinear_arith)
                requires
                    ma < mb,
                    pb > 0,
            ;
        } else if fa > 0 {
            let pa = pow2((fa - 1) as nat) as int;
            lemma_pow2_pos((fa - 1) as nat);
            lemma_pow2_unfold(fa as nat);
            if fa < fb - 1 {
                lemma_pow2_strictly_increases(fa as nat, (fb - 1) as nat);
            }
            assert((0x80_0000 + ma) * pa < (0x80_0000 + mb) * pb) by (nonlinear_arith)
                requires
                    0 <= ma < 0x80_0000,
                    0 <= mb,
                    2 * pa <= pb,
                    pa > 0,
            ;
        }
    }
}

/// The numbers of finite bit patterns have the order of their keys.
proof fn lemma_order_key(a: u32, b: u32)
    requires
        is_finite(a),
        is_finite(b),
    ensures
        at_most(number(a), number(b)) <==> order_key(a) <= order_key(b),
{
    let (x, y) = (number(a), number(b));
    let d = pow2(149) as int;
    lemma_pow2_pos(149);
    assert(x.n * d <= y.n * d <==> x.n <= y.n) by (nonlinear_arith)
        requires
            d > 0,
    ;
    let ka = if is_negative(a) {
        (a - 0x8000_0000) as u32
    } else {
        a
    };
    let kb = if is_negative(b) {
        (b - 0x8000_0000) as u32
    } else {
        b
    };
    assert(units(ka) == units(a) && units(kb) == units(b));
    lemma_units_zero();
    if ka > 0 {
        lemma_units_ordered(0, ka);
    }
    if kb > 0 {
        lemma_units_ordered(0, kb);
    }
    if ka < kb {
        lemma_units_ordered(ka, kb);
    } else if kb < ka {
        lemma_units_ordered(kb, ka);
    }
}

proof fn lemma_units_zero()
    ensures
        units(0) == 0,
        is_finite(0),
{
}

fn key(b: u32) -> (k: i64)
    ensures
        k == order_key(b),
{
    if b >= 0x8000_0000 {
        -((b - 0x8000_0000) as i64)
    } else {
        b as i64
    }
}

fn nan(b: u32) -> (r: bool)
    ensures
        r == is_nan(b),
{
    (b / 0x80_0000) % 0x100 == 0xff && b % 0x80_0000 != 0
}

fn infinite(b: u32) -> (r: bool)
    ensures
        r == is_infinite(b),
{
    (b / 0x80_0000) % 0x100 == 0xff && b % 0x80_0000 == 0
}

/// Whether `a` is the greater number.
pub fn greater(a: u32, b: u32) -> (r: bool)
    ensures
        r == exceeds(a, b),
        is_finite(a) && is_finite(b) ==> r == (number(a).n > number(b).n),
{
    proof {
        lemma_greater_is_greater(a, b);
    }
    if nan(a) || nan(b) {
        return false;
    }
    proof {
        if is_finite(a) && is_finite(b) {
            lemma_order_key(a, b);
        }
    }
    key(a) > key(b)
}

/// The significand and exponent of the magnitude of a number.
fn unpack(b: u32) -> (r: Rounded)
    requires
        is_finite(b),
    ensures
        r.well_formed(24),
        r.m > 0 <==> units(b) > 0,
        same(r.value(), Ratio { n: units(b), d: pow2(149) as int }),
        -173 < r.e <= 105,
        r.m == 0 ==> r.e == 0,
        r.m < 0x100_0000,
{
    let field: u32 = (b / 0x80_0000) % 0x100;
    let fraction: u32 = b % 0x80_0000;
    let m: u32 = if field == 0 {
        fraction
    } else {
        0x80_0000 + fraction
    };
    let e: i32 = if field == 0 {
        -149
    } else {
        field as i32 - 150
    };
    let ghost x = Ratio { n: units(b), d: pow2(149) as int };
    let ghost g = dyadic(m as int, e as int);
    proof {
        lemma2_to64();
        lemma2_to64_rest();
        lemma_pow2_pos(149);
        lemma_dyadic_positive(m as int, e as int);
        assert(same(g, x)) by {
            if field == 0 {
            } else {
                let p = pow2((field - 1) as nat) as int;
                if e >= 0 {
                    let q = pow2(e as nat) as int;
                    lemma_pow2_adds(e as nat, 149);
                    let t = pow2(149) as int;
                    assert((m * q) * t == (m * p) * 1) by (nonlinear_arith)
                        requires
                            q * t == p,
                    ;
                } else {
                    let q = pow2((-e) as nat) as int;
                    lemma_pow2_adds((field - 1) as nat, (-e) as nat);
                    let t = pow2(149) as int;
                    assert(m * t == (m * p) * q) by (nonlinear_arith)
                        requires
                            p * q == t,
                    ;
                }
            }
        }
        // In units of `2^e` the number is `m`.
        lemma_dyadic_scaled(m as int, e as int, e as int);
        assert(m * pow2(0) == m) by (nonlinear_arith)
            requires
                pow2(0) == 1,
        ;
        assert(m as int / 1 == m && m as int % 1 == 0);
        assert(m == 0 ==> units(b) == 0);
        assert(m > 0 ==> units(b) > 0) by {
            if field > 0 {
                lemma_pow2_pos((field - 1) as nat);
                lemma_positive_product(m as int, pow2((field - 1) as nat) as int);
            }
        }
    }
    let r: Rounded = round_units(24, m as u128, false, e, Ghost(g), Ghost(whole(m as int)));
    proof {
        // The rounding is exact.
        let k = r.value();
        lemma_dyadic_positive(r.m as int, r.e as int);
        lemma_rounded_exact(24, m as int, e as int);
        lemma_rounded_positive(24, g);
        lemma_same_transitive(k, rounded_up_from_zero(24, g), g);
        lemma_same_transitive(k, g, x);
        if m == 0 {
            lemma_dyadic_zero(e as int);
        }
    }
    r
}

/// The product of an integer and a single-precision number, computed in single
/// precision, as an `i64`: without its fractional part, at the nearest end of
/// the range where it lies outside, and zero where it is no number.
pub open spec fn scaled_integer(id: int, step: u32) -> int {
    if is_nan(step) {
        0
    } else if is_infinite(step) {
        if id == 0 {
            0
        } else if (id < 0) != is_negative(step) {
            i64::MIN as int
        } else {
            i64::MAX as int
        }
    } else {
        saturated(truncated(rounded(24, product(rounded(24, whole(id)), number(step)))))
    }
}

/// The product lies in the range of an `i64`.
pub proof fn lemma_scaled_in_range(id: int, step: u32)
    ensures
        i64::MIN <= scaled_integer(id, step) <= i64::MAX,
{
}

/// Numbers of at most 24 significant bits are double-precision numbers, with either sign.
proof fn lemma_few_bits_are_exact(m: int, e: nat)
    requires
        0 <= m <= pow2(24),
        m * pow2(e) <= 0x8000_0000_0000_0000,
    ensures
        is_exact(m * pow2(e)),
        is_exact(-(m * pow2(e))),
{
    let v = m * pow2(e) as int;
    lemma2_to64();
    lemma2_to64_rest();
    lemma_pow2_pos(e);
    if m == 0 {
        assert(v == 0) by (nonlinear_arith)
            requires
                v == m * pow2(e),
                m == 0,
        ;
        lemma_small_is_exact(0);
    } else {
        assert(pow2(e) <= v) by (nonlinear_arith)
            requires
                v == m * pow2(e),
                m >= 1,
                pow2(e) >= 1,
        ;
        if e > 63 {
            lemma_pow2_strictly_increases(63, e);
        }
        lemma_rounded_exact(53, m, e as int);
        assert(dyadic(m, e as int) == whole(v));
        let y = rounded_up_from_zero(53, whole(v));
        assert((-y.n) * 1 == (-v) * y.d) by (nonlinear_arith)
            requires
                v * y.d == y.n * 1,
        ;
    }
}

/// A number in single precision, without its fractional part and within the range of an
/// `i64`, is an end that interpolation keeps.
proof fn lemma_truncated_is_end(x: Ratio)
    requires
        x.d > 0,
    ensures
        is_end(saturated(truncated(rounded(24, x)))),
{
    lemma2_to64();
    lemma2_to64_rest();
    if x.n == 0 {
        assert(truncated(rounded(24, x)) == 0);
        lemma_small_is_exact(0);
    } else {
        let size = if x.n > 0 {
            x
        } else {
            Ratio { n: -x.n, d: x.d }
        };
        let e = lemma_binade_exists(24, size);
        lemma_rounded_is(24, size, e);
        let m = nearest_int(scaled(size, e));
        let r = dyadic(m, e);
        let v = r.n / r.d;
        assert(v >= 0 && truncated(rounded(24, x)) == (if x.n > 0 {
            v
        } else {
            -v
        })) by {
            lemma_dyadic_positive(m, e);
            assert(r.n > 0 && r.d > 0);
            assert(r.n / r.d >= 0) by (nonlinear_arith)
                requires
                    r.n > 0,
                    r.d > 0,
            ;
        }
        if e >= 0 {
            assert(v == m * pow2(e as nat));
            if v <= 0x8000_0000_0000_0000 {
                lemma_few_bits_are_exact(m, e as nat);
            }
            lemma_few_bits_are_exact(1, 63);
        } else {
            let d = pow2((-e) as nat) as int;
            lemma_pow2_pos((-e) as nat);
            assert(m / d <= m) by (nonlinear_arith)
                requires
                    m >= 0,
                    d >= 1,
            ;
            assert(v <= 0x100_0000);
            lemma_small_is_exact(v);
            lemma_small_is_exact(-v);
        }
    }
}

/// The product is an end that interpolation keeps.
pub proof fn lemma_scaled_is_end(id: int, step: u32)
    ensures
        is_end(scaled_integer(id, step)),
{
    lemma2_to64();
    lemma2_to64_rest();
    lemma_small_is_exact(0);
    lemma_few_bits_are_exact(1, 63);
    if !is_nan(step) && !is_infinite(step) {
        let r = rounded(24, whole(id));
        lemma_signed_rounded_positive(24, whole(id));
        lemma_pow2_pos(149);
        lemma_positive_product(r.d, number(step).d);
        lemma_truncated_is_end(product(r, number(step)));
    }
}

/// The product of an integer and a single-precision number, as an `i64`.
pub fn scale_integer(id: i64, step: u32) -> (t: i64)
    ensures
        t == scaled_integer(id as int, step),
{
    if nan(step) {
        return 0;
    }
    let step_negative: bool = step >= 0x8000_0000;
    if infinite(step) {
        return if id == 0 {
            0
        } else if (id < 0) != step_negative {
            i64::MIN
        } else {
            i64::MAX
        };
    }
    let size: u64 = if id >= 0 {
        id as u64
    } else {
        (-(id as i128)) as u64
    };
    let a: Rounded = from_integer(24, size as u128);
    let s: Rounded = unpack(step);
    let r: Rounded = multiply(24, &a, &s);
    let negative: bool = r.m > 0 && (id < 0) != step_negative;
    let ghost x = product(rounded(24, whole(id as int)), number(step));
    proof {
        let ra = rounded_up_from_zero(24, whole(size as int));
        let us = Ratio { n: units(step), d: pow2(149) as int };
        lemma_pow2_pos(149);
        lemma_rounded_positive(24, whole(size as int));
        lemma_dyadic_positive(a.m as int, a.e as int);
        lemma_dyadic_positive(s.m as int, s.e as int);
        lemma_same_product(a.value(), ra, s.value(), us);
        lemma_positive_product(a.value().d, s.value().d);
        lemma_positive_product(ra.d, us.d);
        lemma_nonnegative_product(a.value().n, s.value().n);
        let y = product(ra, us);
        lemma_rounded_equal(24, product(a.value(), s.value()), y);
        // The product has the sign that its factors give it.
        let (p, q) = (ra.n, us.n);
        assert(rounded(24, whole(id as int)) == signed(id < 0, ra));
        assert((-p) * q == -(p * q) && p * (-q) == -(p * q) && (-p) * (-q) == p * q)
            by (nonlinear_arith);
        assert(x == signed((id < 0) != step_negative, y));
        assert(y.n >= 0);
        if a.m > 0 && s.m > 0 {
            lemma_positive_product(a.value().n, s.value().n);
        } else {
            lemma_dyadic_zero(a.e as int);
            lemma_dyadic_zero(s.e as int);
            assert(product(a.value(), s.value()).n == 0) by (nonlinear_arith)
                requires
                    product(a.value(), s.value()).n == a.value().n * s.value().n,
                    a.value().n == 0 || s.value().n == 0,
            ;
        }
        assert(r.m > 0 <==> y.n > 0);
        assert(magnitude(x) == y);
    }
    truncate_to_i64(24, &r, negative, Ghost(x))
}

/// The lowest score that counts as equal to the best score `best`: in single
/// precision, `best - 1/256`.
pub open spec fn tie_floor(best: u32) -> Ratio {
    rounded(24, total(number(best), Ratio { n: -1, d: 256 }))
}

/// A rounded single-precision number with its sign.
struct Signed {
    size: Rounded,
    negative: bool,
}

impl Signed {
    spec fn value(self) -> Ratio {
        signed(self.negative, self.size.value())
    }

    spec fn well_formed(self) -> bool {
        self.size.well_formed(24) && (self.negative ==> self.size.m > 0)
    }
}

fn tie_floor_of(best: u32) -> (f: Signed)
    requires
        is_finite(best),
    ensures
        f.well_formed(),
        same(f.value(), tie_floor(best)),
{
    let negative: bool = best >= 0x8000_0000;
    let s: Rounded = unpack(best);
    let ghost us = Ratio { n: units(best), d: pow2(149) as int };
    let ghost sb = signed(negative, s.value());
    let ghost step = Ratio { n: -1int, d: 256 };
    let ghost x = total(sb, step);
    proof {
        lemma2_to64();
        lemma2_to64_rest();
        lemma_pow2_pos(149);
        lemma_dyadic_positive(s.m as int, s.e as int);
        assert((-s.value().n) * us.d == (-us.n) * s.value().d) by (nonlinear_arith)
            requires
                s.value().n * us.d == us.n * s.value().d,
        ;
        assert(same(sb, number(best)));
        assert(same(step, step));
        lemma_same_total(sb, number(best), step, step);
        lemma_positive_product(sb.d, 256);
        lemma_positive_product(us.d, 256);
        lemma_signed_rounded_equal(24, x, total(number(best), step));
        assert(signed(true, dyadic(1, -8)) == step);
        assert(total(step, sb) == x) by {
            assert(sb.n * 256 + (-1) * sb.d == (-1) * sb.d + sb.n * 256);
            assert(sb.d * 256 == 256 * sb.d);
        }
    }
    let (r, sign): (Rounded, bool) = if s.m > 0 && s.e > 8 {
        let n: u128 = s.m as u128 * 0x1_0000_0000_0000_0000;
        proof {
            let e = s.e - 64;
            lemma_signed_units(negative, s.m as int, s.e as int, e);
            lemma_signed_units(true, 1, -8, e);
            lemma_dyadic_positive(1, 56 - s.e);
            assert(dyadic(s.m as int, 64) == whole(n as int));
            lemma_sum_units(
                sb,
                step,
                e,
                signed(negative, whole(n as int)),
                signed(true, dyadic(1, 56 - s.e)),
            );
        }
        round_sum(24, s.e - 64, negative, n, true, 1, 56 - s.e, Ghost(x))
    } else {
        proof {
            lemma_signed_units(negative, s.m as int, s.e as int, -64);
            lemma_signed_units(true, 1, -8, -64);
            lemma_dyadic_positive(s.m as int, s.e + 64);
            assert(dyadic(1, 56) == whole(0x100_0000_0000_0000));
            lemma_sum_units(
                step,
                sb,
                -64,
                signed(true, whole(0x100_0000_0000_0000)),
                signed(negative, dyadic(s.m as int, s.e + 64)),
            );
        }
        round_sum(24, -64, true, 0x100_0000_0000_0000, negative, s.m, s.e + 64, Ghost(x))
    };
    proof {
        lemma_dyadic_positive(r.m as int, r.e as int);
        lemma_rounded_positive(24, magnitude(x));
        let q = rounded_up_from_zero(24, magnitude(x));
        assert((-r.value().n) * q.d == (-q.n) * r.value().d) by (nonlinear_arith)
            requires
                r.value().n * q.d == q.n * r.value().d,
        ;
        assert(signed(true, x) == (Ratio { n: -x.n, d: x.d }));
        assert(rounded(24, x) == signed(x.n < 0, q));
    }
    Signed { size: r, negative: sign }
}

/// Whether a finite score is at least `f`.
fn at_least(v: u32, f: &Signed) -> (r: bool)
    requires
        is_finite(v),
        f.well_formed(),
    ensures
        r == at_most(f.value(), number(v)),
{
    let s: Rounded = unpack(v);
    let v_negative: bool = v >= 0x8000_0000 && s.m > 0;
    let ghost us = Ratio { n: units(v), d: pow2(149) as int };
    let ghost sv = signed(v_negative, s.value());
    proof {
        lemma_pow2_pos(149);
        lemma_dyadic_positive(s.m as int, s.e as int);
        lemma_dyadic_positive(f.size.m as int, f.size.e as int);
        assert((-s.value().n) * us.d == (-us.n) * s.value().d) by (nonlinear_arith)
            requires
                s.value().n * us.d == us.n * s.value().d,
        ;
        if s.m == 0 {
            lemma_dyadic_zero(s.e as int);
        }
        if f.size.m == 0 {
            lemma_dyadic_zero(f.size.e as int);
        }
        let nv = number(v);
        assert(same(sv, nv)) by {
            if s.m == 0 {
                assert(sv.n == 0 && nv.n == 0);
                assert(sv.n * nv.d == nv.n * sv.d) by (nonlinear_arith)
                    requires
                        sv.n == 0,
                        nv.n == 0,
                ;
            }
        }
        assert(same(f.value(), f.value()));
        if at_most(f.value(), sv) {
            lemma_at_most_same(f.value(), f.value(), sv, nv);
        }
        if at_most(f.value(), nv) {
            lemma_at_most_same(f.value(), f.value(), nv, sv);
        }
        lemma_sign_order(f.value(), sv);
        if f.size.m > 0 && s.m > 0 {
            lemma_order_of_rounded(24, f.size, s);
            lemma_order_of_rounded(24, s, f.size);
            lemma_negated_order(f.size.value(), s.value());
        }
    }
    if f.negative {
        if !v_negative {
            true
        } else {
            s.e < f.size.e || (s.e == f.size.e && s.m <= f.size.m)
        }
    } else if v_negative {
        false
    } else if f.size.m == 0 {
        true
    } else if s.m == 0 {
        false
    } else {
        f.size.e < s.e || (f.size.e == s.e && f.size.m <= s.m)
    }
}

/// Signs decide the order of numbers that differ in them.
proof fn lemma_sign_order(x: Ratio, y: Ratio)
    requires
        x.d > 0,
        y.d > 0,
    ensures
        x.n <= 0 && y.n >= 0 ==> at_most(x, y),
        x.n >= 0 && y.n < 0 ==> !at_most(x, y),
        x.n > 0 && y.n <= 0 ==> !at_most(x, y),
{
    let (a, b, c, d) = (x.n, x.d, y.n, y.d);
    assert(a <= 0 ==> a * d <= 0) by (nonlinear_arith)
        requires
            d > 0,
    ;
    assert(a >= 0 ==> a * d >= 0) by (nonlinear_arith)
        requires
            d > 0,
    ;
    assert(a > 0 ==> a * d > 0) by (nonlinear_arith)
        requires
            d > 0,
    ;
    assert(c >= 0 ==> c * b >= 0) by (nonlinear_arith)
        requires
            b > 0,
    ;
    assert(c <= 0 ==> c * b <= 0) by (nonlinear_arith)
        requires
            b > 0,
    ;
    assert(c < 0 ==> c * b < 0) by (nonlinear_arith)
        requires
            b > 0,
    ;
}

proof fn lemma_negated_order(x: Ratio, y: Ratio)
    ensures
        at_most(signed(true, x), signed(true, y)) <==> at_most(y, x),
{
    assert((-x.n) * y.d == -(x.n * y.d)) by (nonlinear_arith);
    assert((-y.n) * x.d == -(y.n * x.d)) by (nonlinear_arith);
}

/// Minus infinity.
pub const NEGATIVE_INFINITY: u32 = 0xff80_0000;

/// The greatest of a row of scores, or minus infinity. What is no number does
/// not count.
pub open spec fn best_score(row: Seq<u32>) -> u32
    decreases row.len(),
{
    if row.len() == 0 {
        NEGATIVE_INFINITY
    } else {
        let best = best_score(row.drop_last());
        if exceeds(row.last(), best) {
            row.last()
        } else {
            best
        }
    }
}

/// The score `v` counts as equal to the best score.
pub open spec fn is_tied(v: u32, best: u32) -> bool {
    if is_nan(v) {
        false
    } else if is_infinite(best) {
        is_negative(best) || v == best
    } else if is_infinite(v) {
        !is_negative(v)
    } else {
        at_most(tie_floor(best), number(v))
    }
}

/// `k` is the first index whose score counts as equal to the best one.
pub open spec fn is_first_tied(row: Seq<u32>, k: int) -> bool {
    &&& 0 <= k < row.len()
    &&& is_tied(row[k], best_score(row))
    &&& forall|i: int| 0 <= i < k ==> !is_tied(#[trigger] row[i], best_score(row))
}

/// The position of the best score of a row. Scores within `1/256` of it are
/// equal to it, and the first of these wins, even where a later one is strictly
/// greater: engines differ by as much. `is_first_greatest` is the strict rule. A row
/// without numbers has 0.
pub open spec fn position_of_best(row: Seq<u32>) -> int {
    if exists|k: int| is_first_tied(row, k) {
        choose|k: int| is_first_tied(row, k)
    } else {
        0
    }
}

proof fn lemma_first_tied_unique(row: Seq<u32>, k: int)
    requires
        is_first_tied(row, k),
    ensures
        position_of_best(row) == k,
{
    let j = choose|j: int| is_first_tied(row, j);
    if j < k {
        assert(!is_tied(row[j], best_score(row)));
    }
    if k < j {
        assert(!is_tied(row[k], best_score(row)));
    }
}

proof fn lemma_best_is_number(row: Seq<u32>)
    ensures
        !is_nan(best_score(row)),
    decreases row.len(),
{
    if row.len() > 0 {
        lemma_best_is_number(row.drop_last());
    }
}

/// The position of the best score in `values[start..end]`.
pub fn best_position(values: &[u32], start: usize, end: usize) -> (k: usize)
    requires
        start <= end <= values@.len(),
    ensures
        k == position_of_best(values@.subrange(start as int, end as int)),
{
    let ghost row = values@.subrange(start as int, end as int);
    let mut best: u32 = NEGATIVE_INFINITY;
    assert(row.subrange(0, 0) =~= Seq::<u32>::empty());
    for i in start..end
        invariant
            start <= end <= values@.len(),
            row == values@.subrange(start as int, end as int),
            best == best_score(row.subrange(0, i - start)),
    {
        proof {
            let longer = row.subrange(0, i + 1 - start);
            assert(longer.drop_last() =~= row.subrange(0, i - start));
            assert(longer.last() == values@[i as int]);
        }
        if greater(values[i], best) {
            best = values[i];
        }
    }
    assert(row.subrange(0, end - start) =~= row);
    proof {
        lemma_best_is_number(row);
    }
    let unbounded: bool = infinite(best);
    let floor: Option<Signed> = if unbounded {
        None
    } else {
        Some(tie_floor_of(best))
    };
    for i in start..end
        invariant
            start <= end <= values@.len(),
            row == values@.subrange(start as int, end as int),
            best == best_score(row),
            unbounded == is_infinite(best),
            !unbounded ==> is_finite(best),
            floor matches Some(f) ==> !unbounded && f.well_formed() && same(
                f.value(),
                tie_floor(best),
            ),
            floor is None ==> unbounded,
            forall|j: int| 0 <= j < i - start ==> !is_tied(#[trigger] row[j], best),
    {
        let v: u32 = values[i];
        assert(v == row[i - start]);
        let tied: bool = if nan(v) {
            false
        } else {
            match &floor {
                None => best >= 0x8000_0000 || v == best,
                Some(f) => {
                    if infinite(v) {
                        v < 0x8000_0000
                    } else {
                        proof {
                            lemma_tie_floor_positive(best);
                            lemma_pow2_pos(149);
                            lemma_dyadic_positive(f.size.m as int, f.size.e as int);
                            assert(same(number(v), number(v)));
                            if at_most(f.value(), number(v)) {
                                lemma_at_most_same(
                                    f.value(),
                                    tie_floor(best),
                                    number(v),
                                    number(v),
                                );
                            }
                            if at_most(tie_floor(best), number(v)) {
                                lemma_at_most_same(
                                    tie_floor(best),
                                    f.value(),
                                    number(v),
                                    number(v),
                                );
                            }
                        }
                        at_least(v, f)
                    }
                },
            }
        };
        if tied {
            proof {
                assert(is_first_tied(row, i - start));
                lemma_first_tied_unique(row, i - start);
            }
            return i - start;
        }
    }
    proof {
        if exists|k: int| is_first_tied(row, k) {
            let k = choose|k: int| is_first_tied(row, k);
            assert(!is_tied(row[k], best));
        }
    }
    0
}

proof fn lemma_tie_floor_positive(best: u32)
    ensures
        tie_floor(best).d > 0,
{
    lemma_pow2_pos(149);
    lemma_positive_product(pow2(149) as int, 256);
    lemma_signed_rounded_positive(24, total(number(best), Ratio { n: -1, d: 256 }));
}

/// Among numbers and infinities, the order is that of the keys.
proof fn lemma_exceeds_by_key(a: u32, b: u32)
    requires
        !is_nan(a),
        !is_nan(b),
    ensures
        exceeds(a, b) <==> order_key(a) > order_key(b),
{
    if is_finite(a) && is_finite(b) {
        lemma_order_key(a, b);
    }
}

/// The best score of a row is one of its scores, or minus infinity, and no
/// score of the row exceeds it.
pub proof fn lemma_best_score_is_greatest(row: Seq<u32>)
    ensures
        !is_nan(best_score(row)),
        best_score(row) == NEGATIVE_INFINITY || row.contains(best_score(row)),
        forall|i: int| 0 <= i < row.len() ==> !exceeds(#[trigger] row[i], best_score(row)),
    decreases row.len(),
{
    if row.len() > 0 {
        let rest = row.drop_last();
        lemma_best_score_is_greatest(rest);
        let best = best_score(rest);
        let last = row.last();
        assert forall|i: int| 0 <= i < row.len() implies !exceeds(
            #[trigger] row[i],
            best_score(row),
        ) by {
            if i < rest.len() {
                assert(!exceeds(rest[i], best));
                if exceeds(last, best) && !is_nan(row[i]) {
                    lemma_exceeds_by_key(row[i], best);
                    lemma_exceeds_by_key(last, best);
                    lemma_exceeds_by_key(row[i], last);
                }
            } else if !is_nan(last) {
                lemma_exceeds_by_key(last, last);
            }
        }
        if exceeds(last, best) {
            assert(row[row.len() - 1] == last);
        } else if rest.contains(best) {
            let k = choose|k: int| 0 <= k < rest.len() && rest[k] == best;
            assert(row[k] == best);
        }
    }
}

/// Whether `k` is the place of the first of the greatest values.
pub open spec fn is_first_greatest(values: Seq<u32>, k: int) -> bool {
    &&& 0 <= k < values.len()
    &&& forall|i: int| 0 <= i < values.len() ==> !exceeds(#[trigger] values[i], values[k])
    &&& forall|i: int| 0 <= i < k ==> exceeds(values[k], #[trigger] values[i])
}

/// Finds the place of the first of the greatest values; without values it is zero.
pub fn argmax(values: &[u32]) -> (k: i32)
    requires
        values@.len() <= i32::MAX,
        forall|i: int| 0 <= i < values@.len() ==> !is_nan(#[trigger] values@[i]),
    ensures
        values@.len() == 0 ==> k == 0,
        values@.len() > 0 ==> is_first_greatest(values@, k as int),
{
    let n: usize = values.len();
    let mut best: usize = 0;
    let mut i: usize = 1;
    if n > 0 {
        proof {
            lemma_exceeds_by_key(values@[0], values@[0]);
        }
    }
    while i < n
        invariant
            n == values@.len() <= i32::MAX,
            n > 0 ==> best < i && best < n && i <= n,
            n == 0 ==> best == 0,
            i >= 1,
            forall|j: int| 0 <= j < n ==> !is_nan(#[trigger] values@[j]),
            n > 0 ==> forall|j: int|
                0 <= j < i ==> !exceeds(#[trigger] values@[j], values@[best as int]),
            forall|j: int| 0 <= j < best ==> exceeds(values@[best as int], #[trigger] values@[j]),
        decreases n - i,
    {
        if greater(values[i], values[best]) {
            proof {
                let (v, w) = (values@[i as int], values@[best as int]);
                lemma_exceeds_by_key(v, w);
                assert forall|j: int| 0 <= j < i implies exceeds(v, #[trigger] values@[j]) by {
                    lemma_exceeds_by_key(values@[j], w);
                    lemma_exceeds_by_key(v, values@[j]);
                }
                assert forall|j: int| 0 <= j <= i implies !exceeds(#[trigger] values@[j], v) by {
                    lemma_exceeds_by_key(values@[j], v);
                    if j < i {
                        lemma_exceeds_by_key(v, values@[j]);
                    }
                }
            }
            best = i;
        }
        i = i + 1;
    }
    best as i32
}

/// The number of a bit pattern needs no rounding.
proof fn lemma_number_exact(b: u32)
    requires
        is_finite(b),
    ensures
        same(rounded(24, number(b)), number(b)),
        rounded(24, number(b)).d > 0,
{
    let field = exponent_field(b);
    let m = if field == 0 {
        fraction_field(b)
    } else {
        0x80_0000 + fraction_field(b)
    };
    let e = if field == 0 {
        -149
    } else {
        field - 150
    };
    let u = Ratio { n: units(b), d: pow2(149) as int };
    let g = dyadic(m, e);
    lemma2_to64();
    lemma_pow2_pos(149);
    lemma_dyadic_positive(m, e);
    lemma_units_dyadic(b, m, e);
    lemma_rounded_exact(24, m, e);
    lemma_rounded_equal(24, g, u);
    lemma_rounded_positive(24, u);
    let q = rounded_up_from_zero(24, u);
    lemma_same_transitive(q, g, u);
    assert(u.n >= 0);
    let x = number(b);
    if is_negative(b) {
        if u.n > 0 {
            assert((-q.n) * u.d == (-u.n) * q.d) by (nonlinear_arith)
                requires
                    q.n * u.d == u.n * q.d,
            ;
            assert(rounded(24, x) == signed(true, q));
        } else {
            assert(rounded(24, x).n == 0 && x.n == 0);
            assert(same(rounded(24, x), x)) by {
                assert(0 * x.d == 0 * rounded(24, x).d) by (nonlinear_arith);
            }
        }
    }
}

/// The magnitude of a number as significand and exponent.
proof fn lemma_units_dyadic(b: u32, m: int, e: int)
    requires
        is_finite(b),
        exponent_field(b) == 0 ==> m == fraction_field(b) && e == -149,
        exponent_field(b) != 0 ==> m == 0x80_0000 + fraction_field(b) && e == exponent_field(b) - 150,
    ensures
        same(dyadic(m, e), Ratio { n: units(b), d: pow2(149) as int }),
{
    let field = exponent_field(b);
    if field != 0 {
        let p = pow2((field - 1) as nat) as int;
        let t = pow2(149) as int;
        if e >= 0 {
            let q = pow2(e as nat) as int;
            lemma_pow2_adds(e as nat, 149);
            assert((m * q) * t == (m * p) * 1) by (nonlinear_arith)
                requires
                    q * t == p,
            ;
        } else {
            let q = pow2((-e) as nat) as int;
            lemma_pow2_adds((field - 1) as nat, (-e) as nat);
            assert(m * t == (m * p) * q) by (nonlinear_arith)
                requires
                    p * q == t,
            ;
        }
    }
}

/// A best score counts as equal to itself.
proof fn lemma_best_is_tied(best: u32)
    requires
        !is_nan(best),
    ensures
        is_tied(best, best),
{
    if is_finite(best) {
        let x = number(best);
        let step = Ratio { n: -1int, d: 256 };
        let y = total(x, step);
        lemma_pow2_pos(149);
        lemma_positive_product(x.d, 256);
        assert(at_most(y, x)) by {
            let (a, d) = (x.n, x.d);
            assert((a * 256 + (-1) * d) * d <= a * (d * 256)) by (nonlinear_arith)
                requires
                    d > 0,
            {
                assert((a * 256 + (-1) * d) * d == a * (d * 256) - d * d);
                assert(d * d > 0);
            }
        }
        lemma_rounded_monotone(24, y, x);
        lemma_number_exact(best);
        lemma_tie_floor_positive(best);
        assert(same(tie_floor(best), tie_floor(best)));
        lemma_at_most_same(tie_floor(best), tie_floor(best), rounded(24, x), x);
    }
}

proof fn lemma_first_tied_exists(row: Seq<u32>, n: int) -> (k: int)
    requires
        0 <= n < row.len(),
        is_tied(row[n], best_score(row)),
    ensures
        is_first_tied(row, k),
    decreases n,
{
    if exists|j: int| 0 <= j < n && is_tied(#[trigger] row[j], best_score(row)) {
        let j = choose|j: int| 0 <= j < n && is_tied(#[trigger] row[j], best_score(row));
        lemma_first_tied_exists(row, j)
    } else {
        n
    }
}

/// In a row that holds a number, the chosen position is that of a score equal to
/// the best one, and no earlier score is equal to it.
pub proof fn lemma_position_is_tied(row: Seq<u32>, i: int)
    requires
        0 <= i < row.len(),
        !is_nan(row[i]),
    ensures
        is_first_tied(row, position_of_best(row)),
{
    lemma_best_score_is_greatest(row);
    let best = best_score(row);
    let n = if row.contains(best) {
        choose|n: int| 0 <= n < row.len() && row[n] == best
    } else {
        i
    };
    if row.contains(best) {
        lemma_best_is_tied(best);
    }
    assert(is_tied(row[n], best));
    let k = lemma_first_tied_exists(row, n);
    lemma_first_tied_unique(row, k);
}

/// The bit pattern of 80.
pub const EIGHTY: u32 = 0x42a0_0000;

/// With steps of 80, a small step number counts out exactly.
pub proof fn lemma_steps_of_eighty(id: int)
    requires
        0 <= id <= 209_715,
    ensures
        scaled_integer(id, EIGHTY) == 80 * id,
{
    lemma2_to64();
    lemma2_to64_rest();
    lemma_pow2_pos(149);
    let x = number(EIGHTY);
    assert(exponent_field(EIGHTY) == 133 && fraction_field(EIGHTY) == 0x20_0000);
    lemma_pow2_adds(132, 17);
    let p = pow2(132) as int;
    assert(x.n == 0xa0_0000 * p && x.d == p * 0x2_0000);
    assert(same(x, whole(80))) by {
        assert((0xa0_0000 * p) * 1 == 80 * (p * 0x2_0000)) by (nonlinear_arith);
    }
    let r = rounded(24, whole(id));
    lemma_rounded_whole(24, id);
    lemma_rounded_positive(24, whole(id));
    assert(same(r, whole(id)));
    lemma_same_product(r, whole(id), x, whole(80));
    assert(product(whole(id), whole(80)) == whole(80 * id));
    lemma_positive_product(r.d, x.d);
    lemma_signed_rounded_equal(24, product(r, x), whole(80 * id));
    lemma_rounded_whole(24, 80 * id);
    lemma_rounded_positive(24, whole(80 * id));
    lemma_truncated_whole(rounded(24, whole(80 * id)), 80 * id);
}

proof fn lemma_number_positive(step: u32)
    requires
        !is_negative(step),
    ensures
        number(step).n >= 0,
        number(step).d > 0,
{
    lemma_pow2_pos(149);
    if exponent_field(step) > 0 {
        let p = pow2((exponent_field(step) - 1) as nat);
        lemma_pow2_pos((exponent_field(step) - 1) as nat);
        lemma_nonnegative_product(0x80_0000 + fraction_field(step), p as int);
    }
}

/// For a step that is not negative, a later step number is no earlier time, and no
/// time is negative.
pub proof fn lemma_scaled_in_order(a: int, b: int, step: u32)
    requires
        0 <= a <= b,
        !is_negative(step),
    ensures
        0 <= scaled_integer(a, step) <= scaled_integer(b, step),
{
    if is_finite(step) {
        lemma_number_positive(step);
        let s = number(step);
        let (x, y) = (whole(a), whole(b));
        assert(at_most(x, y));
        lemma_rounded_monotone(24, x, y);
        lemma_rounded_positive(24, x);
        lemma_rounded_positive(24, y);
        let (u, v) = (rounded(24, x), rounded(24, y));
        let (p, q) = (product(u, s), product(v, s));
        lemma_nonnegative_product(u.n, s.n);
        lemma_nonnegative_product(v.n, s.n);
        lemma_positive_product(u.d, s.d);
        lemma_positive_product(v.d, s.d);
        assert(at_most(p, q)) by {
            lemma_product_in_order(u.n, u.d, v.n, v.d, s.n, s.d);
        }
        lemma_rounded_monotone(24, p, q);
        lemma_rounded_positive(24, p);
        lemma_rounded_positive(24, q);
        lemma_truncated_in_order(rounded(24, p), rounded(24, q));
    }
}

proof fn lemma_product_in_order(un: int, ud: int, vn: int, vd: int, sn: int, sd: int)
    requires
        un * vd <= vn * ud,
        sn >= 0,
        sd > 0,
    ensures
        (un * sn) * (vd * sd) <= (vn * sn) * (ud * sd),
{
    let (l, r) = (un * vd, vn * ud);
    let f = sn * sd;
    assert(f >= 0) by (nonlinear_arith)
        requires
            f == sn * sd,
            sn >= 0,
            sd > 0,
    ;
    assert(l * f <= r * f) by (nonlinear_arith)
        requires
            l <= r,
            f >= 0,
    ;
    assert((un * sn) * (vd * sd) == (un * vd) * (sn * sd)) by (nonlinear_arith);
    assert((vn * sn) * (ud * sd) == (vn * ud) * (sn * sd)) by (nonlinear_arith);
}

proof fn lemma_truncated_in_order(x: Ratio, y: Ratio)
    requires
        x.n >= 0,
        y.n >= 0,
        x.d > 0,
        y.d > 0,
        at_most(x, y),
    ensures
        0 <= truncated(x) <= truncated(y),
{
    let (a, b) = (x.n / x.d, y.n / y.d);
    vstd::arithmetic::div_mod::lemma_fundamental_div_mod(x.n, x.d);
    vstd::arithmetic::div_mod::lemma_fundamental_div_mod(y.n, y.d);
    let (r, t) = (x.n % x.d, y.n % y.d);
    let (xn, xd, yn, yd) = (x.n, x.d, y.n, y.d);
    assert(a >= 0) by (nonlinear_arith)
        requires
            xn == xd * a + r,
            0 <= r < xd,
            xn >= 0,
    ;
    // The whole part of `x` is no more than `y`.
    assert(a * yd <= yn) by (nonlinear_arith)
        requires
            xn * yd <= yn * xd,
            xn == xd * a + r,
            0 <= r,
            xd > 0,
            yd > 0,
    {
        assert(xd * a * yd <= xn * yd);
        assert(xd * (a * yd) <= xd * yn);
    }
    assert(a <= b) by (nonlinear_arith)
        requires
            a * yd <= yn,
            yn == yd * b + t,
            0 <= t < yd,
    ;
}

/// The units of a number are a significand of at most 24 bits, times a power of two.
proof fn lemma_units_split(b: u32) -> (r: (int, nat))
    requires
        is_finite(b),
    ensures
        units(b) == r.0 * pow2(r.1),
        0 <= r.0 < 0x100_0000,
{
    lemma2_to64();
    let field = exponent_field(b);
    if field == 0 {
        assert(fraction_field(b) * pow2(0) == fraction_field(b)) by (nonlinear_arith)
            requires
                pow2(0) == 1,
        ;
        (fraction_field(b), 0)
    } else {
        (0x80_0000 + fraction_field(b), (field - 1) as nat)
    }
}

/// What is left of a distance of `1/256` from a number whose neighbours are `2^-6` or
/// further away is nothing.
proof fn lemma_tie_floor_coarse(best: u32, e: int)
    requires
        is_finite(best),
        in_binade(24, magnitude(total(number(best), Ratio { n: -1, d: 256 })), e),
        e >= -6,
    ensures
        same(tie_floor(best), number(best)),
{
    let big = pow2(149) as int;
    let b = number(best).n;
    let size = units(best);
    let y = total(number(best), Ratio { n: -1, d: 256 });
    let x = magnitude(y);
    lemma_pow2_pos(149);
    lemma2_to64();
    assert(y.n == b * 256 + (-1) * big && y.d == big * 256);
    let (m, f) = lemma_units_split(best);
    let k = 149 + e;
    let p = pow2(k as nat) as int;
    lemma_pow2_pos(k as nat);
    // The distance is a small part of a unit.
    assert(big <= 64 * p) by {
        lemma_pow2_adds(k as nat, 6);
        if k + 6 > 149 {
            lemma_pow2_strictly_increases(149, (k + 6) as nat);
        }
    }
    // The magnitude is at least 2^23 units.
    assert(0x80_0000 * (256 * p) <= x.n) by {
        let h = 0x80_0000int;
        if e >= 0 {
            lemma_pow2_adds(149, e as nat);
            let q = pow2(e as nat) as int;
            assert(h * ((big * 256) * q) == h * (256 * p)) by (nonlinear_arith)
                requires
                    big * q == p,
            ;
        } else {
            lemma_pow2_adds(k as nat, (-e) as nat);
            let q = pow2((-e) as nat) as int;
            lemma_pow2_pos((-e) as nat);
            assert(h * (256 * p) <= x.n) by (nonlinear_arith)
                requires
                    h * (big * 256) <= x.n * q,
                    p * q == big,
                    q > 0,
            {
                assert(h * (big * 256) == (h * (256 * p)) * q);
            }
        }
    }
    assert(x.n <= 256 * size + big);
    // So the number is a multiple of the unit.
    assert(f >= k) by {
        if f < k {
            let half = pow2((k - 1) as nat) as int;
            lemma_pow2_adds((k - 1) as nat, 1);
            lemma_pow2_pos(f);
            let g = pow2(f) as int;
            assert(g <= half) by {
                if f < k - 1 {
                    lemma_pow2_strictly_increases(f, (k - 1) as nat);
                }
            }
            assert(m * g <= 0xff_ffff * half) by (nonlinear_arith)
                requires
                    0 <= m <= 0xff_ffff,
                    0 < g <= half,
            ;
            assert(p == 2 * half);
            assert(false);
        }
    }
    let d = (f - k) as nat;
    lemma_pow2_adds(k as nat, d);
    let c = m * pow2(d);
    assert(size == c * p) by (nonlinear_arith)
        requires
            size == m * pow2(f),
            c == m * pow2(d),
            p * pow2(d) == pow2(f),
    ;
    let z = scaled(x, e);
    lemma_scaled_positive(x, e);
    assert(-z.d < 2 * (z.n - c * z.d) < z.d) by {
        if e >= 0 {
            lemma_pow2_adds(149, e as nat);
            let q = pow2(e as nat) as int;
            assert(c * ((big * 256) * q) == 256 * (c * p)) by (nonlinear_arith)
                requires
                    big * q == p,
            ;
            assert((big * 256) * q == 256 * p) by (nonlinear_arith)
                requires
                    big * q == p,
            ;
        } else {
            lemma_pow2_adds(k as nat, (-e) as nat);
            let q = pow2((-e) as nat) as int;
            lemma_pow2_pos((-e) as nat);
            assert(q <= 64) by {
                if -e < 6 {
                    lemma_pow2_strictly_increases((-e) as nat, 6);
                }
            }
            assert(c * (big * 256) == (256 * (c * p)) * q) by (nonlinear_arith)
                requires
                    p * q == big,
            ;
            let off = x.n - 256 * size;
            assert(-big <= off <= big);
            assert(x.n * q - (256 * size) * q == off * q) by (nonlinear_arith)
                requires
                    off == x.n - 256 * size,
            ;
            assert(-(big * 64) <= off * q <= big * 64) by (nonlinear_arith)
                requires
                    -big <= off <= big,
                    0 < q <= 64,
                    big > 0,
            ;
        }
    }
    lemma_nearest_is(z, c);
    lemma_rounded_is(24, x, e);
    let r = rounded_up_from_zero(24, x);
    assert(r == dyadic(c, e));
    assert(r.n * big == size * r.d) by {
        if e >= 0 {
            lemma_pow2_adds(149, e as nat);
            let q = pow2(e as nat) as int;
            assert((c * q) * big == (c * p) * 1) by (nonlinear_arith)
                requires
                    big * q == p,
            ;
            assert(r.d == 1 && r.n == c * q);
        } else {
            lemma_pow2_adds(k as nat, (-e) as nat);
            let q = pow2((-e) as nat) as int;
            assert(c * big == (c * p) * q) by (nonlinear_arith)
                requires
                    p * q == big,
            ;
            assert(r.d == q && r.n == c);
        }
    }
    assert((-r.n) * big == (-size) * r.d) by (nonlinear_arith)
        requires
            r.n * big == size * r.d,
    ;
    assert(size > big) by {
        assert(0x80_0000 * (256 * p) <= 256 * size + big);
    }
    assert((y.n < 0) == is_negative(best));
}

/// The lowest score that counts as equal to the best one lies at most `1/128` below it,
/// and not above it. Where the best score is at most `2^14` in magnitude, it lies between
/// `1/256 - 1/1024` and `1/256 + 1/1024` below it.
proof fn lemma_tie_floor_near(best: u32)
    requires
        is_finite(best),
    ensures
        ({
            let f = tie_floor(best);
            let b = number(best).n;
            let unit = pow2(149) as int;
            &&& f.d > 0
            &&& (128 * b - unit) * f.d <= 128 * (f.n * unit)
            &&& f.n * unit <= b * f.d
            &&& -0x4000 * unit <= b <= 0x4000 * unit ==> (1024 * b - 5 * unit) * f.d <= 1024 * (f.n
                * unit) <= (1024 * b - 3 * unit) * f.d
        }),
{
    let unit = pow2(149) as int;
    let b = number(best).n;
    let y = total(number(best), Ratio { n: -1, d: 256 });
    let x = magnitude(y);
    let f = tie_floor(best);
    lemma_pow2_pos(149);
    lemma_tie_floor_positive(best);
    lemma_best_is_tied(best);
    lemma_positive_product(unit, 256);
    assert(y.n == b * 256 + (-1) * unit && y.d == unit * 256);
    if y.n == 0 {
        assert(f.n == 0 && f.d == 1);
        assert(f.n * unit == 0 && b * f.d == b && (128 * b - unit) * f.d == 128 * b - unit && (1024
            * b - 5 * unit) * f.d == 1024 * b - 5 * unit && (1024 * b - 3 * unit) * f.d == 1024 * b
            - 3 * unit) by (nonlinear_arith)
            requires
                f.n == 0,
                f.d == 1,
        ;
    } else {
        lemma_tie_floor_near_number(best);
    }
}

proof fn lemma_tie_floor_near_number(best: u32)
    requires
        is_finite(best),
        total(number(best), Ratio { n: -1, d: 256 }).n != 0,
    ensures
        ({
            let f = tie_floor(best);
            let b = number(best).n;
            let unit = pow2(149) as int;
            &&& (128 * b - unit) * f.d <= 128 * (f.n * unit)
            &&& -0x4000 * unit <= b <= 0x4000 * unit ==> (1024 * b - 5 * unit) * f.d <= 1024 * (f.n
                * unit) <= (1024 * b - 3 * unit) * f.d
        }),
{
    let unit = pow2(149) as int;
    let b = number(best).n;
    let y = total(number(best), Ratio { n: -1, d: 256 });
    let x = magnitude(y);
    let f = tie_floor(best);
    lemma_pow2_pos(149);
    lemma_tie_floor_positive(best);
    lemma_positive_product(unit, 256);
    assert(y.n == b * 256 + (-1) * unit && y.d == unit * 256);
    let e = lemma_binade_exists(24, x);
    if e >= -6 {
        lemma_tie_floor_coarse(best, e);
        assert(f.n * unit == b * f.d);
        assert((128 * b - unit) * f.d == 128 * (b * f.d) - unit * f.d) by (nonlinear_arith);
        lemma_positive_product(unit, f.d);
        if -0x4000 * unit <= b <= 0x4000 * unit {
            lemma_small_magnitude(best, e);
        }
    } else {
        lemma_rounded_near(24, x, e, 7);
        let r = rounded_up_from_zero(24, x);
        lemma2_to64();
        assert(pow2(7) == 128);
        lemma_signed_near(y, r, 128);
        assert(f.d == r.d && f.n == (if y.n < 0 {
            -r.n
        } else {
            r.n
        }));
        // -y.d f.d <= 256 (f.n y.d - y.n f.d) <= y.d f.d
        let off = f.n * y.d - y.n * f.d;
        assert(off == 256 * (f.n * unit) - 256 * (b * f.d) + unit * f.d) by (nonlinear_arith)
            requires
                off == f.n * y.d - y.n * f.d,
                y.n == b * 256 + (-1) * unit,
                y.d == unit * 256,
        ;
        assert(y.d * f.d == 256 * (unit * f.d)) by (nonlinear_arith)
            requires
                y.d == unit * 256,
        ;
        assert((128 * b - unit) * f.d == 128 * (b * f.d) - unit * f.d) by (nonlinear_arith);
        if -0x4000 * unit <= b <= 0x4000 * unit {
            lemma_small_magnitude(best, e);
            lemma_rounded_near(24, x, e, 9);
            assert(pow2(9) == 512);
            lemma_signed_near(y, r, 512);
            assert((1024 * b - 5 * unit) * f.d == 1024 * (b * f.d) - 5 * (unit * f.d))
                by (nonlinear_arith);
            assert((1024 * b - 3 * unit) * f.d == 1024 * (b * f.d) - 3 * (unit * f.d))
                by (nonlinear_arith);
        }
    }
}

proof fn lemma_signed_near(y: Ratio, r: Ratio, u: int)
    requires
        ({
            let x = magnitude(y);
            let off = r.n * x.d - x.n * r.d;
            -(x.d * r.d) <= 2 * u * off <= x.d * r.d
        }),
    ensures
        ({
            let f = signed(y.n < 0, r);
            let off = f.n * y.d - y.n * f.d;
            -(y.d * f.d) <= 2 * u * off <= y.d * f.d
        }),
{
    if y.n < 0 {
        let off = r.n * y.d - (-y.n) * r.d;
        assert((-r.n) * y.d - y.n * r.d == -off) by (nonlinear_arith)
            requires
                off == r.n * y.d - (-y.n) * r.d,
        ;
        assert(2 * u * (-off) == -(2 * u * off)) by (nonlinear_arith);
    }
}

proof fn lemma_small_magnitude(best: u32, e: int)
    requires
        is_finite(best),
        in_binade(24, magnitude(total(number(best), Ratio { n: -1, d: 256 })), e),
        -0x4000 * (pow2(149) as int) <= number(best).n <= 0x4000 * (pow2(149) as int),
    ensures
        e <= -9,
{
    let unit = pow2(149) as int;
    let b = number(best).n;
    let y = total(number(best), Ratio { n: -1, d: 256 });
    let x = magnitude(y);
    lemma_pow2_pos(149);
    lemma2_to64();
    assert(y.n == b * 256 + (-1) * unit && y.d == unit * 256);
    assert(x.n <= 0x40_0001 * unit);
    if e > -9 {
        let h = 0x80_0000int;
        if e >= 0 {
            let q = pow2(e as nat) as int;
            lemma_pow2_pos(e as nat);
            assert(h * ((unit * 256) * q) >= h * (unit * 256)) by (nonlinear_arith)
                requires
                    q >= 1,
                    unit > 0,
                    h > 0,
            {
                assert((unit * 256) * q >= unit * 256);
            }
        } else {
            let q = pow2((-e) as nat) as int;
            lemma_pow2_pos((-e) as nat);
            assert(q <= 256) by {
                if -e < 8 {
                    lemma_pow2_strictly_increases((-e) as nat, 8);
                }
            }
            assert(x.n * q <= (0x40_0001 * unit) * 256) by (nonlinear_arith)
                requires
                    0 <= x.n <= 0x40_0001 * unit,
                    0 < q <= 256,
                    unit > 0,
            ;
        }
        assert(false);
    }
}

/// In a row that holds a number and no plus infinity, the chosen score is a number, and
/// none of the row exceeds it by more than `1/128`: a score that lies further below the
/// greatest one is never chosen. Every number before it is exceeded by another one of the
/// row, and where no number of the row exceeds `2^14` in magnitude, by `3/1024` or more;
/// the chosen one is then exceeded by `5/1024` at most. Numbers are counted in units of
/// `2^-149`.
pub proof fn lemma_chosen_score_is_near_greatest(row: Seq<u32>, i: int)
    requires
        0 <= i < row.len(),
        is_finite(row[i]),
        !row.contains(0x7f80_0000u32),
    ensures
        ({
            let k = position_of_best(row);
            let unit = pow2(149) as int;
            let small = forall|j: int|
                0 <= j < row.len() && is_finite(#[trigger] row[j]) ==> -0x4000 * unit <= number(
                    row[j],
                ).n <= 0x4000 * unit;
            &&& 0 <= k < row.len() && is_finite(row[k])
            &&& 128 * (number(row[i]).n - number(row[k]).n) <= unit
            &&& small ==> 1024 * (number(row[i]).n - number(row[k]).n) <= 5 * unit
            &&& forall|j: int|
                0 <= j < k && is_finite(#[trigger] row[j]) ==> exists|g: int|
                    0 <= g < row.len() && is_finite(#[trigger] row[g]) && number(row[g]).n > number(
                        row[j],
                    ).n && (small ==> 1024 * (number(row[g]).n - number(row[j]).n) > 3 * unit)
        }),
{
    let k = position_of_best(row);
    let unit = pow2(149) as int;
    let best = best_score(row);
    lemma_pow2_pos(149);
    lemma_best_score_is_greatest(row);
    lemma_position_is_tied(row, i);
    assert(!exceeds(row[i], best));
    lemma_pattern_of_infinity(best);
    assert(row.contains(best));
    let g = choose|g: int| 0 <= g < row.len() && row[g] == best;
    assert(row[g] == best);
    assert(is_finite(best));
    lemma_tie_floor_near(best);
    let f = tie_floor(best);
    let v = row[k];
    assert(is_tied(v, best));
    lemma_pattern_of_infinity(v);
    assert(row.contains(v));
    assert(is_finite(v));
    let (b, vn, t) = (number(best).n, number(v).n, number(row[i]).n);
    assert(f.n * unit <= vn * f.d);
    assert(t <= b) by (nonlinear_arith)
        requires
            t * unit <= b * unit,
            unit > 0,
    ;
    assert(128 * b - unit <= 128 * vn) by (nonlinear_arith)
        requires
            (128 * b - unit) * f.d <= 128 * (f.n * unit),
            f.n * unit <= vn * f.d,
            f.d > 0,
    ;
    let small = forall|j: int|
        0 <= j < row.len() && is_finite(#[trigger] row[j]) ==> -0x4000 * unit <= number(row[j]).n
            <= 0x4000 * unit;
    if small {
        assert(-0x4000 * unit <= number(row[g]).n <= 0x4000 * unit);
        assert(1024 * b - 5 * unit <= 1024 * vn) by (nonlinear_arith)
            requires
                (1024 * b - 5 * unit) * f.d <= 1024 * (f.n * unit),
                f.n * unit <= vn * f.d,
                f.d > 0,
        ;
    }
    assert forall|j: int| 0 <= j < k && is_finite(#[trigger] row[j]) implies exists|g: int|
        0 <= g < row.len() && is_finite(#[trigger] row[g]) && number(row[g]).n > number(row[j]).n
            && (small ==> 1024 * (number(row[g]).n - number(row[j]).n) > 3 * unit) by {
        assert(!is_tied(row[j], best));
        let w = number(row[j]).n;
        assert(w * f.d < f.n * unit);
        assert(w < b) by (nonlinear_arith)
            requires
                w * f.d < f.n * unit,
                f.n * unit <= b * f.d,
                f.d > 0,
        ;
        if small {
            assert(1024 * w < 1024 * b - 3 * unit) by (nonlinear_arith)
                requires
                    w * f.d < f.n * unit,
                    1024 * (f.n * unit) <= (1024 * b - 3 * unit) * f.d,
                    f.d > 0,
            ;
        }
        assert(is_finite(row[g]) && number(row[g]).n == b);
    }
}

/// An infinity has one of two bit patterns.
proof fn lemma_pattern_of_infinity(b: u32)
    ensures
        is_infinite(b) <==> b == 0x7f80_0000u32 || b == NEGATIVE_INFINITY,
        is_negative(b) <==> b >= 0x8000_0000,
{
}

/// Where a row holds plus infinity, the first one is chosen. Where it holds neither plus
/// infinity nor a number, the first minus infinity is chosen, and the first place where
/// it holds nothing of the kind.
pub proof fn lemma_chosen_among_infinities(row: Seq<u32>)
    ensures
        ({
            let k = position_of_best(row);
            &&& row.contains(0x7f80_0000u32) ==> 0 <= k < row.len() && row[k] == 0x7f80_0000u32
                && forall|j: int| 0 <= j < k ==> #[trigger] row[j] != 0x7f80_0000u32
            &&& (forall|j: int| 0 <= j < row.len() ==> !is_finite(#[trigger] row[j]) && row[j]
                != 0x7f80_0000u32) && row.contains(0xff80_0000u32) ==> 0 <= k < row.len() && row[k]
                == 0xff80_0000u32 && forall|j: int|
                0 <= j < k ==> #[trigger] row[j] != 0xff80_0000u32
            &&& (forall|j: int| 0 <= j < row.len() ==> is_nan(#[trigger] row[j])) ==> k == 0
        }),
{
    let k = position_of_best(row);
    let best = best_score(row);
    lemma_best_score_is_greatest(row);
    lemma_pattern_of_infinity(best);
    if row.contains(0x7f80_0000u32) {
        let n = choose|n: int| 0 <= n < row.len() && row[n] == 0x7f80_0000u32;
        assert(!exceeds(row[n], best));
        lemma_pattern_of_infinity(row[n]);
        assert(best == 0x7f80_0000u32);
        lemma_position_is_tied(row, n);
        lemma_pattern_of_infinity(row[k]);
        assert forall|j: int| 0 <= j < k implies #[trigger] row[j] != 0x7f80_0000u32 by {
            assert(!is_tied(row[j], best));
        }
    }
    if (forall|j: int| 0 <= j < row.len() ==> !is_finite(#[trigger] row[j]) && row[j]
        != 0x7f80_0000u32) && row.contains(0xff80_0000u32) {
        let n = choose|n: int| 0 <= n < row.len() && row[n] == 0xff80_0000u32;
        if best != NEGATIVE_INFINITY {
            let g = choose|g: int| 0 <= g < row.len() && row[g] == best;
            assert(!is_finite(row[g]));
        }
        lemma_position_is_tied(row, n);
        lemma_pattern_of_infinity(row[k]);
        assert(is_tied(row[k], best));
        assert(!is_finite(row[k]));
        assert forall|j: int| 0 <= j < k implies #[trigger] row[j] != 0xff80_0000u32 by {
            assert(!is_tied(row[j], best));
        }
    }
    if forall|j: int| 0 <= j < row.len() ==> is_nan(#[trigger] row[j]) {
        assert forall|j: int| !is_first_tied(row, j) by {
            if is_first_tied(row, j) {
                assert(is_nan(row[j]));
            }
        }
    }
}

/// In a row that holds a number and no plus infinity, the chosen place is the first whose
/// score is not below the greatest score less `1/256`, that difference rounded to single
/// precision. The place of a greatest score is returned.
pub proof fn lemma_chosen_is_first_near_greatest(row: Seq<u32>, i: int) -> (g: int)
    requires
        0 <= i < row.len(),
        is_finite(row[i]),
        !row.contains(0x7f80_0000u32),
    ensures
        0 <= g < row.len(),
        is_finite(row[g]),
        forall|j: int|
            0 <= j < row.len() && is_finite(#[trigger] row[j]) ==> number(row[j]).n <= number(
                row[g],
            ).n,
        ({
            let k = position_of_best(row);
            let b = number(row[g]);
            let least = rounded(24, Ratio { n: 256 * b.n - b.d, d: 256 * b.d });
            &&& 0 <= k < row.len() && is_finite(row[k])
            &&& least.n * b.d <= number(row[k]).n * least.d
            &&& forall|j: int|
                0 <= j < k && is_finite(#[trigger] row[j]) ==> number(row[j]).n * least.d < least.n
                    * b.d
        }),
{
    let k = position_of_best(row);
    let unit = pow2(149) as int;
    let best = best_score(row);
    lemma_pow2_pos(149);
    lemma_best_score_is_greatest(row);
    lemma_position_is_tied(row, i);
    lemma_chosen_score_is_near_greatest(row, i);
    assert(!exceeds(row[i], best));
    lemma_pattern_of_infinity(best);
    assert(row.contains(best));
    let g = choose|g: int| 0 <= g < row.len() && row[g] == best;
    assert(row[g] == best && is_finite(best));
    let b = number(best);
    assert(total(b, Ratio { n: -1, d: 256 }) == (Ratio { n: 256 * b.n - b.d, d: 256 * b.d }));
    assert forall|j: int| 0 <= j < row.len() && is_finite(#[trigger] row[j]) implies number(
        row[j],
    ).n <= b.n by {
        assert(!exceeds(row[j], best));
        let w = number(row[j]).n;
        assert(w <= b.n) by (nonlinear_arith)
            requires
                w * unit <= b.n * unit,
                unit > 0,
        ;
    }
    assert forall|j: int| 0 <= j < k && is_finite(#[trigger] row[j]) implies !at_most(
        tie_floor(best),
        number(row[j]),
    ) by {
        assert(!is_tied(row[j], best));
    }
    g
}

/// The numbers of bit patterns, in units of `2^-149`: zero has the pattern zero, every next
/// pattern is further away by one unit, and by twice as many with every `2^23` patterns
/// after the second such range; the highest bit turns the sign round.
pub proof fn lemma_patterns_count_up(b: u32)
    requires
        b < 0x7f7f_ffff,
    ensures
        number(0).n == 0,
        number(b).d == pow2(149),
        number((b + 1) as u32).n - number(b).n == pow2(
            (if b < 0x80_0000 {
                0
            } else {
                b as int / 0x80_0000 - 1
            }) as nat,
        ),
        number((b + 0x8000_0000) as u32).n == -number(b).n,
{
    lemma2_to64();
    let c = (b + 1) as u32;
    let field = exponent_field(b);
    let fraction = fraction_field(b);
    assert(field == b as int / 0x80_0000 && fraction == b as int % 0x80_0000);
    let m = (b + 0x8000_0000) as u32;
    assert(exponent_field(m) == field && fraction_field(m) == fraction);
    if fraction < 0x7f_ffff {
        assert(exponent_field(c) == field && fraction_field(c) == fraction + 1);
        if field > 0 {
            let p = pow2((field - 1) as nat) as int;
            assert((0x80_0000 + (fraction + 1)) * p == (0x80_0000 + fraction) * p + p)
                by (nonlinear_arith);
        }
    } else {
        assert(exponent_field(c) == field + 1 && fraction_field(c) == 0);
        if field > 0 {
            let p = pow2((field - 1) as nat) as int;
            lemma_pow2_unfold(field as nat);
            assert((0x80_0000 + 0) * (2 * p) == (0x80_0000 + fraction) * p + p) by (nonlinear_arith)
                requires
                    fraction == 0x7f_ffff,
            ;
        } else {
            assert((0x80_0000 + 0) * 1 == 0x7f_ffff + 1);
            assert(pow2(0) == 1);
        }
    }
}

/// The greater of two numbers is the one with more units; what is no number is neither
/// greater nor less; plus infinity exceeds, and minus infinity is exceeded by, everything
/// else that is a number or an infinity.
pub proof fn lemma_greater_is_greater(a: u32, b: u32)
    ensures
        is_finite(a) && is_finite(b) ==> exceeds(a, b) == (number(a).n > number(b).n),
        is_nan(a) || is_nan(b) ==> !exceeds(a, b),
        a == 0x7f80_0000u32 && !is_nan(b) ==> exceeds(a, b) == (b != a),
        b == 0xff80_0000u32 && !is_nan(a) ==> exceeds(a, b) == (b != a),
        b == 0x7f80_0000u32 ==> !exceeds(a, b),
        a == 0xff80_0000u32 ==> !exceeds(a, b),
{
    lemma_pow2_pos(149);
    let unit = pow2(149) as int;
    let (x, y) = (number(a).n, number(b).n);
    assert(x * unit <= y * unit <==> x <= y) by (nonlinear_arith)
        requires
            unit > 0,
    ;
    lemma_pattern_of_infinity(a);
    lemma_pattern_of_infinity(b);
}

} // verus!

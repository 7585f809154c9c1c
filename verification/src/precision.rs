//! How close the times computed in floating point lie to the exact ones.

use crate::binary32::{is_finite, is_negative, number, scaled_integer, units};
use crate::binary64::{lemma_cancel, lemma_scale, lemma_small_is_exact, thousandth};
use crate::rounding::{
    Ratio, dyadic, lemma_dyadic_positive, lemma_floor_bounds, lemma_nonnegative_product,
    lemma_positive_product, lemma_rounded_error, lemma_rounded_error_below, lemma_rounded_exact,
    lemma_rounded_positive, lemma_rounded_whole,
    lemma_same_product, lemma_signed_rounded_equal, lemma_signed_rounded_positive,
    lemma_truncated_whole, product, quotient, rounded, rounded_up_from_zero, same, saturated, signed,
    truncated, whole,
};
use vstd::arithmetic::power2::{lemma2_to64, lemma2_to64_rest, lemma_pow2_pos, pow2};
use vstd::prelude::*;

verus! {

/// Both bounds of the error of a rounding, without fractions.
proof fn lemma_rounded_bounds(bits: nat, x: Ratio)
    requires
        bits >= 2,
        x.n >= 0,
        x.d > 0,
    ensures
        ({
            let t = pow2(bits) as int;
            let r = rounded_up_from_zero(bits, x);
            &&& r.d > 0 && r.n >= 0
            &&& (x.n * (t - 1)) * r.d <= r.n * (x.d * t)
            &&& r.n * (x.d * t) <= (x.n * (t + 1)) * r.d
        }),
{
    lemma_rounded_error(bits, x);
    lemma_rounded_error_below(bits, x);
    lemma_rounded_positive(bits, x);
}

/// A whole number that is rounded, multiplied and rounded again is off by three parts in
/// `2^bits` at most.
proof fn lemma_two_roundings(bits: nat, v: int, f: Ratio, r: Ratio, w: Ratio)
    requires
        bits >= 4,
        v >= 0,
        f.n >= 0,
        f.d > 0,
        r == rounded_up_from_zero(bits, whole(v)),
        w == rounded_up_from_zero(bits, product(r, f)),
    ensures
        ({
            let t = pow2(bits) as int;
            &&& w.d > 0 && w.n >= 0
            &&& (w.n * f.d) * t <= ((v * f.n) * w.d) * (t + 3)
            &&& ((v * f.n) * w.d) * (t - 3) <= (w.n * f.d) * t
        }),
{
    let t = pow2(bits) as int;
    lemma2_to64();
    assert(t >= 16) by {
        if bits > 4 {
            vstd::arithmetic::power2::lemma_pow2_strictly_increases(4, bits);
        }
    }
    lemma_rounded_bounds(bits, whole(v));
    let p = product(r, f);
    lemma_nonnegative_product(r.n, f.n);
    lemma_positive_product(r.d, f.d);
    lemma_rounded_bounds(bits, p);
    assert(1 * t == t);
    let (u, l) = (t + 1, t - 1);
    // From above.
    lemma_scale(w.n * ((r.d * f.d) * t), ((r.n * f.n) * u) * w.d, t);
    let z = (f.n * u) * w.d;
    lemma_nonnegative_product(f.n, u);
    lemma_nonnegative_product(f.n * u, w.d);
    lemma_scale(r.n * t, (v * u) * r.d, z);
    assert((((r.n * f.n) * u) * w.d) * t == (r.n * t) * z) by (nonlinear_arith)
        requires
            z == (f.n * u) * w.d,
    ;
    assert((w.n * ((r.d * f.d) * t)) * t == (((w.n * f.d) * t) * t) * r.d) by (nonlinear_arith);
    assert(((v * u) * r.d) * z == ((v * u) * z) * r.d) by (nonlinear_arith);
    lemma_cancel(((w.n * f.d) * t) * t, (v * u) * z, r.d);
    let e = (v * f.n) * w.d;
    lemma_nonnegative_product(v, f.n);
    lemma_nonnegative_product(v * f.n, w.d);
    assert((v * u) * z == e * (u * u)) by (nonlinear_arith)
        requires
            z == (f.n * u) * w.d,
            e == (v * f.n) * w.d,
    ;
    assert(u * u <= (t + 3) * t) by (nonlinear_arith)
        requires
            u == t + 1,
            t >= 1,
    ;
    lemma_scale(u * u, (t + 3) * t, e);
    assert((u * u) * e == e * (u * u)) by (nonlinear_arith);
    assert(((t + 3) * t) * e == (e * (t + 3)) * t) by (nonlinear_arith);
    lemma_cancel((w.n * f.d) * t, e * (t + 3), t);
    // From below.
    lemma_scale(((r.n * f.n) * l) * w.d, w.n * ((r.d * f.d) * t), t);
    let y = (f.n * l) * w.d;
    lemma_nonnegative_product(f.n, l);
    lemma_nonnegative_product(f.n * l, w.d);
    lemma_scale((v * l) * r.d, r.n * t, y);
    assert((((r.n * f.n) * l) * w.d) * t == (r.n * t) * y) by (nonlinear_arith)
        requires
            y == (f.n * l) * w.d,
    ;
    assert(((v * l) * r.d) * y == ((v * l) * y) * r.d) by (nonlinear_arith);
    lemma_cancel((v * l) * y, ((w.n * f.d) * t) * t, r.d);
    assert((v * l) * y == e * (l * l)) by (nonlinear_arith)
        requires
            y == (f.n * l) * w.d,
            e == (v * f.n) * w.d,
    ;
    assert((t - 3) * t <= l * l) by (nonlinear_arith)
        requires
            l == t - 1,
            t >= 1,
    ;
    lemma_scale((t - 3) * t, l * l, e);
    assert((l * l) * e == e * (l * l)) by (nonlinear_arith);
    assert(((t - 3) * t) * e == (e * (t - 3)) * t) by (nonlinear_arith);
    lemma_cancel(e * (t - 3), (w.n * f.d) * t, t);
}

/// A time in seconds is a thousandth of the time in milliseconds, but for one part in
/// `2^51`: a thousand times it lies that close to the milliseconds.
pub proof fn lemma_thousandth_near(milliseconds: int, time: Ratio)
    requires
        time.d > 0,
        same(time, thousandth(milliseconds)),
    ensures
        ({
            let off = 1000 * time.n - milliseconds * time.d;
            let size = if milliseconds >= 0 {
                milliseconds
            } else {
                -milliseconds
            };
            -(size * time.d) <= off * pow2(51) <= size * time.d
        }),
{
    let size = if milliseconds >= 0 {
        milliseconds
    } else {
        -milliseconds
    };
    let part = Ratio { n: 1, d: 1000 };
    let r = rounded_up_from_zero(53, whole(size));
    lemma_rounded_positive(53, whole(size));
    let p = product(r, part);
    assert(p.n == r.n * 1 && p.d == r.d * 1000);
    let w = rounded_up_from_zero(53, p);
    lemma_two_roundings(53, size, part, r, w);
    let q = thousandth(milliseconds);
    assert(q == signed(milliseconds < 0, w)) by {
        let m = rounded(53, whole(milliseconds));
        assert(m == signed(milliseconds < 0, r));
        let z = quotient(m, whole(1000));
        assert(z.n == m.n * 1 && z.d == m.d * 1000);
        assert(z == signed(milliseconds < 0, p));
        if milliseconds < 0 {
            lemma_signed_rounded_positive(53, whole(milliseconds));
        }
    }
    let t = pow2(53) as int;
    vstd::arithmetic::power2::lemma_pow2_adds(51, 2);
    lemma2_to64();
    lemma2_to64_rest();
    let h = pow2(51) as int;
    assert(t == 4 * h);
    let (found, exact) = (1000 * w.n, size * w.d);
    assert((w.n * 1000) * t <= ((size * 1) * w.d) * (t + 3));
    assert(((size * 1) * w.d) * (t - 3) <= (w.n * 1000) * t);
    lemma_nonnegative_product(size, w.d);
    assert(found * t <= exact * (t + 3) && exact * (t - 3) <= found * t);
    assert((found - exact) * h <= exact && (exact - found) * h <= exact) by (nonlinear_arith)
        requires
            found * t <= exact * (t + 3),
            exact * (t - 3) <= found * t,
            t == 4 * h,
            exact >= 0,
    ;
    // The same holds of every fraction for the same number.
    let off = 1000 * time.n - milliseconds * time.d;
    let d = if milliseconds < 0 {
        exact - found
    } else {
        found - exact
    };
    assert(off * w.d == d * time.d) by (nonlinear_arith)
        requires
            off == 1000 * time.n - milliseconds * time.d,
            time.n * w.d == (if milliseconds < 0 {
                -w.n
            } else {
                w.n
            }) * time.d,
            found == 1000 * w.n,
            exact == size * w.d,
            size == (if milliseconds < 0 {
                -milliseconds
            } else {
                milliseconds
            }),
            d == (if milliseconds < 0 {
                exact - found
            } else {
                found - exact
            }),
    ;
    assert((off * h) * w.d == (d * h) * time.d) by (nonlinear_arith)
        requires
            off * w.d == d * time.d,
    ;
    assert((d * h) * time.d <= exact * time.d && (d * h) * time.d >= -(exact * time.d))
        by (nonlinear_arith)
        requires
            -exact <= d * h <= exact,
            time.d > 0,
    ;
    assert(exact * time.d == (size * time.d) * w.d) by (nonlinear_arith)
        requires
            exact == size * w.d,
    ;
    assert((-(size * time.d)) * w.d == -(exact * time.d)) by (nonlinear_arith)
        requires
            exact == size * w.d,
    ;
    lemma_cancel(off * h, size * time.d, w.d);
    lemma_cancel(-(size * time.d), off * h, w.d);
}

/// A step number times the duration of a step, where that is not negative and the time is
/// below `2^62`, is off by three parts in `2^24` and one more for what is dropped: the time
/// exceeds the exact one by the first at most, and falls short of it by both at most.
pub proof fn lemma_scaled_near(id: int, step: u32)
    requires
        id >= 0,
        is_finite(step),
        !is_negative(step),
        id * number(step).n <= 0x4000_0000_0000_0000 * number(step).d,
    ensures
        ({
            let s = number(step);
            let off = scaled_integer(id, step) * s.d - id * s.n;
            &&& s.d == pow2(149)
            &&& off * 0x100_0000 <= 3 * (id * s.n)
            &&& -off * 0x100_0000 <= 3 * (id * s.n) + 0x100_0000 * s.d
        }),
{
    let s = number(step);
    lemma_pow2_pos(149);
    lemma_units_positive(step);
    let r = rounded_up_from_zero(24, whole(id));
    lemma_rounded_positive(24, whole(id));
    let p = product(r, s);
    lemma_nonnegative_product(r.n, s.n);
    let w = rounded_up_from_zero(24, p);
    lemma_two_roundings(24, id, s, r, w);
    lemma2_to64();
    let t = 0x100_0000int;
    assert(pow2(24) == t);
    let v = w.n / w.d;
    lemma_floor_bounds(w);
    assert(v >= 0) by (nonlinear_arith)
        requires
            w.n >= 0,
            w.d > 0,
            v == w.n / w.d,
    ;
    let exact = id * s.n;
    lemma_nonnegative_product(id, s.n);
    // Over the common denominator.
    assert((v * s.d) * w.d <= w.n * s.d && w.n * s.d <= (v * s.d) * w.d + s.d * w.d)
        by (nonlinear_arith)
        requires
            v * w.d <= w.n < (v + 1) * w.d,
            s.d > 0,
    {
        assert((v * w.d) * s.d <= w.n * s.d);
        assert(w.n * s.d <= ((v + 1) * w.d) * s.d);
        assert(((v + 1) * w.d) * s.d == (v * s.d) * w.d + s.d * w.d);
    }
    let found = w.n * s.d;
    let whole_part = (v * s.d) * w.d;
    let e = exact * w.d;
    assert(found * t <= e * (t + 3) && e * (t - 3) <= found * t);
    let off = v * s.d - exact;
    assert(off * w.d == whole_part - e) by (nonlinear_arith)
        requires
            off == v * s.d - exact,
            whole_part == (v * s.d) * w.d,
            e == exact * w.d,
    ;
    assert((off * t) * w.d == t * (off * w.d)) by (nonlinear_arith);
    assert((3 * exact) * w.d == 3 * e) by (nonlinear_arith)
        requires
            e == exact * w.d,
    ;
    assert(found * t <= e * t + 3 * e && e * t - 3 * e <= found * t);
    lemma_cancel(off * t, 3 * exact, w.d);
    let gap = s.d * w.d;
    assert((-off * t) * w.d == -(t * (off * w.d))) by (nonlinear_arith);
    assert((3 * exact + t * s.d) * w.d == 3 * e + t * gap) by (nonlinear_arith)
        requires
            e == exact * w.d,
            gap == s.d * w.d,
    ;
    lemma_cancel(-off * t, 3 * exact + t * s.d, w.d);
    // The time is within the range.
    assert(v <= 0x4000_0000_0000_0000 * 2) by (nonlinear_arith)
        requires
            off == v * s.d - exact,
            off * t <= 3 * exact,
            exact <= 0x4000_0000_0000_0000 * s.d,
            t == 0x100_0000,
            s.d > 0,
            exact >= 0,
    {
        assert(off <= exact);
        assert(v * s.d <= 2 * exact);
    }
    assert(v < 0x7000_0000_0000_0000) by (nonlinear_arith)
        requires
            off == v * s.d - exact,
            off * t <= 3 * exact,
            exact <= 0x4000_0000_0000_0000 * s.d,
            t == 0x100_0000,
            s.d > 0,
            exact >= 0,
    {
        assert(4 * off <= exact);
        assert(4 * (v * s.d) <= 5 * exact);
        assert(4 * (v * s.d) <= 5 * (0x4000_0000_0000_0000 * s.d));
    }
    assert(truncated(rounded(24, product(rounded(24, whole(id)), s))) == v);
}

proof fn lemma_units_positive(step: u32)
    ensures
        units(step) >= 0,
{
    let field = crate::binary32::exponent_field(step);
    if field > 0 {
        lemma_pow2_pos((field - 1) as nat);
        lemma_nonnegative_product(
            0x80_0000 + crate::binary32::fraction_field(step),
            pow2((field - 1) as nat) as int,
        );
    }
}

/// Where the duration of a step is a whole number, times below `2^24` are counted out
/// exactly.
pub proof fn lemma_whole_steps_are_exact(id: int, step: u32, duration: int)
    requires
        0 <= id < 0x100_0000,
        is_finite(step),
        number(step).n == duration * number(step).d,
        0 <= id * duration < 0x100_0000,
        duration >= 0,
    ensures
        scaled_integer(id, step) == id * duration,
{
    let x = number(step);
    lemma2_to64();
    lemma_pow2_pos(149);
    let v = id * duration;
    assert(same(x, whole(duration))) by {
        assert(x.n * 1 == duration * x.d);
    }
    let r = rounded(24, whole(id));
    lemma_rounded_whole(24, id);
    lemma_rounded_positive(24, whole(id));
    assert(same(r, whole(id)));
    lemma_same_product(r, whole(id), x, whole(duration));
    assert(product(whole(id), whole(duration)) == whole(v));
    lemma_positive_product(r.d, x.d);
    lemma_signed_rounded_equal(24, product(r, x), whole(v));
    lemma_rounded_whole(24, v);
    lemma_rounded_positive(24, whole(v));
    lemma_truncated_whole(rounded(24, whole(v)), v);
}

/// A step number below zero counts as far back as the same number above zero counts
/// forward, unless that leaves the range.
pub proof fn lemma_steps_back(id: int, step: u32)
    requires
        i64::MIN < scaled_integer(id, step) < i64::MAX,
    ensures
        scaled_integer(-id, step) == -scaled_integer(id, step),
{
    if is_finite(step) {
        let s = number(step);
        lemma_pow2_pos(149);
        let r = rounded(24, whole(id));
        let q = rounded(24, whole(-id));
        lemma_signed_rounded_positive(24, whole(id));
        lemma_signed_rounded_positive(24, whole(-id));
        assert(q.n == -r.n && q.d == r.d);
        let (p, m) = (product(r, s), product(q, s));
        assert((-r.n) * s.n == -(r.n * s.n)) by (nonlinear_arith);
        assert(m.n == -p.n && m.d == p.d);
        lemma_positive_product(r.d, s.d);
        let (w, x) = (rounded(24, p), rounded(24, m));
        assert(x.n == -w.n && x.d == w.d);
        lemma_signed_rounded_positive(24, p);
        assert(0int / w.d == 0) by (nonlinear_arith)
            requires
                w.d > 0,
        ;
        assert(truncated(x) == -truncated(w));
    }
}

/// Rounding to `bits` significant bits changes a number by one part in `2^bits` at most,
/// keeps its sign, and leaves a number alone that has so many bits already.
pub proof fn lemma_rounding_is_close(bits: nat, x: Ratio, m: int, e: int)
    requires
        2 <= bits <= 500,
        x.d > 0,
        0 <= m < pow2(bits),
        -500 <= e <= 500,
    ensures
        ({
            let r = rounded(bits, x);
            let off = r.n * x.d - x.n * r.d;
            let size = (if x.n >= 0 {
                x.n
            } else {
                -x.n
            }) * r.d;
            &&& r.d > 0
            &&& -size <= off * pow2(bits) <= size
            &&& (x.n > 0) == (r.n > 0) && (x.n < 0) == (r.n < 0)
        }),
        same(rounded(bits, dyadic(m, e)), dyadic(m, e)),
{
    let t = pow2(bits) as int;
    let r = rounded(bits, x);
    lemma_signed_rounded_positive(bits, x);
    let size = if x.n >= 0 {
        x.n
    } else {
        -x.n
    };
    lemma_rounded_bounds(bits, Ratio { n: size, d: x.d });
    let q = rounded_up_from_zero(bits, Ratio { n: size, d: x.d });
    assert(r == signed(x.n < 0, q));
    let off = r.n * x.d - x.n * r.d;
    assert(-(size * q.d) <= off * t <= size * q.d) by (nonlinear_arith)
        requires
            (size * (t - 1)) * q.d <= q.n * (x.d * t),
            q.n * (x.d * t) <= (size * (t + 1)) * q.d,
            r.d == q.d,
            (x.n == size && r.n == q.n) || (x.n == -size && r.n == -q.n),
            off == r.n * x.d - x.n * r.d,
    {
        let e = size * q.d;
        assert((size * (t - 1)) * q.d == e * t - e);
        assert((size * (t + 1)) * q.d == e * t + e);
        assert(q.n * (x.d * t) == (q.n * x.d) * t);
        if x.n == size && r.n == q.n {
            assert(off == q.n * x.d - e);
            assert(off * t == (q.n * x.d) * t - e * t);
        } else {
            assert((-size) * q.d == -e);
            assert((-q.n) * x.d == -(q.n * x.d));
            assert(off == e - q.n * x.d);
            assert(off * t == e * t - (q.n * x.d) * t);
        }
    }
    lemma_rounded_exact(bits, m, e);
    lemma_dyadic_positive(m, e);
}

/// Dropping the fractional part brings a number closer to zero, by less than one, and
/// keeping it in the range changes it only where it lies outside.
pub proof fn lemma_fraction_is_dropped(x: Ratio, v: int)
    requires
        x.d > 0,
    ensures
        x.n >= 0 ==> truncated(x) * x.d <= x.n < (truncated(x) + 1) * x.d,
        x.n < 0 ==> (truncated(x) - 1) * x.d < x.n <= truncated(x) * x.d,
        i64::MIN <= v <= i64::MAX ==> saturated(v) == v,
        v > i64::MAX ==> saturated(v) == i64::MAX,
        v < i64::MIN ==> saturated(v) == i64::MIN,
{
    if x.n >= 0 {
        lemma_floor_bounds(x);
    } else {
        let y = Ratio { n: -x.n, d: x.d };
        lemma_floor_bounds(y);
        let q = y.n / y.d;
        assert((-q - 1) * x.d == -((q + 1) * x.d)) by (nonlinear_arith);
        assert((-q) * x.d == -(q * x.d)) by (nonlinear_arith);
    }
}

/// Up to `2^53` milliseconds, the time in seconds is off by one part in `2^53` at most.
pub proof fn lemma_thousandth_is_closest(milliseconds: int, time: Ratio)
    requires
        time.d > 0,
        same(time, thousandth(milliseconds)),
        -0x20_0000_0000_0000 <= milliseconds <= 0x20_0000_0000_0000,
    ensures
        ({
            let off = 1000 * time.n - milliseconds * time.d;
            let size = if milliseconds >= 0 {
                milliseconds
            } else {
                -milliseconds
            };
            -(size * time.d) <= off * pow2(53) <= size * time.d
        }),
{
    lemma2_to64();
    lemma2_to64_rest();
    lemma_small_is_exact(milliseconds);
    let r = rounded(53, whole(milliseconds));
    lemma_signed_rounded_positive(53, whole(milliseconds));
    let x = Ratio { n: milliseconds, d: 1000 };
    let z = quotient(r, whole(1000));
    assert(same(z, x)) by {
        assert((r.n * 1) * 1000 == milliseconds * (r.d * 1000)) by (nonlinear_arith)
            requires
                r.n * 1 == milliseconds * r.d,
        ;
    }
    lemma_signed_rounded_equal(53, z, x);
    lemma_rounding_is_close(53, x, 0, 0);
    let q = rounded(53, x);
    let t = pow2(53) as int;
    let size = if milliseconds >= 0 {
        milliseconds
    } else {
        -milliseconds
    };
    let off = 1000 * time.n - milliseconds * time.d;
    let d = q.n * 1000 - milliseconds * q.d;
    assert(-(size * q.d) <= d * t <= size * q.d);
    assert(off * q.d == d * time.d) by (nonlinear_arith)
        requires
            off == 1000 * time.n - milliseconds * time.d,
            d == q.n * 1000 - milliseconds * q.d,
            time.n * q.d == q.n * time.d,
    ;
    assert((off * t) * q.d == (d * t) * time.d) by (nonlinear_arith)
        requires
            off * q.d == d * time.d,
    ;
    assert((d * t) * time.d <= (size * time.d) * q.d && (d * t) * time.d >= (-(size * time.d)) * q.d)
        by (nonlinear_arith)
        requires
            -(size * q.d) <= d * t <= size * q.d,
            time.d > 0,
    ;
    lemma_cancel(off * t, size * time.d, q.d);
    lemma_cancel(-(size * time.d), off * t, q.d);
}

} // verus!

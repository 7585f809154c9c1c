//! How close interpolated points lie to the exact ones.

use crate::binary64::{interpolated, lemma_cancel, lemma_scale, lemma_small_is_exact};
use crate::rounding::{
    Ratio, lemma_floor_bounds, lemma_nonnegative_product, lemma_positive_product,
    lemma_rounded_error, lemma_rounded_error_below, lemma_rounded_positive, lemma_same_product,
    lemma_same_quotient, lemma_same_total, lemma_same_transitive, lemma_signed_rounded_equal,
    lemma_signed_rounded_positive, lemma_truncated_whole, product, quotient, rounded,
    rounded_up_from_zero, same, saturated, total, truncated, whole,
};
use vstd::arithmetic::power2::{lemma2_to64_rest, pow2};
use vstd::prelude::*;

verus! {

/// `2^53`.
spec fn precision() -> int {
    0x20_0000_0000_0000
}

/// Both bounds of the error of a rounding, without fractions.
proof fn lemma_rounded_bounds(x: Ratio)
    requires
        x.n >= 0,
        x.d > 0,
    ensures
        ({
            let t = precision();
            let r = rounded_up_from_zero(53, x);
            &&& r.d > 0 && r.n >= 0
            &&& (x.n * (t - 1)) * r.d <= r.n * (x.d * t)
            &&& r.n * (x.d * t) <= (x.n * (t + 1)) * r.d
        }),
{
    lemma2_to64_rest();
    assert(pow2(53) == precision());
    lemma_rounded_error(53, x);
    lemma_rounded_error_below(53, x);
    lemma_rounded_positive(53, x);
}

/// The upper bound of the offset of point `j` among `n - 1` over a span of `a`.
proof fn lemma_offset_above(
    a: int,
    n: int,
    j: int,
    rn: Ratio,
    rj: Ratio,
    s: Ratio,
    o: Ratio,
    t: int,
)
    requires
        a >= 0 && n > 0 && j >= 0 && t > 8,
        rn.n > 0 && rn.d > 0 && rj.n >= 0 && rj.d > 0 && s.n >= 0 && s.d > 0 && o.n >= 0 && o.d > 0,
        (n * (t - 1)) * rn.d <= rn.n * t,
        rj.n * t <= (j * (t + 1)) * rj.d,
        s.n * (rn.n * t) <= ((a * rn.d) * (t + 1)) * s.d,
        o.n * ((s.d * rj.d) * t) <= ((s.n * rj.n) * (t + 1)) * o.d,
    ensures
        (n * o.n) * (t - 1) <= ((a * j) * o.d) * (t + 4),
{
    let u = t + 1;
    // The step.
    let w = rn.n * t;
    lemma_positive_product(rn.n, t);
    lemma_scale(o.n * ((s.d * rj.d) * t), ((s.n * rj.n) * u) * o.d, w);
    let z = (rj.n * u) * o.d;
    lemma_nonnegative_product(rj.n, u);
    lemma_nonnegative_product(rj.n * u, o.d);
    lemma_scale(s.n * w, ((a * rn.d) * u) * s.d, z);
    assert((((s.n * rj.n) * u) * o.d) * w == (s.n * w) * z) by (nonlinear_arith)
        requires
            z == (rj.n * u) * o.d,
    ;
    assert((o.n * ((s.d * rj.d) * t)) * w == (((o.n * rj.d) * t) * w) * s.d) by (nonlinear_arith);
    assert((((a * rn.d) * u) * s.d) * z == (((a * rn.d) * u) * z) * s.d) by (nonlinear_arith);
    lemma_cancel(((o.n * rj.d) * t) * w, ((a * rn.d) * u) * z, s.d);
    // The index.
    lemma_scale(((o.n * rj.d) * t) * w, ((a * rn.d) * u) * z, t);
    let v = (((a * rn.d) * u) * u) * o.d;
    lemma_nonnegative_product(a, rn.d);
    lemma_nonnegative_product(a * rn.d, u);
    lemma_nonnegative_product((a * rn.d) * u, u);
    lemma_nonnegative_product(((a * rn.d) * u) * u, o.d);
    lemma_scale(rj.n * t, (j * u) * rj.d, v);
    assert((((a * rn.d) * u) * z) * t == (rj.n * t) * v) by (nonlinear_arith)
        requires
            z == (rj.n * u) * o.d,
            v == (((a * rn.d) * u) * u) * o.d,
    ;
    assert((((o.n * rj.d) * t) * w) * t == (((o.n * t) * w) * t) * rj.d) by (nonlinear_arith);
    assert(((j * u) * rj.d) * v == ((j * u) * v) * rj.d) by (nonlinear_arith);
    lemma_cancel(((o.n * t) * w) * t, (j * u) * v, rj.d);
    // The number of intervals.
    let y = (o.n * t) * t;
    lemma_nonnegative_product(o.n, t);
    lemma_nonnegative_product(o.n * t, t);
    lemma_scale((n * (t - 1)) * rn.d, w, y);
    assert(((o.n * t) * w) * t == w * y) by (nonlinear_arith)
        requires
            y == (o.n * t) * t,
    ;
    assert(((n * (t - 1)) * rn.d) * y == ((n * (t - 1)) * y) * rn.d) by (nonlinear_arith);
    let c = ((a * j) * o.d) * ((u * u) * u);
    assert((j * u) * v == c * rn.d) by (nonlinear_arith)
        requires
            v == (((a * rn.d) * u) * u) * o.d,
            c == ((a * j) * o.d) * ((u * u) * u),
    ;
    lemma_cancel((n * (t - 1)) * y, c, rn.d);
    // (t + 1)^3 <= t^2 (t + 4)
    let square = t * t;
    assert((u * u) * u <= square * (t + 4)) by (nonlinear_arith)
        requires
            u == t + 1,
            square == t * t,
            t > 8,
    {
        assert((u * u) * u == square * t + 3 * square + 3 * t + 1);
        assert(square * (t + 4) == square * t + 4 * square);
        assert(square >= 8 * t);
    }
    lemma_nonnegative_product(a, j);
    lemma_nonnegative_product(a * j, o.d);
    lemma_scale((u * u) * u, square * (t + 4), (a * j) * o.d);
    assert(((u * u) * u) * ((a * j) * o.d) == c) by (nonlinear_arith)
        requires
            c == ((a * j) * o.d) * ((u * u) * u),
    ;
    assert((square * (t + 4)) * ((a * j) * o.d) == (((a * j) * o.d) * (t + 4)) * square)
        by (nonlinear_arith);
    assert((n * (t - 1)) * y == ((n * o.n) * (t - 1)) * square) by (nonlinear_arith)
        requires
            y == (o.n * t) * t,
            square == t * t,
    ;
    lemma_positive_product(t, t);
    lemma_cancel((n * o.n) * (t - 1), ((a * j) * o.d) * (t + 4), square);
}

/// The lower bound of the offset of point `j` among `n - 1` over a span of `a`.
proof fn lemma_offset_below(
    a: int,
    n: int,
    j: int,
    rn: Ratio,
    rj: Ratio,
    s: Ratio,
    o: Ratio,
    t: int,
)
    requires
        a >= 0 && n > 0 && j >= 0 && t > 8,
        rn.n > 0 && rn.d > 0 && rj.n >= 0 && rj.d > 0 && s.n >= 0 && s.d > 0 && o.n >= 0 && o.d > 0,
        rn.n * t <= (n * (t + 1)) * rn.d,
        (j * (t - 1)) * rj.d <= rj.n * t,
        ((a * rn.d) * (t - 1)) * s.d <= s.n * (rn.n * t),
        ((s.n * rj.n) * (t - 1)) * o.d <= o.n * ((s.d * rj.d) * t),
    ensures
        ((a * j) * o.d) * (t - 3) <= (n * o.n) * (t + 1),
{
    let u = t - 1;
    // The step.
    let w = rn.n * t;
    lemma_positive_product(rn.n, t);
    lemma_scale(((s.n * rj.n) * u) * o.d, o.n * ((s.d * rj.d) * t), w);
    let z = (rj.n * u) * o.d;
    lemma_nonnegative_product(rj.n, u);
    lemma_nonnegative_product(rj.n * u, o.d);
    lemma_scale(((a * rn.d) * u) * s.d, s.n * w, z);
    assert((((s.n * rj.n) * u) * o.d) * w == (s.n * w) * z) by (nonlinear_arith)
        requires
            z == (rj.n * u) * o.d,
    ;
    assert((o.n * ((s.d * rj.d) * t)) * w == (((o.n * rj.d) * t) * w) * s.d) by (nonlinear_arith);
    assert((((a * rn.d) * u) * s.d) * z == (((a * rn.d) * u) * z) * s.d) by (nonlinear_arith);
    lemma_cancel(((a * rn.d) * u) * z, ((o.n * rj.d) * t) * w, s.d);
    // The index.
    lemma_scale(((a * rn.d) * u) * z, ((o.n * rj.d) * t) * w, t);
    let v = (((a * rn.d) * u) * u) * o.d;
    lemma_nonnegative_product(a, rn.d);
    lemma_nonnegative_product(a * rn.d, u);
    lemma_nonnegative_product((a * rn.d) * u, u);
    lemma_nonnegative_product(((a * rn.d) * u) * u, o.d);
    lemma_scale((j * u) * rj.d, rj.n * t, v);
    assert((((a * rn.d) * u) * z) * t == (rj.n * t) * v) by (nonlinear_arith)
        requires
            z == (rj.n * u) * o.d,
            v == (((a * rn.d) * u) * u) * o.d,
    ;
    assert((((o.n * rj.d) * t) * w) * t == (((o.n * t) * w) * t) * rj.d) by (nonlinear_arith);
    assert(((j * u) * rj.d) * v == ((j * u) * v) * rj.d) by (nonlinear_arith);
    lemma_cancel((j * u) * v, ((o.n * t) * w) * t, rj.d);
    // The number of intervals.
    let y = (o.n * t) * t;
    lemma_nonnegative_product(o.n, t);
    lemma_nonnegative_product(o.n * t, t);
    lemma_scale(w, (n * (t + 1)) * rn.d, y);
    assert(((o.n * t) * w) * t == w * y) by (nonlinear_arith)
        requires
            y == (o.n * t) * t,
    ;
    assert(((n * (t + 1)) * rn.d) * y == ((n * (t + 1)) * y) * rn.d) by (nonlinear_arith);
    let c = ((a * j) * o.d) * ((u * u) * u);
    assert((j * u) * v == c * rn.d) by (nonlinear_arith)
        requires
            v == (((a * rn.d) * u) * u) * o.d,
            c == ((a * j) * o.d) * ((u * u) * u),
    ;
    lemma_cancel(c, (n * (t + 1)) * y, rn.d);
    // (t - 1)^3 >= t^2 (t - 3)
    let square = t * t;
    assert(square * (t - 3) <= (u * u) * u) by (nonlinear_arith)
        requires
            u == t - 1,
            square == t * t,
            t > 8,
    {
        assert((u * u) * u == square * t - 3 * square + 3 * t - 1);
        assert(square * (t - 3) == square * t - 3 * square);
    }
    lemma_nonnegative_product(a, j);
    lemma_nonnegative_product(a * j, o.d);
    lemma_scale(square * (t - 3), (u * u) * u, (a * j) * o.d);
    assert(((u * u) * u) * ((a * j) * o.d) == c) by (nonlinear_arith)
        requires
            c == ((a * j) * o.d) * ((u * u) * u),
    ;
    assert((square * (t - 3)) * ((a * j) * o.d) == (((a * j) * o.d) * (t - 3)) * square)
        by (nonlinear_arith);
    assert((n * (t + 1)) * y == ((n * o.n) * (t + 1)) * square) by (nonlinear_arith)
        requires
            y == (o.n * t) * t,
            square == t * t,
    ;
    lemma_positive_product(t, t);
    lemma_cancel(((a * j) * o.d) * (t - 3), (n * o.n) * (t + 1), square);
}

/// The offset of a point lies within eight parts in `2^53` of the span of the exact one.
proof fn lemma_offset_near(a: int, n: int, j: int) -> (o: Ratio)
    requires
        a >= 0,
        1 <= j < n,
    ensures
        o == rounded(
            53,
            product(
                rounded(53, quotient(rounded(53, whole(a)), rounded(53, whole(n)))),
                rounded(53, whole(j)),
            ),
        ),
        o.d > 0,
        o.n >= 0,
        (n * o.n - (a * j) * o.d) * precision() <= 8 * (a * (n * o.d)),
        ((a * j) * o.d - n * o.n) * precision() <= 8 * (a * (n * o.d)),
{
    let t = precision();
    lemma2_to64_rest();
    let ra = rounded(53, whole(a));
    let rn = rounded(53, whole(n));
    let rj = rounded(53, whole(j));
    lemma_signed_rounded_positive(53, whole(a));
    lemma_signed_rounded_positive(53, whole(n));
    lemma_signed_rounded_positive(53, whole(j));
    lemma_rounded_bounds(whole(a));
    lemma_rounded_bounds(whole(n));
    lemma_rounded_bounds(whole(j));
    let (p, q) = (ra.n, ra.d);
    let x = quotient(ra, rn);
    assert(x.n == p * rn.d && x.d == q * rn.n);
    lemma_positive_product(q, rn.n);
    lemma_nonnegative_product(p, rn.d);
    let s = rounded(53, x);
    lemma_rounded_bounds(x);
    // The offset.
    let y = product(s, rj);
    lemma_nonnegative_product(s.n, rj.n);
    lemma_positive_product(s.d, rj.d);
    let o = rounded(53, y);
    lemma_rounded_bounds(y);
    assert(1 * t == t);
    // As for a span of `p` in `n q` intervals.
    let m = n * q;
    lemma_positive_product(n, q);
    let rm = Ratio { n: q * rn.n, d: rn.d };
    assert((m * (t - 1)) * rm.d <= rm.n * t && rm.n * t <= (m * (t + 1)) * rm.d)
        by (nonlinear_arith)
        requires
            (n * (t - 1)) * rn.d <= rn.n * t,
            rn.n * t <= (n * (t + 1)) * rn.d,
            m == n * q,
            rm.n == q * rn.n,
            rm.d == rn.d,
            q > 0,
    {
        assert(((n * (t - 1)) * rn.d) * q <= (rn.n * t) * q);
        assert((rn.n * t) * q <= ((n * (t + 1)) * rn.d) * q);
        assert(((n * (t - 1)) * rn.d) * q == (m * (t - 1)) * rn.d);
        assert(((n * (t + 1)) * rn.d) * q == (m * (t + 1)) * rn.d);
        assert((rn.n * t) * q == (q * rn.n) * t);
    }
    lemma_offset_above(p, m, j, rm, rj, s, o, t);
    lemma_offset_below(p, m, j, rm, rj, s, o, t);
    // The span.
    let exact = (a * j) * o.d;
    let found = n * o.n;
    let z = j * o.d;
    lemma_positive_product(j, o.d);
    lemma_scale(p * t, (a * (t + 1)) * q, z * (t + 4));
    lemma_scale((a * (t - 1)) * q, p * t, z * (t - 3));
    lemma_scale((m * o.n) * (t - 1), ((p * j) * o.d) * (t + 4), t);
    lemma_scale(((p * j) * o.d) * (t - 3), (m * o.n) * (t + 1), t);
    assert((((p * j) * o.d) * (t + 4)) * t == (p * t) * (z * (t + 4))) by (nonlinear_arith)
        requires
            z == j * o.d,
    ;
    assert((((p * j) * o.d) * (t - 3)) * t == (p * t) * (z * (t - 3))) by (nonlinear_arith)
        requires
            z == j * o.d,
    ;
    assert(((m * o.n) * (t - 1)) * t == ((found * (t - 1)) * t) * q) by (nonlinear_arith)
        requires
            m == n * q,
            found == n * o.n,
    ;
    assert(((m * o.n) * (t + 1)) * t == ((found * (t + 1)) * t) * q) by (nonlinear_arith)
        requires
            m == n * q,
            found == n * o.n,
    ;
    assert(((a * (t + 1)) * q) * (z * (t + 4)) == (exact * ((t + 1) * (t + 4))) * q)
        by (nonlinear_arith)
        requires
            z == j * o.d,
            exact == (a * j) * o.d,
    ;
    assert(((a * (t - 1)) * q) * (z * (t - 3)) == (exact * ((t - 1) * (t - 3))) * q)
        by (nonlinear_arith)
        requires
            z == j * o.d,
            exact == (a * j) * o.d,
    ;
    lemma_cancel((found * (t - 1)) * t, exact * ((t + 1) * (t + 4)), q);
    lemma_cancel(exact * ((t - 1) * (t - 3)), (found * (t + 1)) * t, q);
    lemma_nonnegative_product(a, j);
    lemma_nonnegative_product(a * j, o.d);
    lemma_nonnegative_product(n, o.n);
    assert(exact * ((t + 1) * (t + 4)) <= (exact * (t + 6)) * t) by (nonlinear_arith)
        requires
            exact >= 0,
            t == 0x20_0000_0000_0000,
    {
        assert((t + 1) * (t + 4) <= (t + 6) * t);
    }
    assert((exact * (t - 4)) * t <= exact * ((t - 1) * (t - 3))) by (nonlinear_arith)
        requires
            exact >= 0,
            t == 0x20_0000_0000_0000,
    {
        assert((t - 4) * t <= (t - 1) * (t - 3));
    }
    lemma_cancel(found * (t - 1), exact * (t + 6), t);
    lemma_cancel(exact * (t - 4), found * (t + 1), t);
    // How far off that is.
    let all = a * (n * o.d);
    assert(0 <= exact <= all) by (nonlinear_arith)
        requires
            exact == (a * j) * o.d,
            all == a * (n * o.d),
            exact >= 0,
            1 <= j < n,
            a >= 0,
            o.d > 0,
    {
        assert(a * j <= a * n);
        assert((a * j) * o.d <= (a * n) * o.d);
    }
    assert(found * t <= exact * t + 8 * exact) by {
        // found (t - 1) <= exact (t + 6), so found <= 2 exact
        assert(found <= 2 * exact);
    }
    o
}

/// The magnitude of a sum with a rounded term, and the error of that term.
proof fn lemma_sum_near(left: int, a: int, rl: Ratio, o: Ratio, y: Ratio)
    requires
        a >= 0,
        rl == rounded(53, whole(left)),
        o.d > 0,
        0 <= o.n <= 2 * (a * o.d),
        y.n == rl.n * o.d + o.n * rl.d,
        y.d == rl.d * o.d,
    ensures
        ({
            let size = if left >= 0 {
                left
            } else {
                -left
            };
            let off = y.n - (left * o.d + o.n) * rl.d;
            &&& rl.d > 0
            &&& off * precision() <= size * y.d
            &&& -off * precision() <= size * y.d
            &&& y.n <= 2 * ((size + a) * y.d)
            &&& -y.n <= 2 * ((size + a) * y.d)
        }),
{
    let t = precision();
    let size = if left >= 0 {
        left
    } else {
        -left
    };
    lemma_signed_rounded_positive(53, whole(left));
    lemma_rounded_bounds(whole(size));
    let r = rounded_up_from_zero(53, whole(size));
    assert(rl.d == r.d && rl.n == if left >= 0 {
        r.n
    } else {
        -r.n
    });
    assert(1 * t == t);
    let d = rl.n - left * rl.d;
    assert(d * t <= size * rl.d && -d * t <= size * rl.d && rl.n <= 2 * (size * rl.d) && -rl.n <= 2
        * (size * rl.d)) by (nonlinear_arith)
        requires
            (size * (t - 1)) * r.d <= r.n * t,
            r.n * t <= (size * (t + 1)) * r.d,
            rl.d == r.d,
            r.d > 0,
            size >= 0,
            d == rl.n - left * rl.d,
            (left == size && rl.n == r.n) || (left == -size && rl.n == -r.n),
            t == 0x20_0000_0000_0000,
    {
        let e = size * r.d;
        assert(e >= 0);
        assert((size * (t - 1)) * r.d == e * t - e);
        assert((size * (t + 1)) * r.d == e * t + e);
        assert(0 <= r.n <= 2 * e);
        if left == size {
            assert(left * rl.d == e);
        } else {
            assert(left * rl.d == -e);
        }
    }
    let off = y.n - (left * o.d + o.n) * rl.d;
    assert(off == d * o.d) by (nonlinear_arith)
        requires
            off == y.n - (left * o.d + o.n) * rl.d,
            y.n == rl.n * o.d + o.n * rl.d,
            d == rl.n - left * rl.d,
    ;
    assert(off * t <= size * y.d && -off * t <= size * y.d) by (nonlinear_arith)
        requires
            off == d * o.d,
            d * t <= size * rl.d,
            -d * t <= size * rl.d,
            y.d == rl.d * o.d,
            o.d > 0,
    {
        assert((d * t) * o.d <= (size * rl.d) * o.d);
        assert((-d * t) * o.d <= (size * rl.d) * o.d);
        assert((d * t) * o.d == off * t);
        assert((-d * t) * o.d == -off * t);
        assert((size * rl.d) * o.d == size * y.d);
    }
    assert(y.n <= 2 * ((size + a) * y.d) && -y.n <= 2 * ((size + a) * y.d)) by (nonlinear_arith)
        requires
            y.n == rl.n * o.d + o.n * rl.d,
            y.d == rl.d * o.d,
            rl.n <= 2 * (size * rl.d),
            -rl.n <= 2 * (size * rl.d),
            0 <= o.n <= 2 * (a * o.d),
            o.d > 0,
            rl.d > 0,
    {
        assert(rl.n * o.d <= (2 * (size * rl.d)) * o.d);
        assert(-(rl.n * o.d) <= (2 * (size * rl.d)) * o.d);
        assert(o.n * rl.d <= (2 * (a * o.d)) * rl.d);
        assert(o.n * rl.d >= 0);
        assert((2 * (size * rl.d)) * o.d + (2 * (a * o.d)) * rl.d == 2 * ((size + a) * y.d));
        assert((2 * (a * o.d)) * rl.d >= 0);
    }
}

/// What the rounding of a number and the loss of its fractional part change.
proof fn lemma_point_near(y: Ratio, m: int)
    requires
        y.d > 0,
        m >= 0,
        y.n <= 2 * (m * y.d),
        -y.n <= 2 * (m * y.d),
    ensures
        ({
            let v = truncated(rounded(53, y));
            let t = precision();
            &&& (v * y.d - y.n) * t <= (2 * m + t) * y.d
            &&& (y.n - v * y.d) * t <= (2 * m + t) * y.d
            &&& y.n >= 0 ==> (v * y.d - y.n) * t <= (2 * m) * y.d
        }),
{
    let t = precision();
    let w = rounded(53, y);
    lemma_signed_rounded_positive(53, y);
    let size = if y.n >= 0 {
        y.n
    } else {
        -y.n
    };
    let x = Ratio { n: size, d: y.d };
    lemma_rounded_bounds(x);
    let r = rounded_up_from_zero(53, x);
    assert(w.d == r.d && w.n == if y.n >= 0 {
        r.n
    } else {
        -r.n
    });
    let part = y.d * r.d;
    lemma_positive_product(y.d, r.d);
    let (found, exact) = (r.n * y.d, size * r.d);
    assert(found * t <= exact * (t + 1) && exact * (t - 1) <= found * t) by (nonlinear_arith)
        requires
            (size * (t - 1)) * r.d <= r.n * (y.d * t),
            r.n * (y.d * t) <= (size * (t + 1)) * r.d,
            found == r.n * y.d,
            exact == size * r.d,
    ;
    assert(exact <= 2 * (m * part)) by (nonlinear_arith)
        requires
            size <= 2 * (m * y.d),
            exact == size * r.d,
            part == y.d * r.d,
            r.d > 0,
    {
        assert(size * r.d <= (2 * (m * y.d)) * r.d);
    }
    assert((found - exact) * t <= exact && (exact - found) * t <= exact);
    // The fractional part is less than one.
    let k = r.n / r.d;
    lemma_floor_bounds(r);
    assert((k + 1) * r.d == k * r.d + r.d) by (nonlinear_arith);
    assert((k * y.d) * r.d <= found && found <= (k * y.d) * r.d + part) by (nonlinear_arith)
        requires
            k * r.d <= r.n < k * r.d + r.d,
            y.d > 0,
            part == y.d * r.d,
            found == r.n * y.d,
    {
        assert((k * r.d) * y.d <= r.n * y.d);
        assert(r.n * y.d <= (k * r.d + r.d) * y.d);
    }
    let off = k * y.d - size;
    let bound = (2 * m + t) * y.d;
    assert((off * t) * r.d == ((k * y.d) * r.d) * t - exact * t) by (nonlinear_arith)
        requires
            off == k * y.d - size,
            exact == size * r.d,
    ;
    assert((-off * t) * r.d == exact * t - ((k * y.d) * r.d) * t) by (nonlinear_arith)
        requires
            off == k * y.d - size,
            exact == size * r.d,
    ;
    assert(bound * r.d == 2 * (m * part) + t * part) by (nonlinear_arith)
        requires
            bound == (2 * m + t) * y.d,
            part == y.d * r.d,
    ;
    lemma_nonnegative_product(m, part);
    lemma_cancel(off * t, bound, r.d);
    lemma_cancel(-off * t, bound, r.d);
    let least = (2 * m) * y.d;
    assert(least * r.d == 2 * (m * part)) by (nonlinear_arith)
        requires
            least == (2 * m) * y.d,
            part == y.d * r.d,
    ;
    lemma_cancel(off * t, least, r.d);
    assert((-k) * y.d == -(k * y.d)) by (nonlinear_arith);
    assert(truncated(w) == if y.n >= 0 {
        k
    } else {
        -k
    });
}

/// Point `j` between ends with `n` intervals lies close to the straight line
/// `left + (right - left) * j / n`: it is off by one at most, and by one part in `2^49` of
/// the magnitude of the left end and of the span. Where the left end is not negative, it
/// lies beyond the line by the second at most.
pub proof fn lemma_interpolated_near(left: int, right: int, count: int, index: int)
    requires
        i64::MIN <= left <= right <= i64::MAX,
        1 <= index <= count,
    ensures
        ({
            let n = count + 1;
            let off = interpolated(left, right, count, index) * n - (left * n + (right - left)
                * index);
            let m = (if left >= 0 {
                left
            } else {
                -left
            }) + (right - left);
            &&& (off - n) * 0x2_0000_0000_0000 <= m * n
            &&& (-off - n) * 0x2_0000_0000_0000 <= m * n
            &&& left >= 0 ==> off * 0x2_0000_0000_0000 <= m * n
        }),
{
    let t = precision();
    let a = right - left;
    let n = count + 1;
    let j = index;
    let size = if left >= 0 {
        left
    } else {
        -left
    };
    let m = size + a;
    let o = lemma_offset_near(a, n, j);
    let rl = rounded(53, whole(left));
    let y = total(rl, o);
    let g = (a * j) * o.d;
    let all = a * (n * o.d);
    lemma_positive_product(n, o.d);
    lemma_nonnegative_product(a, n * o.d);
    assert(0 <= g <= all) by (nonlinear_arith)
        requires
            g == (a * j) * o.d,
            all == a * (n * o.d),
            1 <= j < n,
            a >= 0,
            o.d > 0,
    {
        assert(0 <= a * j <= a * n);
        assert((a * j) * o.d <= (a * n) * o.d);
        assert((a * j) * o.d >= 0);
    }
    assert(o.n <= 2 * (a * o.d)) by {
        assert(n * o.n <= 2 * all);
        assert(2 * all == (2 * (a * o.d)) * n) by (nonlinear_arith)
            requires
                all == a * (n * o.d),
        ;
        assert(n * o.n == o.n * n) by (nonlinear_arith);
        lemma_cancel(o.n, 2 * (a * o.d), n);
    }
    lemma_sum_near(left, a, rl, o, y);
    lemma_positive_product(rl.d, o.d);
    lemma_point_near(y, m);
    let v = truncated(rounded(53, y));
    // Over the common denominator.
    let off = v * n - (left * n + a * j);
    let e1 = v * y.d - y.n;
    let e2 = y.n - (left * o.d + o.n) * rl.d;
    let e3 = n * o.n - g;
    assert(off * y.d == (v * y.d) * n - (left * y.d) * n - (a * j) * y.d) by (nonlinear_arith)
        requires
            off == v * n - (left * n + a * j),
    ;
    assert(e1 * n == (v * y.d) * n - y.n * n) by (nonlinear_arith)
        requires
            e1 == v * y.d - y.n,
    ;
    assert((left * o.d + o.n) * rl.d == left * y.d + o.n * rl.d) by (nonlinear_arith)
        requires
            y.d == rl.d * o.d,
    ;
    assert(e2 * n == y.n * n - (left * y.d) * n - (o.n * rl.d) * n) by (nonlinear_arith)
        requires
            e2 == y.n - (left * y.d + o.n * rl.d),
    ;
    assert(e3 * rl.d == (o.n * rl.d) * n - (a * j) * y.d) by (nonlinear_arith)
        requires
            e3 == n * o.n - (a * j) * o.d,
            y.d == rl.d * o.d,
    ;
    assert(off * y.d == e1 * n + e2 * n + e3 * rl.d);
    let part = n * y.d;
    lemma_positive_product(n, y.d);
    assert((e1 * n) * t <= 2 * (m * part) + t * part && -(e1 * n) * t <= 2 * (m * part) + t * part)
        by (nonlinear_arith)
        requires
            e1 * t <= (2 * m + t) * y.d,
            -e1 * t <= (2 * m + t) * y.d,
            part == n * y.d,
            n > 0,
    {
        assert((e1 * t) * n <= ((2 * m + t) * y.d) * n);
        assert((-e1 * t) * n <= ((2 * m + t) * y.d) * n);
        assert(((2 * m + t) * y.d) * n == 2 * (m * part) + t * part);
    }
    assert((e2 * n) * t <= size * part && -(e2 * n) * t <= size * part) by (nonlinear_arith)
        requires
            e2 * t <= size * y.d,
            -e2 * t <= size * y.d,
            part == n * y.d,
            n > 0,
    {
        assert((e2 * t) * n <= (size * y.d) * n);
        assert((-e2 * t) * n <= (size * y.d) * n);
        assert((size * y.d) * n == size * part);
    }
    assert((e3 * rl.d) * t <= 8 * (a * part) && -(e3 * rl.d) * t <= 8 * (a * part))
        by (nonlinear_arith)
        requires
            e3 * t <= 8 * all,
            -e3 * t <= 8 * all,
            all == a * (n * o.d),
            part == n * y.d,
            y.d == rl.d * o.d,
            rl.d > 0,
    {
        assert((e3 * t) * rl.d <= (8 * all) * rl.d);
        assert((-e3 * t) * rl.d <= (8 * all) * rl.d);
        assert((8 * all) * rl.d == 8 * (a * part));
    }
    assert(size * part + 2 * (m * part) + 8 * (a * part) <= 16 * (m * part)) by (nonlinear_arith)
        requires
            m == size + a,
            size >= 0,
            a >= 0,
            part > 0,
    {
        assert(m * part == size * part + a * part);
        assert(size * part >= 0 && a * part >= 0);
    }
    let bound = 16 * m * n + t * n;
    assert(bound * y.d == 16 * (m * part) + t * part) by (nonlinear_arith)
        requires
            bound == 16 * m * n + t * n,
            part == n * y.d,
    ;
    assert((off * t) * y.d == (e1 * n) * t + (e2 * n) * t + (e3 * rl.d) * t) by (nonlinear_arith)
        requires
            off * y.d == e1 * n + e2 * n + e3 * rl.d,
    ;
    assert((-off * t) * y.d == -((off * t) * y.d)) by (nonlinear_arith);
    assert(-(e1 * n) * t == -((e1 * n) * t) && -(e2 * n) * t == -((e2 * n) * t) && -(e3 * rl.d) * t
        == -((e3 * rl.d) * t)) by (nonlinear_arith);
    lemma_cancel(off * t, bound, y.d);
    lemma_cancel(-off * t, bound, y.d);
    if left >= 0 {
        lemma_signed_rounded_positive(53, whole(left));
        assert(y.n >= 0) by (nonlinear_arith)
            requires
                y.n == rl.n * o.d + o.n * rl.d,
                rl.n >= 0,
                o.d > 0,
                o.n >= 0,
                rl.d > 0,
        ;
        assert((e1 * n) * t <= 2 * (m * part)) by (nonlinear_arith)
            requires
                e1 * t <= (2 * m) * y.d,
                part == n * y.d,
                n > 0,
        {
            assert((e1 * t) * n <= ((2 * m) * y.d) * n);
            assert(((2 * m) * y.d) * n == 2 * (m * part));
        }
        let least = 16 * m * n;
        assert(least * y.d == 16 * (m * part)) by (nonlinear_arith)
            requires
                least == 16 * m * n,
                part == n * y.d,
        ;
        lemma_cancel(off * t, least, y.d);
    }
    let h = 0x2_0000_0000_0000int;
    assert(16 * m * n == 16 * (m * n)) by (nonlinear_arith);
    assert((off - n) * h <= m * n && (-off - n) * h <= m * n);
    // Beyond the range, the end of the range is closer.
    let u = saturated(v);
    assert(u == interpolated(left, right, count, index));
    let near = u * n - (left * n + a * j);
    lemma_nonnegative_product(m, n);
    if u != v {
        assert(0 <= a * j <= a * n) by (nonlinear_arith)
            requires
                a >= 0,
                1 <= j < n,
        ;
        assert(left * n + a * n == right * n) by (nonlinear_arith)
            requires
                a == right - left,
        ;
        if v > i64::MAX {
            assert(u == i64::MAX);
            assert(right * n <= u * n && u * n <= v * n) by (nonlinear_arith)
                requires
                    right <= u <= v,
                    n > 0,
            ;
            assert(0 <= near <= off);
        } else {
            assert(u == i64::MIN);
            assert(v * n <= u * n && u * n <= left * n) by (nonlinear_arith)
                requires
                    v <= u <= left,
                    n > 0,
            ;
            assert(off <= near <= 0);
        }
    }
}

/// Where the span is a whole number of steps for each interval, the points are exact,
/// between ends of at most `2^52` in magnitude.
pub proof fn lemma_even_steps_are_exact(left: int, step: int, count: int, index: int)
    requires
        -0x10_0000_0000_0000 <= left,
        left + step * (count + 1) <= 0x10_0000_0000_0000,
        step >= 0,
        1 <= index <= count < 0x20_0000_0000_0000,
    ensures
        interpolated(left, left + step * (count + 1), count, index) == left + step * index,
{
    let n = count + 1;
    let a = step * n;
    lemma2_to64_rest();
    assert(0 <= step <= a && 0 <= step * index <= a) by (nonlinear_arith)
        requires
            a == step * n,
            step >= 0,
            1 <= index < n,
    ;
    let v = left + step * index;
    lemma_small_is_exact(a);
    lemma_small_is_exact(n);
    lemma_small_is_exact(index);
    lemma_small_is_exact(step);
    lemma_small_is_exact(step * index);
    lemma_small_is_exact(left);
    lemma_small_is_exact(v);
    let (ra, rn, ri) = (rounded(53, whole(a)), rounded(53, whole(n)), rounded(53, whole(index)));
    lemma_signed_rounded_positive(53, whole(a));
    lemma_signed_rounded_positive(53, whole(n));
    lemma_signed_rounded_positive(53, whole(index));
    lemma_signed_rounded_positive(53, whole(step));
    lemma_signed_rounded_positive(53, whole(step * index));
    lemma_signed_rounded_positive(53, whole(left));
    lemma_signed_rounded_positive(53, whole(v));
    // The step.
    let q = quotient(ra, rn);
    lemma_same_quotient(ra, whole(a), rn, whole(n));
    lemma_positive_product(ra.d, rn.n);
    assert(same(quotient(whole(a), whole(n)), whole(step))) by {
        assert((a * 1) * 1 == step * (1 * n)) by (nonlinear_arith)
            requires
                a == step * n,
        ;
    }
    lemma_same_transitive(q, quotient(whole(a), whole(n)), whole(step));
    lemma_signed_rounded_equal(53, q, whole(step));
    let s = rounded(53, q);
    // The offset.
    let p = product(s, ri);
    lemma_same_product(s, whole(step), ri, whole(index));
    lemma_positive_product(s.d, ri.d);
    assert(product(whole(step), whole(index)) == whole(step * index));
    lemma_signed_rounded_equal(53, p, whole(step * index));
    let o = rounded(53, p);
    // The point.
    let rl = rounded(53, whole(left));
    let y = total(rl, o);
    lemma_same_total(rl, whole(left), o, whole(step * index));
    lemma_positive_product(rl.d, o.d);
    assert(total(whole(left), whole(step * index)) == whole(v));
    lemma_signed_rounded_equal(53, y, whole(v));
    lemma_truncated_whole(rounded(53, whole(v)), v);
}

/// A point between ends of at most `2^40` in magnitude lies within 2 of the straight line.
pub proof fn lemma_interpolated_within_two(left: int, right: int, count: int, index: int)
    requires
        -0x100_0000_0000 <= left <= right <= 0x100_0000_0000,
        1 <= index <= count,
    ensures
        ({
            let n = count + 1;
            let off = interpolated(left, right, count, index) * n - (left * n + (right - left)
                * index);
            -2 * n <= off <= 2 * n
        }),
{
    lemma_interpolated_near(left, right, count, index);
    let n = count + 1;
    let m = (if left >= 0 {
        left
    } else {
        -left
    }) + (right - left);
    assert(m * n <= 0x400_0000_0000 * n) by (nonlinear_arith)
        requires
            m <= 0x400_0000_0000,
            n > 0,
    ;
}

} // verus!

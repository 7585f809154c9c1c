//! Linear interpolation in double precision.
//!
//! Repaired timestamps are interpolated with double-precision operations.

use crate::rounding::{
    Ratio, Rounded, at_most, dyadic, from_integer, in_binade, lemma_at_most_same,
    lemma_at_most_transitive,
    lemma_dyadic_lifted, lemma_dyadic_positive, lemma_dyadic_scaled, lemma_dyadic_zero,
    lemma_floor_bounds, lemma_lifted, lemma_nonnegative_product, lemma_positive_product,
    lemma_rounded_at_most_double, lemma_rounded_equal, lemma_rounded_error, lemma_rounded_exact,
    lemma_rounded_is, lemma_rounded_monotone, lemma_rounded_monotone_from_zero,
    lemma_rounded_positive, nearest_int,
    lemma_rounded_whole, lemma_same_product, lemma_same_quotient, lemma_same_scaled,
    lemma_same_total, lemma_same_transitive, lemma_scaled_lifted, lemma_scaled_positive,
    lemma_signed_rounded_equal, lemma_signed_rounded_positive, lemma_total_monotone,
    lemma_total_scaled, lemma_truncated_monotone, lemma_truncated_whole, lifted, multiply,
    power_of_two, product, quotient, round_sum, round_units, rounded, rounded_up_from_zero,
    same, saturated, scaled, signed, total, truncate_to_i64, truncated, whole,
};
use vstd::arithmetic::power2::{
    lemma2_to64, lemma2_to64_rest, lemma_pow2_adds, lemma_pow2_pos, lemma_pow2_strictly_increases,
    pow2,
};
use vstd::prelude::*;

verus! {

proof fn lemma_quotient_units(m1: int, e1: int, m2: int, e2: int)
    requires
        m2 > 0,
        -500 <= e1 <= 500,
        -500 <= e2 <= 500,
    ensures
        same(
            scaled(quotient(dyadic(m1, e1), dyadic(m2, e2)), e1 - e2 - 54),
            Ratio { n: m1 * pow2(54), d: m2 },
        ),
{
    let k = 2000int;
    let f = e1 - e2 - 54;
    let p0 = lifted(0, k);
    let p1 = lifted(e1, k);
    let p2 = lifted(e2, k);
    let pf = lifted(f, k);
    let pg = lifted(e1 - 54, k);
    lemma_dyadic_lifted(m1, e1, k);
    lemma_dyadic_lifted(m2, e2, k);
    lemma_dyadic_positive(m1, e1);
    lemma_dyadic_positive(m2, e2);
    lemma_lifted(e2, f, k);
    lemma_lifted(f, 0, k);
    lemma_lifted(e1 - 54, 0, k);
    lemma_pow2_adds((e1 - 54 + k) as nat, 54);
    let q54 = pow2(54) as int;
    let u = Ratio { n: m1 * p1, d: p0 };
    let v = Ratio { n: m2 * p2, d: p0 };
    let x = quotient(dyadic(m1, e1), dyadic(m2, e2));
    lemma_same_quotient(dyadic(m1, e1), u, dyadic(m2, e2), v);
    let w = quotient(u, v);
    lemma_same_scaled(x, w, f);
    lemma_scaled_lifted(w, f, k);
    lemma_positive_product(dyadic(m1, e1).d, dyadic(m2, e2).n);
    lemma_positive_product(m2, p2);
    lemma_positive_product(p0, m2 * p2);
    lemma_scaled_positive(x, f);
    lemma_scaled_positive(w, f);
    let z = Ratio { n: w.n * p0, d: w.d * pf };
    lemma_positive_product(w.d, pf);
    let r = Ratio { n: m1 * pow2(54), d: m2 };
    assert((p0 * (m2 * p2)) * pf == (p0 * m2) * (pg * p0)) by (nonlinear_arith)
        requires
            p2 * pf == pg * p0,
    {
        assert((p0 * (m2 * p2)) * pf == (p0 * m2) * (p2 * pf));
    }
    let c = p0 * p0;
    assert((p0 * m2) * (pg * p0) == (m2 * pg) * c) by (nonlinear_arith)
        requires
            c == p0 * p0,
    ;
    assert(((m1 * p1) * p0) * p0 == ((m1 * q54) * pg) * c) by (nonlinear_arith)
        requires
            c == p0 * p0,
            p1 == pg * q54,
    {
        assert(m1 * (pg * q54) == (m1 * q54) * pg);
        assert(((m1 * p1) * p0) * p0 == (m1 * p1) * (p0 * p0));
    }
    let t = m1 * q54;
    assert(((t * pg) * c) * m2 == t * ((m2 * pg) * c)) by (nonlinear_arith);
    lemma_same_transitive(scaled(x, f), scaled(w, f), z);
    lemma_same_transitive(scaled(x, f), z, r);
}

fn divide(a: &Rounded, b: &Rounded) -> (r: Rounded)
    requires
        a.well_formed(53),
        b.well_formed(53),
        b.m > 0,
        -400 <= a.e <= 400,
        -400 <= b.e <= 400,
    ensures
        r.well_formed(53),
        r.m > 0 <==> a.m > 0,
        same(r.value(), rounded_up_from_zero(53, quotient(a.value(), b.value()))),
        a.m > 0 ==> a.e - b.e - 53 <= r.e <= a.e - b.e - 51,
        r.m == 0 ==> r.e == 0,
{
    let ghost x = quotient(a.value(), b.value());
    let ghost y = Ratio { n: a.m * pow2(54), d: b.m as int };
    proof {
        lemma2_to64();
        lemma2_to64_rest();
        lemma_quotient_units(a.m as int, a.e as int, b.m as int, b.e as int);
        lemma_dyadic_positive(a.m as int, a.e as int);
        lemma_dyadic_positive(b.m as int, b.e as int);
        lemma_positive_product(a.value().d, b.value().n);
        if a.m > 0 {
            lemma_positive_product(a.value().n, b.value().d);
        } else {
            lemma_dyadic_zero(a.e as int);
            assert(x.n == 0) by (nonlinear_arith)
                requires
                    x.n == a.value().n * b.value().d,
                    a.value().n == 0,
            ;
        }
        lemma_floor_bounds(y);
    }
    let num: u128 = a.m as u128 * 0x40_0000_0000_0000;
    let v: u128 = num / (b.m as u128);
    let sticky: bool = num % (b.m as u128) != 0;
    proof {
        if a.m > 0 {
            assert(0x20_0000_0000_0000 <= v < 0x80_0000_0000_0000) by (nonlinear_arith)
                requires
                    v * b.m <= num < (v + 1) * b.m,
                    num == a.m * 0x40_0000_0000_0000,
                    0x10_0000_0000_0000 <= a.m < 0x20_0000_0000_0000,
                    0x10_0000_0000_0000 <= b.m < 0x20_0000_0000_0000,
            {
                if v < 0x20_0000_0000_0000 {
                    assert((v + 1) * b.m <= 0x20_0000_0000_0000 * b.m);
                }
                if v >= 0x80_0000_0000_0000 {
                    assert(v * b.m >= 0x80_0000_0000_0000 * b.m);
                }
            }
        } else {
            assert(0int % (b.m as int) == 0) by (nonlinear_arith)
                requires
                    b.m > 0,
            ;
        }
    }
    round_units(53, v, sticky, a.e - b.e - 54, Ghost(x), Ghost(y))
}

/// The sum of an integer of magnitude `a` and a rounded number, rounded and
/// truncated to an `i64`.
fn truncated_sum(negative: bool, a: u128, p: &Rounded) -> (t: i64)
    requires
        a <= 0x2_0000_0000_0000_0000,
        p.well_formed(53),
        -200 <= p.e <= 13,
    ensures
        t == saturated(
            truncated(rounded(53, total(signed(negative, whole(a as int)), p.value()))),
        ),
{
    let ghost x = total(signed(negative, whole(a as int)), p.value());
    proof {
        lemma2_to64();
        lemma2_to64_rest();
        lemma_dyadic_positive(p.m as int, p.e as int);
        lemma_positive_product(1, p.value().d);
    }
    // Units in which the number is an integer, or the integer is large.
    let e: i32 = if a == 0 {
        p.e
    } else {
        -58
    };
    let n: u128 = if a == 0 {
        0
    } else {
        a * 0x400_0000_0000_0000
    };
    proof {
        let u = signed(negative, whole(a as int));
        let g = dyadic(p.m as int, p.e - e);
        let h = signed(negative, whole(n as int));
        lemma_total_scaled(u, p.value(), e as int);
        lemma_dyadic_scaled(p.m as int, p.e as int, e as int);
        assert(same(scaled(u, e as int), h)) by {
            if a == 0 {
                assert(signed(negative, whole(0)).n == 0);
                if e < 0 {
                    assert(0 * pow2((-e) as nat) == 0);
                }
            } else {
                assert((-a) * pow2(58) == -(a * pow2(58))) by (nonlinear_arith);
            }
        }
        assert(signed(false, g) == g);
        lemma_scaled_positive(u, e as int);
        lemma_scaled_positive(p.value(), e as int);
        lemma_scaled_positive(x, e as int);
        lemma_dyadic_positive(p.m as int, p.e - e);
        lemma_same_total(scaled(u, e as int), h, scaled(p.value(), e as int), g);
        lemma_positive_product(scaled(u, e as int).d, scaled(p.value(), e as int).d);
        lemma_positive_product(1, g.d);
        lemma_same_transitive(
            scaled(x, e as int),
            total(scaled(u, e as int), scaled(p.value(), e as int)),
            total(h, g),
        );
    }
    let (r, negative): (Rounded, bool) = round_sum(
        53,
        e,
        negative,
        n,
        false,
        p.m,
        p.e - e,
        Ghost(x),
    );
    truncate_to_i64(53, &r, negative, Ghost(x))
}

/// The rounding of an integer is an integer.
fn rounded_integer(v: u64) -> (r: u128)
    ensures
        same(whole(r as int), rounded_up_from_zero(53, whole(v as int))),
        r <= 0x2_0000_0000_0000_0000,
        r > 0 <==> v > 0,
{
    proof {
        lemma2_to64();
        lemma2_to64_rest();
    }
    if v < 0x20_0000_0000_0000 {
        proof {
            lemma_rounded_whole(53, v as int);
        }
        return v as u128;
    }
    let f: Rounded = from_integer(53, v as u128);
    let p: u128 = power_of_two(f.e as u32);
    proof {
        if f.e < 12 {
            lemma_pow2_strictly_increases(f.e as nat, 12);
        }
        lemma_pow2_pos(f.e as nat);
        assert(0 < f.m * p <= 0x20_0000_0000_0000 * 0x1000) by (nonlinear_arith)
            requires
                0 < f.m <= 0x20_0000_0000_0000,
                0 < p <= 0x1000,
        ;
    }
    f.m as u128 * p
}

/// Point `index` of `count` points placed evenly between `left` and `right`, in
/// double precision.
///
/// The step is the rounded quotient of the rounded span and the rounded number
/// of intervals; the point is the rounded sum of the rounded left end and the
/// rounded product of step and index, without its fractional part.
pub open spec fn interpolated(left: int, right: int, count: int, index: int) -> int {
    let step = rounded(53, quotient(rounded(53, whole(right - left)), rounded(53, whole(count + 1))));
    let offset = rounded(53, product(step, rounded(53, whole(index))));
    saturated(truncated(rounded(53, total(rounded(53, whole(left)), offset))))
}

/// The offset of a point is at most four times the span.
proof fn lemma_offset_bounded(a: Ratio, b: Ratio, i: Ratio, s: Ratio, p: Ratio)
    requires
        a.n >= 0,
        a.d > 0,
        b.n > 0,
        b.d > 0,
        i.n >= 0,
        i.d > 0,
        s.n >= 0,
        s.d > 0,
        p.d > 0,
        at_most(i, b),
        at_most(s, Ratio { n: 2 * quotient(a, b).n, d: quotient(a, b).d }),
        at_most(p, Ratio { n: 2 * product(s, i).n, d: product(s, i).d }),
    ensures
        at_most(p, Ratio { n: 4 * a.n, d: a.d }),
{
    let (an, ad, bn, bd) = (a.n, a.d, b.n, b.d);
    let (en, ed, sn, sd) = (i.n, i.d, s.n, s.d);
    // s / b <= 2a / b^2, i <= b
    assert(sn * (ad * bn) <= (2 * (an * bd)) * sd);
    assert((sn * (ad * bn)) * en <= ((2 * (an * bd)) * sd) * en) by (nonlinear_arith)
        requires
            sn * (ad * bn) <= (2 * (an * bd)) * sd,
            en >= 0,
    ;
    assert(((2 * (an * bd)) * sd) * en == (2 * an * sd) * (en * bd)) by (nonlinear_arith);
    lemma_nonnegative_product(an, sd);
    assert((2 * an * sd) * (en * bd) <= (2 * an * sd) * (bn * ed)) by (nonlinear_arith)
        requires
            en * bd <= bn * ed,
            2 * an * sd >= 0,
    ;
    assert((sn * (ad * bn)) * en == ((sn * en) * ad) * bn) by (nonlinear_arith);
    assert((2 * an * sd) * (bn * ed) == ((2 * an) * (sd * ed)) * bn) by (nonlinear_arith);
    assert((sn * en) * ad <= (2 * an) * (sd * ed)) by (nonlinear_arith)
        requires
            ((sn * en) * ad) * bn <= ((2 * an) * (sd * ed)) * bn,
            bn > 0,
    ;
    lemma_positive_product(sd, ed);
    let v = Ratio { n: 2 * (sn * en), d: sd * ed };
    let w = Ratio { n: 4 * an, d: ad };
    assert(at_most(v, w)) by {
        assert((2 * (sn * en)) * ad <= (4 * an) * (sd * ed)) by (nonlinear_arith)
            requires
                (sn * en) * ad <= (2 * an) * (sd * ed),
        {
            assert((2 * (sn * en)) * ad == 2 * ((sn * en) * ad));
            assert((4 * an) * (sd * ed) == 2 * ((2 * an) * (sd * ed)));
        }
    }
    lemma_at_most_transitive(p, v, w);
}

/// A rounded number below `4 * 2^64` has an exponent of at most 13.
proof fn lemma_exponent_bounded(p: Rounded, a: Rounded)
    requires
        p.well_formed(53),
        a.well_formed(53),
        -400 <= a.e <= 11,
        p.m > 0,
        at_most(p.value(), Ratio { n: 4 * a.value().n, d: a.value().d }),
    ensures
        p.e <= 13,
{
    lemma2_to64();
    lemma2_to64_rest();
    lemma_dyadic_positive(a.m as int, a.e as int);
    if p.e >= 14 {
        let t = pow2(p.e as nat) as int;
        if p.e > 14 {
            lemma_pow2_strictly_increases(14, p.e as nat);
        }
        assert(p.m * t >= 0x10_0000_0000_0000 * 0x4000) by (nonlinear_arith)
            requires
                p.m >= 0x10_0000_0000_0000,
                t >= 0x4000,
        ;
        let av = a.value();
        assert(av.n < 0x1_0000_0000_0000_0000 * av.d) by {
            if a.e >= 0 {
                let u = pow2(a.e as nat) as int;
                if a.e < 11 {
                    lemma_pow2_strictly_increases(a.e as nat, 11);
                }
                assert(a.m * u < 0x20_0000_0000_0000 * 0x800) by (nonlinear_arith)
                    requires
                        0 <= a.m < 0x20_0000_0000_0000,
                        0 < u <= 0x800,
                ;
            } else {
                lemma_pow2_pos((-a.e) as nat);
            }
        }
        assert((p.m * t) * av.d >= 0x4_0000_0000_0000_0000 * av.d) by (nonlinear_arith)
            requires
                p.m * t >= 0x4_0000_0000_0000_0000,
                av.d > 0,
        ;
    }
}

/// Point `index` of `count` points placed evenly between `left` and `right`.
pub(crate) fn interpolate(left: i64, right: i64, count: usize, index: usize) -> (t: i64)
    requires
        left <= right,
        right - left <= i64::MAX,
        1 <= index <= count,
    ensures
        t == interpolated(left as int, right as int, count as int, index as int),
{
    let span: Rounded = from_integer(53, (right - left) as u128);
    let intervals: Rounded = from_integer(53, count as u128 + 1);
    let position: Rounded = from_integer(53, index as u128);
    let step: Rounded = divide(&span, &intervals);
    let offset: Rounded = multiply(53, &step, &position);
    let magnitude: u64 = if left >= 0 {
        left as u64
    } else {
        (-(left as i128)) as u64
    };
    let a: u128 = rounded_integer(magnitude);
    proof {
        // The exact terms of the contract, and the equal ones computed here.
        let ra = rounded(53, whole(right - left));
        let rb = rounded(53, whole(count + 1));
        let ri = rounded(53, whole(index as int));
        lemma_rounded_positive(53, whole(right - left));
        lemma_rounded_positive(53, whole(count + 1));
        lemma_rounded_positive(53, whole(index as int));
        lemma_dyadic_positive(span.m as int, span.e as int);
        lemma_dyadic_positive(intervals.m as int, intervals.e as int);
        lemma_dyadic_positive(position.m as int, position.e as int);
        lemma_dyadic_positive(step.m as int, step.e as int);
        lemma_dyadic_positive(offset.m as int, offset.e as int);
        lemma_same_quotient(span.value(), ra, intervals.value(), rb);
        lemma_positive_product(span.value().d, intervals.value().n);
        lemma_positive_product(ra.d, rb.n);
        lemma_nonnegative_product(span.value().n, intervals.value().d);
        lemma_nonnegative_product(ra.n, rb.d);
        lemma_rounded_equal(53, quotient(span.value(), intervals.value()), quotient(ra, rb));
        let rs = rounded(53, quotient(ra, rb));
        lemma_rounded_positive(53, quotient(ra, rb));
        assert(same(step.value(), rs));
        lemma_same_product(step.value(), rs, position.value(), ri);
        lemma_positive_product(step.value().d, position.value().d);
        lemma_positive_product(rs.d, ri.d);
        lemma_nonnegative_product(step.value().n, position.value().n);
        lemma_nonnegative_product(rs.n, ri.n);
        lemma_rounded_equal(53, product(step.value(), position.value()), product(rs, ri));
        let ro = rounded(53, product(rs, ri));
        lemma_rounded_positive(53, product(rs, ri));
        assert(same(offset.value(), ro));
        // The offset is small enough.
        lemma_rounded_monotone_from_zero(53, whole(index as int), whole(count + 1));
        lemma_rounded_at_most_double(53, quotient(ra, rb));
        lemma_rounded_at_most_double(53, product(rs, ri));
        lemma_offset_bounded(ra, rb, ri, rs, ro);
        let four = Ratio { n: 4 * ra.n, d: ra.d };
        let four_span = Ratio { n: 4 * span.value().n, d: span.value().d };
        assert(same(four, four_span)) by {
            assert((4 * ra.n) * span.value().d == (4 * span.value().n) * ra.d) by (nonlinear_arith)
                requires
                    span.value().n * ra.d == ra.n * span.value().d,
            ;
        }
        lemma_at_most_same(ro, offset.value(), four, four_span);
        if offset.m > 0 {
            lemma_exponent_bounded(offset, span);
        }
        // The left end, with its sign.
        let rl = rounded(53, whole(left as int));
        lemma_rounded_positive(53, whole(magnitude as int));
        let s = signed(left < 0, whole(a as int));
        assert(same(rl, s)) by {
            let y = rounded_up_from_zero(53, whole(magnitude as int));
            assert((-y.n) * 1 == (-a) * y.d) by (nonlinear_arith)
                requires
                    a * y.d == y.n * 1,
            ;
        }
        lemma_same_total(rl, s, ro, offset.value());
        lemma_positive_product(rl.d, ro.d);
        lemma_positive_product(1, offset.value().d);
        lemma_signed_rounded_equal(53, total(rl, ro), total(s, offset.value()));
    }
    truncated_sum(left < 0, a, &offset)
}

/// `x` is a double-precision number.
pub open spec fn is_exact(x: int) -> bool {
    same(rounded(53, whole(x)), whole(x))
}

proof fn lemma_bounded_whole(x: int)
    requires
        0 <= x <= pow2(53),
    ensures
        same(whole(x), rounded_up_from_zero(53, whole(x))),
{
    if x < pow2(53) {
        lemma_rounded_whole(53, x);
    } else {
        assert(1 < pow2(53)) by {
            lemma2_to64_rest();
        }
        lemma_rounded_exact(53, 1, 53);
        assert(dyadic(1, 53) == whole(x));
    }
}

/// Integers of at most 53 bits are double-precision numbers.
pub proof fn lemma_small_is_exact(x: int)
    requires
        -pow2(53) <= x <= pow2(53),
    ensures
        is_exact(x),
{
    if x >= 0 {
        lemma_bounded_whole(x);
    } else {
        lemma_bounded_whole(-x);
        let y = rounded_up_from_zero(53, whole(-x));
        assert((-y.n) * 1 == x * y.d) by (nonlinear_arith)
            requires
                (-x) * y.d == y.n * 1,
        ;
    }
}

proof fn lemma_product_monotone(s: Ratio, i: int, j: int)
    requires
        s.n >= 0,
        s.d > 0,
        0 <= i <= j,
    ensures
        at_most(product(s, whole(i)), product(s, whole(j))),
{
    assert(s.n * i <= s.n * j) by (nonlinear_arith)
        requires
            s.n >= 0,
            i <= j,
    ;
    let d = s.d * 1;
    assert((s.n * i) * d <= (s.n * j) * d) by (nonlinear_arith)
        requires
            s.n * i <= s.n * j,
            d > 0,
    ;
}

/// `c` steps of a rounded step never pass the end.
proof fn lemma_steps_within(a: int, c: int, i: int)
    requires
        a >= 0,
        0 <= i <= c < pow2(53),
    ensures
        at_most(
            product(rounded_up_from_zero(53, quotient(whole(a), whole(c + 1))), whole(i)),
            whole(a),
        ),
{
    let x = quotient(whole(a), whole(c + 1));
    assert(a * 1 == a && 1 * (c + 1) == c + 1);
    lemma_rounded_error(53, x);
    lemma_rounded_positive(53, x);
    let s = rounded_up_from_zero(53, x);
    let t = pow2(53) as int;
    lemma_pow2_pos(53);
    let n = c + 1;
    // s <= a (t + 1) / (n t), and i (t + 1) <= n t
    assert(i * (t + 1) <= n * t) by (nonlinear_arith)
        requires
            0 <= i <= n - 1,
            n - 1 < t,
    {
        assert(i * (t + 1) == i * t + i);
        assert(i * t <= (n - 1) * t);
        assert((n - 1) * t == n * t - t);
    }
    let u = n * t;
    lemma_positive_product(n, t);
    assert(s.n * u <= (a * (t + 1)) * s.d);
    assert((s.n * u) * i <= ((a * (t + 1)) * s.d) * i) by (nonlinear_arith)
        requires
            s.n * u <= (a * (t + 1)) * s.d,
            i >= 0,
    ;
    assert((s.n * u) * i == (s.n * i) * u) by (nonlinear_arith);
    assert(((a * (t + 1)) * s.d) * i == (a * s.d) * (i * (t + 1))) by (nonlinear_arith);
    lemma_nonnegative_product(a, s.d);
    assert((a * s.d) * (i * (t + 1)) <= (a * s.d) * u) by (nonlinear_arith)
        requires
            i * (t + 1) <= u,
            a * s.d >= 0,
    ;
    assert(s.n * i <= a * s.d) by (nonlinear_arith)
        requires
            (s.n * i) * u <= (a * s.d) * u,
            u > 0,
    ;
}

/// An end that interpolation keeps: a double-precision number, or the greatest value,
/// which every sum beyond it becomes.
pub open spec fn is_end(x: int) -> bool {
    is_exact(x) || x == i64::MAX
}

/// The greatest value is rounded up to a power of two.
proof fn lemma_greatest_rounded()
    ensures
        same(rounded(53, whole(i64::MAX as int)), whole(0x8000_0000_0000_0000)),
        is_exact(0x8000_0000_0000_0000),
{
    let x = whole(i64::MAX as int);
    lemma2_to64();
    lemma2_to64_rest();
    assert(scaled(x, 10).n == 0x7fff_ffff_ffff_ffff && scaled(x, 10).d == 0x400);
    let (low, high) = (pow2(52), pow2(53));
    assert(low * 0x400 == 0x4000_0000_0000_0000 && high * 0x400 == 0x8000_0000_0000_0000)
        by (nonlinear_arith)
        requires
            low == 0x10_0000_0000_0000,
            high == 0x20_0000_0000_0000,
    ;
    assert(in_binade(53, x, 10));
    lemma_rounded_is(53, x, 10);
    assert(0x7fff_ffff_ffff_ffffint / 0x400 == 0x1f_ffff_ffff_ffff);
    assert(0x7fff_ffff_ffff_ffffint % 0x400 == 0x3ff);
    assert(nearest_int(scaled(x, 10)) == 0x20_0000_0000_0000);
    lemma_rounded_exact(53, 1, 63);
    assert(dyadic(1, 63) == whole(0x8000_0000_0000_0000));
}

pub(crate) proof fn lemma_cancel(x: int, y: int, c: int)
    requires
        x * c <= y * c,
        c > 0,
    ensures
        x <= y,
{
    assert(x <= y) by (nonlinear_arith)
        requires
            x * c <= y * c,
            c > 0,
    ;
}

pub(crate) proof fn lemma_scale(x: int, y: int, c: int)
    requires
        x <= y,
        c >= 0,
    ensures
        x * c <= y * c,
{
    assert(x * c <= y * c) by (nonlinear_arith)
        requires
            x <= y,
            c >= 0,
    ;
}

/// Fewer than `n` of `n` steps, each rounded, make up no more than the whole, even where
/// the whole is rounded too.
proof fn lemma_short_steps_within(a: int, n: int, j: int)
    requires
        a >= 0,
        0 <= j < n <= pow2(51),
    ensures
        ({
            let step = rounded_up_from_zero(
                53,
                quotient(rounded_up_from_zero(53, whole(a)), whole(n)),
            );
            at_most(rounded_up_from_zero(53, product(step, whole(j))), whole(a))
        }),
{
    let t = pow2(53) as int;
    lemma_pow2_adds(51, 2);
    lemma2_to64();
    lemma_pow2_pos(51);
    let r = rounded_up_from_zero(53, whole(a));
    lemma_rounded_error(53, whole(a));
    lemma_rounded_positive(53, whole(a));
    let x = quotient(r, whole(n));
    lemma_positive_product(r.d, n);
    assert(x.n == r.n && x.d == r.d * n);
    let s = rounded_up_from_zero(53, x);
    lemma_rounded_error(53, x);
    lemma_rounded_positive(53, x);
    let y = product(s, whole(j));
    lemma_nonnegative_product(s.n, j);
    assert(y.n == s.n * j && y.d == s.d);
    let o = rounded_up_from_zero(53, y);
    lemma_rounded_error(53, y);
    lemma_rounded_positive(53, y);
    let u = t + 1;
    // The three roundings.
    assert(r.n * (1 * t) <= (a * u) * r.d);
    assert(s.n * ((r.d * n) * t) <= (r.n * u) * s.d);
    assert(o.n * (s.d * t) <= ((s.n * j) * u) * o.d);
    // Together.
    let w = (r.d * n) * t;
    lemma_positive_product(r.d * n, t);
    lemma_scale(o.n * (s.d * t), ((s.n * j) * u) * o.d, w);
    lemma_nonnegative_product(j, u);
    lemma_nonnegative_product(j * u, o.d);
    let z = (j * u) * o.d;
    lemma_scale(s.n * w, (r.n * u) * s.d, z);
    assert((((s.n * j) * u) * o.d) * w == (s.n * w) * z) by (nonlinear_arith)
        requires
            z == (j * u) * o.d,
    ;
    assert((o.n * (s.d * t)) * w == ((o.n * t) * w) * s.d) by (nonlinear_arith);
    assert(((r.n * u) * s.d) * z == ((r.n * u) * z) * s.d) by (nonlinear_arith);
    lemma_cancel((o.n * t) * w, (r.n * u) * z, s.d);
    lemma_scale((o.n * t) * w, (r.n * u) * z, t);
    lemma_nonnegative_product(u, z);
    lemma_scale(r.n * t, (a * u) * r.d, u * z);
    assert(((r.n * u) * z) * t == (r.n * t) * (u * z)) by (nonlinear_arith);
    assert(((o.n * t) * w) * t == (((o.n * t) * n) * (t * t)) * r.d) by (nonlinear_arith)
        requires
            w == (r.d * n) * t,
    ;
    assert(((a * u) * r.d) * (u * z) == ((a * u) * (u * z)) * r.d) by (nonlinear_arith);
    lemma_cancel(((o.n * t) * n) * (t * t), (a * u) * (u * z), r.d);
    // j (t + 1)^3 <= n t^3
    let cube = t * t * t;
    assert(j * (u * u * u) <= n * cube) by (nonlinear_arith)
        requires
            u == t + 1,
            cube == t * t * t,
            0 <= j <= n - 1,
            4 * n <= t,
            n >= 1,
    {
        assert(u * u * u == t * t * t + 3 * (t * t) + 3 * t + 1);
        assert(j * (u * u * u) <= (n - 1) * (u * u * u));
        assert((n - 1) * (u * u * u) == n * cube + n * (3 * (t * t) + 3 * t + 1) - (cube + 3 * (t
            * t) + 3 * t + 1));
        assert(n * (3 * (t * t) + 3 * t + 1) == 3 * (n * (t * t)) + 3 * (n * t) + n);
        assert(4 * (n * (t * t)) <= t * (t * t));
        assert(4 * (n * t) <= t * t);
    }
    lemma_nonnegative_product(a, o.d);
    lemma_scale(j * (u * u * u), n * cube, a * o.d);
    assert((a * u) * (u * z) == (j * (u * u * u)) * (a * o.d)) by (nonlinear_arith)
        requires
            z == (j * u) * o.d,
    ;
    assert(((o.n * t) * n) * (t * t) == o.n * (n * cube)) by (nonlinear_arith)
        requires
            cube == t * t * t,
    ;
    assert((n * cube) * (a * o.d) == (a * o.d) * (n * cube)) by (nonlinear_arith);
    lemma_positive_product(t, t);
    lemma_positive_product(t * t, t);
    lemma_positive_product(n, cube);
    lemma_cancel(o.n, a * o.d, n * cube);
}

/// Interpolated points lie between the ends, in order, where the ends are kept and there
/// are at most `2^51` steps, or `2^53` over a distance that is a double-precision number.
pub proof fn lemma_interpolated_ordered(left: int, right: int, count: int, i: int, j: int)
    requires
        i64::MIN <= left <= right <= i64::MAX,
        1 <= i <= j <= count,
        is_end(left),
        is_end(right),
        count + 1 <= pow2(51) || (count < pow2(53) && is_exact(right - left)),
    ensures
        left <= interpolated(left, right, count, i),
        interpolated(left, right, count, i) <= interpolated(left, right, count, j),
        interpolated(left, right, count, j) <= right,
{
    let a = right - left;
    let n = count + 1;
    assert(n <= pow2(53)) by {
        if n <= pow2(51) {
            lemma_pow2_strictly_increases(51, 53);
        }
    }
    let ra = rounded(53, whole(a));
    let rn = rounded(53, whole(n));
    let ri = rounded(53, whole(i));
    let rj = rounded(53, whole(j));
    lemma_small_is_exact(n);
    lemma_small_is_exact(i);
    lemma_small_is_exact(j);
    lemma_signed_rounded_positive(53, whole(a));
    lemma_signed_rounded_positive(53, whole(n));
    lemma_signed_rounded_positive(53, whole(i));
    lemma_signed_rounded_positive(53, whole(j));
    // The step, over the exact number of intervals.
    let s = rounded(53, quotient(ra, rn));
    let step = quotient(ra, whole(n));
    assert(same(ra, ra));
    lemma_same_quotient(ra, ra, rn, whole(n));
    lemma_positive_product(ra.d, rn.n);
    lemma_positive_product(ra.d, n);
    lemma_nonnegative_product(ra.n, rn.d);
    assert(step.n == ra.n && step.d == ra.d * n);
    lemma_signed_rounded_equal(53, quotient(ra, rn), step);
    lemma_signed_rounded_positive(53, step);
    // The offsets.
    let oi = rounded(53, product(s, ri));
    let oj = rounded(53, product(s, rj));
    let xi = product(s, whole(i));
    let xj = product(s, whole(j));
    assert(same(s, s));
    lemma_same_product(s, s, ri, whole(i));
    lemma_same_product(s, s, rj, whole(j));
    lemma_positive_product(s.d, ri.d);
    lemma_positive_product(s.d, rj.d);
    lemma_signed_rounded_equal(53, product(s, ri), xi);
    lemma_signed_rounded_equal(53, product(s, rj), xj);
    lemma_product_monotone(s, i, j);
    lemma_rounded_monotone(53, xi, xj);
    lemma_nonnegative_product(s.n, i);
    lemma_nonnegative_product(s.n, j);
    lemma_signed_rounded_positive(53, xi);
    lemma_signed_rounded_positive(53, xj);
    assert(at_most(oj, whole(a))) by {
        if n <= pow2(51) {
            lemma_short_steps_within(a, n, j);
        } else {
            let exact_step = quotient(whole(a), whole(n));
            lemma_same_quotient(ra, whole(a), whole(n), whole(n));
            assert(exact_step.n == a && exact_step.d == n);
            lemma_signed_rounded_equal(53, step, exact_step);
            lemma_steps_within(a, count, j);
            lemma_rounded_monotone(53, xj, whole(a));
            lemma_at_most_same(oj, oj, ra, whole(a));
        }
    }
    // The points.
    let rl = rounded(53, whole(left));
    let rr = rounded(53, whole(right));
    lemma_signed_rounded_positive(53, whole(left));
    lemma_signed_rounded_positive(53, whole(right));
    let c = if is_exact(left) {
        left
    } else {
        0x8000_0000_0000_0000
    };
    lemma_greatest_rounded();
    assert(same(rl, whole(c)) && is_exact(c));
    let ti = total(rl, oi);
    let tj = total(rl, oj);
    let t0 = total(rl, whole(0));
    assert(at_most(whole(0), oi)) by {
        assert(0 * oi.d <= oi.n * 1);
    }
    lemma_total_monotone(rl, whole(0), oi);
    lemma_total_monotone(rl, oi, oj);
    lemma_positive_product(rl.d, oi.d);
    lemma_positive_product(rl.d, oj.d);
    assert(t0.d == rl.d);
    assert(same(whole(0), whole(0)));
    lemma_same_total(rl, whole(c), whole(0), whole(0));
    assert(total(whole(c), whole(0)) == whole(c));
    lemma_signed_rounded_equal(53, t0, whole(c));
    lemma_rounded_monotone(53, t0, ti);
    lemma_rounded_monotone(53, ti, tj);
    lemma_signed_rounded_positive(53, ti);
    lemma_signed_rounded_positive(53, tj);
    lemma_signed_rounded_positive(53, whole(c));
    lemma_truncated_whole(rounded(53, whole(c)), c);
    lemma_truncated_monotone(rounded(53, whole(c)), rounded(53, ti));
    lemma_truncated_monotone(rounded(53, ti), rounded(53, tj));
    if right < i64::MAX {
        let ta = total(rl, whole(a));
        lemma_total_monotone(rl, oj, whole(a));
        assert(ta.d == rl.d);
        assert(same(whole(a), whole(a)));
        lemma_same_total(rl, whole(left), whole(a), whole(a));
        assert(total(whole(left), whole(a)) == whole(right));
        lemma_signed_rounded_equal(53, ta, whole(right));
        lemma_rounded_monotone(53, tj, ta);
        lemma_truncated_whole(rr, right);
        lemma_truncated_monotone(rounded(53, tj), rr);
    }
}

/// Interpolated points are `i64` values.
pub proof fn lemma_interpolated_range(left: int, right: int, count: int, index: int)
    ensures
        i64::MIN <= interpolated(left, right, count, index) <= i64::MAX,
{
}

/// The exponent field of a double-precision bit pattern.
pub open spec fn exponent_field(b: u64) -> int {
    (b as int / 0x10_0000_0000_0000) % 0x800
}

/// The bit pattern is that of a number.
pub open spec fn is_finite(b: u64) -> bool {
    exponent_field(b) != 0x7ff
}

/// The number with the double-precision bit pattern `b`.
pub open spec fn number(b: u64) -> Ratio {
    let field = exponent_field(b);
    let fraction = b as int % 0x10_0000_0000_0000;
    signed(
        b >= 0x8000_0000_0000_0000,
        if field == 0 {
            dyadic(fraction, -1074)
        } else {
            dyadic(0x10_0000_0000_0000 + fraction, field - 1075)
        },
    )
}

/// A thousandth of `milliseconds`, in double precision.
pub open spec fn thousandth(milliseconds: int) -> Ratio {
    rounded(53, quotient(rounded(53, whole(milliseconds)), whole(1000)))
}

/// The bit pattern of a thousandth of `milliseconds`, in double precision.
pub fn seconds(milliseconds: i64) -> (b: u64)
    ensures
        is_finite(b),
        same(number(b), thousandth(milliseconds as int)),
        milliseconds == 0 ==> b == 0,
{
    let size: u64 = if milliseconds >= 0 {
        milliseconds as u64
    } else {
        (-(milliseconds as i128)) as u64
    };
    let a: Rounded = from_integer(53, size as u128);
    let k: Rounded = from_integer(53, 1000);
    let r: Rounded = divide(&a, &k);
    proof {
        lemma2_to64();
        lemma2_to64_rest();
        lemma_rounded_whole(53, 1000);
        let ra = rounded_up_from_zero(53, whole(size as int));
        let rk = rounded_up_from_zero(53, whole(1000));
        lemma_rounded_positive(53, whole(size as int));
        lemma_rounded_positive(53, whole(1000));
        lemma_dyadic_positive(a.m as int, a.e as int);
        lemma_dyadic_positive(k.m as int, k.e as int);
        lemma_dyadic_positive(r.m as int, r.e as int);
        assert(same(rk, whole(1000)));
        lemma_same_transitive(k.value(), rk, whole(1000));
        let x = quotient(a.value(), k.value());
        let y = quotient(ra, whole(1000));
        lemma_same_quotient(a.value(), ra, k.value(), whole(1000));
        lemma_positive_product(a.value().d, k.value().n);
        lemma_positive_product(ra.d, 1000);
        lemma_nonnegative_product(a.value().n, k.value().d);
        lemma_rounded_equal(53, x, y);
        lemma_rounded_positive(53, y);
        assert(ra.n * 1 == ra.n);
        assert((-ra.n) * 1 == -ra.n);
        let q = rounded_up_from_zero(53, y);
        // The exact quotient has the sign of the milliseconds.
        assert(thousandth(milliseconds as int) == signed(milliseconds < 0, q)) by {
            let t = quotient(rounded(53, whole(milliseconds as int)), whole(1000));
            assert(t.d == y.d);
            assert(t == signed(milliseconds < 0, y));
        }
        assert(same(r.value(), q));
        assert((-r.value().n) * q.d == (-q.n) * r.value().d) by (nonlinear_arith)
            requires
                r.value().n * q.d == q.n * r.value().d,
        ;
    }
    if r.m == 0 {
        proof {
            lemma_dyadic_zero(-1074);
            assert(r.value().n == 0);
            let (n, d) = (rounded_up_from_zero(
                53,
                quotient(rounded_up_from_zero(53, whole(size as int)), whole(1000)),
            ).n, r.value().d);
            assert(n == 0) by (nonlinear_arith)
                requires
                    n * d == 0,
                    d > 0,
            ;
            assert(number(0).n == 0 && thousandth(milliseconds as int).n == 0);
        }
        return 0;
    }
    let field: u64 = (r.e + 1075) as u64;
    let fraction: u64 = r.m - 0x10_0000_0000_0000;
    let bits: u64 = field * 0x10_0000_0000_0000 + fraction;
    if milliseconds < 0 {
        bits + 0x8000_0000_0000_0000
    } else {
        bits
    }
}

/// The denominator of a number is positive.
pub proof fn lemma_number_has_value(b: u64)
    ensures
        number(b).d > 0,
{
    let field = exponent_field(b);
    let fraction = b as int % 0x10_0000_0000_0000;
    if field == 0 {
        lemma_dyadic_positive(fraction, -1074);
    } else {
        lemma_dyadic_positive(0x10_0000_0000_0000 + fraction, field - 1075);
    }
}

/// Later times in milliseconds are not earlier in seconds.
pub proof fn lemma_thousandths_in_order(a: int, b: int)
    requires
        a <= b,
    ensures
        at_most(thousandth(a), thousandth(b)),
        thousandth(a).d > 0,
        thousandth(b).d > 0,
{
    let (x, y) = (whole(a), whole(b));
    lemma_rounded_monotone(53, x, y);
    lemma_signed_rounded_positive(53, x);
    lemma_signed_rounded_positive(53, y);
    let (u, v) = (rounded(53, x), rounded(53, y));
    let (p, q) = (quotient(u, whole(1000)), quotient(v, whole(1000)));
    assert((u.n * 1) * (v.d * 1000) <= (v.n * 1) * (u.d * 1000)) by (nonlinear_arith)
        requires
            u.n * v.d <= v.n * u.d,
    ;
    assert(at_most(p, q));
    lemma_rounded_monotone(53, p, q);
    lemma_signed_rounded_positive(53, p);
    lemma_signed_rounded_positive(53, q);
}

} // verus!

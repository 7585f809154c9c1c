//! Round-to-nearest-even arithmetic on significands of a fixed width.
//!
//! Floating-point operations are carried out here on integers, and their
//! results are stated over exact fractions: every operation is the exact one
//! followed by one rounding to the nearest number with so many significant
//! bits.

use vstd::arithmetic::div_mod::{lemma_fundamental_div_mod, lemma_fundamental_div_mod_converse};
use vstd::arithmetic::power2::{
    lemma2_to64, lemma2_to64_rest, lemma_pow2_adds, lemma_pow2_pos, lemma_pow2_strictly_increases,
    lemma_pow2_unfold, pow2,
};
use vstd::prelude::*;

verus! {

/// The fraction `n / d`.
pub struct Ratio {
    pub n: int,
    pub d: int,
}

/// `x` and `y` denote the same number.
pub open spec fn same(x: Ratio, y: Ratio) -> bool {
    x.n * y.d == y.n * x.d
}

/// The number `x / 2^e`.
pub open spec fn scaled(x: Ratio, e: int) -> Ratio {
    if e >= 0 {
        Ratio { n: x.n, d: x.d * pow2(e as nat) }
    } else {
        Ratio { n: x.n * pow2((-e) as nat), d: x.d }
    }
}

/// The number `m * 2^e`.
pub open spec fn dyadic(m: int, e: int) -> Ratio {
    if e >= 0 {
        Ratio { n: m * pow2(e as nat), d: 1 }
    } else {
        Ratio { n: m, d: pow2((-e) as nat) as int }
    }
}

/// The integer nearest to `x`; of two equally near ones, the even one.
pub open spec fn nearest_int(x: Ratio) -> int {
    let q = x.n / x.d;
    let r = x.n % x.d;
    if 2 * r < x.d || (2 * r == x.d && q % 2 == 0) {
        q
    } else {
        q + 1
    }
}

/// `x / 2^e` lies in the range of bits-bit significands.
pub open spec fn in_binade(bits: nat, x: Ratio, e: int) -> bool {
    let y = scaled(x, e);
    pow2((bits - 1) as nat) * y.d <= y.n < pow2(bits) * y.d
}

/// The number with a bits-bit significand nearest to `x`, for `x >= 0`.
pub open spec fn rounded_up_from_zero(bits: nat, x: Ratio) -> Ratio {
    if x.n == 0 {
        Ratio { n: 0, d: 1 }
    } else {
        let e = choose|e: int| in_binade(bits, x, e);
        dyadic(nearest_int(scaled(x, e)), e)
    }
}

/// The number with a bits-bit significand nearest to `x`, ties to even.
pub open spec fn rounded(bits: nat, x: Ratio) -> Ratio {
    if x.n >= 0 {
        rounded_up_from_zero(bits, x)
    } else {
        let y = rounded_up_from_zero(bits, Ratio { n: -x.n, d: x.d });
        Ratio { n: -y.n, d: y.d }
    }
}

/// `x` without its fractional part.
pub open spec fn truncated(x: Ratio) -> int {
    if x.n >= 0 {
        x.n / x.d
    } else {
        -((-x.n) / x.d)
    }
}

/// The integer `x` as a fraction.
pub open spec fn whole(x: int) -> Ratio {
    Ratio { n: x, d: 1 }
}

pub open spec fn product(x: Ratio, y: Ratio) -> Ratio {
    Ratio { n: x.n * y.n, d: x.d * y.d }
}

pub open spec fn quotient(x: Ratio, y: Ratio) -> Ratio {
    Ratio { n: x.n * y.d, d: x.d * y.n }
}

pub open spec fn total(x: Ratio, y: Ratio) -> Ratio {
    Ratio { n: x.n * y.d + y.n * x.d, d: x.d * y.d }
}

pub(crate) proof fn lemma_same_transitive(x: Ratio, y: Ratio, z: Ratio)
    requires
        same(x, y),
        same(y, z),
        x.d > 0,
        y.d > 0,
        z.d > 0,
    ensures
        same(x, z),
{
    assert(x.n * z.d == z.n * x.d) by (nonlinear_arith)
        requires
            x.n * y.d == y.n * x.d,
            y.n * z.d == z.n * y.d,
            y.d > 0,
    {
        assert((x.n * z.d) * y.d == (z.n * x.d) * y.d);
    }
}

/// Comparing with an integer does not depend on how the fraction is written.
pub(crate) proof fn lemma_same_order(x: Ratio, y: Ratio, c: int)
    requires
        same(x, y),
        x.d > 0,
        y.d > 0,
    ensures
        c * x.d <= x.n <==> c * y.d <= y.n,
{
    if c * x.d <= x.n {
        assert(c * y.d <= y.n) by (nonlinear_arith)
            requires
                c * x.d <= x.n,
                x.n * y.d == y.n * x.d,
                x.d > 0,
                y.d > 0,
        {
            assert((c * x.d) * y.d <= x.n * y.d);
            assert((c * y.d) * x.d <= y.n * x.d);
        }
    }
    if c * y.d <= y.n {
        assert(c * x.d <= x.n) by (nonlinear_arith)
            requires
                c * y.d <= y.n,
                x.n * y.d == y.n * x.d,
                x.d > 0,
                y.d > 0,
        {
            assert((c * y.d) * x.d <= y.n * x.d);
            assert((c * x.d) * y.d <= x.n * y.d);
        }
    }
}

pub(crate) proof fn lemma_floor(x: Ratio, q: int)
    requires
        x.d > 0,
        q * x.d <= x.n < (q + 1) * x.d,
    ensures
        x.n / x.d == q,
        x.n % x.d == x.n - q * x.d,
{
    assert((q + 1) * x.d == q * x.d + x.d) by (nonlinear_arith);
    lemma_fundamental_div_mod_converse(x.n, x.d, q, x.n - q * x.d);
}

pub(crate) proof fn lemma_floor_bounds(x: Ratio)
    requires
        x.d > 0,
    ensures
        (x.n / x.d) * x.d <= x.n < (x.n / x.d + 1) * x.d,
        x.n % x.d == x.n - (x.n / x.d) * x.d,
        0 <= x.n % x.d < x.d,
{
    lemma_fundamental_div_mod(x.n, x.d);
    let q = x.n / x.d;
    assert(x.d * q == q * x.d) by (nonlinear_arith);
    assert((q + 1) * x.d == q * x.d + x.d) by (nonlinear_arith);
}

/// The floor and the nearest integer do not depend on how the fraction is written.
pub(crate) proof fn lemma_same_nearest(x: Ratio, y: Ratio)
    requires
        same(x, y),
        x.d > 0,
        y.d > 0,
    ensures
        x.n / x.d == y.n / y.d,
        x.n % x.d == 0 <==> y.n % y.d == 0,
        nearest_int(x) == nearest_int(y),
{
    lemma_floor_bounds(x);
    let q = x.n / x.d;
    lemma_same_order(x, y, q);
    lemma_same_order(x, y, q + 1);
    lemma_floor(y, q);
    let rx = x.n % x.d;
    let ry = y.n % y.d;
    assert(rx * y.d == ry * x.d) by (nonlinear_arith)
        requires
            rx == x.n - q * x.d,
            ry == y.n - q * y.d,
            x.n * y.d == y.n * x.d,
    ;
    assert((2 * rx) * y.d == (2 * ry) * x.d) by (nonlinear_arith)
        requires
            rx * y.d == ry * x.d,
    ;
    lemma_same_order(Ratio { n: 2 * rx, d: x.d }, Ratio { n: 2 * ry, d: y.d }, 1);
    assert(rx == 0 <==> ry == 0) by (nonlinear_arith)
        requires
            rx * y.d == ry * x.d,
            x.d > 0,
            y.d > 0,
    ;
    assert(2 * rx == x.d <==> 2 * ry == y.d) by (nonlinear_arith)
        requires
            (2 * rx) * y.d == (2 * ry) * x.d,
            x.d > 0,
            y.d > 0,
    {
        if 2 * rx == x.d {
            assert(x.d * y.d == (2 * ry) * x.d);
            assert(x.d * (y.d - 2 * ry) == 0);
        }
        if 2 * ry == y.d {
            assert((2 * rx) * y.d == y.d * x.d);
            assert(y.d * (2 * rx - x.d) == 0);
        }
    }
}

pub(crate) proof fn lemma_scaled_positive(x: Ratio, e: int)
    requires
        x.d > 0,
    ensures
        scaled(x, e).d > 0,
        x.n >= 0 ==> scaled(x, e).n >= 0,
        x.n > 0 ==> scaled(x, e).n > 0,
{
    if e >= 0 {
        lemma_pow2_pos(e as nat);
        assert(x.d * pow2(e as nat) > 0) by (nonlinear_arith)
            requires
                x.d > 0,
                pow2(e as nat) > 0,
        ;
    } else {
        let p = pow2((-e) as nat) as int;
        lemma_pow2_pos((-e) as nat);
        assert(x.n >= 0 ==> x.n * p >= 0) by (nonlinear_arith)
            requires
                p > 0,
        ;
        assert(x.n > 0 ==> x.n * p > 0) by (nonlinear_arith)
            requires
                p > 0,
        ;
    }
}

/// Dividing by `2^k` once more multiplies the denominator by `2^k`.
pub(crate) proof fn lemma_scaled_shift(x: Ratio, e: int, k: nat)
    requires
        x.d > 0,
    ensures
        same(scaled(x, e + k), Ratio { n: scaled(x, e).n, d: scaled(x, e).d * pow2(k) }),
{
    let n = x.n;
    let d = x.d;
    let pk = pow2(k) as int;
    if e >= 0 {
        lemma_pow2_adds(e as nat, k);
        let pe = pow2(e as nat) as int;
        assert(n * ((d * pe) * pk) == n * (d * (pe * pk))) by (nonlinear_arith);
    } else if e + k >= 0 {
        let a = (-e) as nat;
        let b = (e + k) as nat;
        lemma_pow2_adds(a, b);
        let pa = pow2(a) as int;
        let pb = pow2(b) as int;
        assert(n * (d * (pa * pb)) == (n * pa) * (d * pb)) by (nonlinear_arith);
    } else {
        let a = (-(e + k)) as nat;
        lemma_pow2_adds(a, k);
        let pa = pow2(a) as int;
        assert((n * pa) * (d * pk) == (n * (pa * pk)) * d) by (nonlinear_arith);
    }
}

pub(crate) proof fn lemma_same_scaled(x: Ratio, y: Ratio, e: int)
    requires
        same(x, y),
    ensures
        same(scaled(x, e), scaled(y, e)),
{
    let p = if e >= 0 {
        pow2(e as nat) as int
    } else {
        pow2((-e) as nat) as int
    };
    assert(x.n * (y.d * p) == y.n * (x.d * p)) by (nonlinear_arith)
        requires
            x.n * y.d == y.n * x.d,
    ;
    assert((x.n * p) * y.d == (y.n * p) * x.d) by (nonlinear_arith)
        requires
            x.n * y.d == y.n * x.d,
    ;
}

pub(crate) proof fn lemma_binade_unique(bits: nat, x: Ratio, e1: int, e2: int)
    requires
        bits >= 2,
        x.d > 0,
        in_binade(bits, x, e1),
        in_binade(bits, x, e2),
    ensures
        e1 == e2,
{
    if e1 < e2 {
        lemma_binade_ordered(bits, x, e1, e2);
    }
    if e2 < e1 {
        lemma_binade_ordered(bits, x, e2, e1);
    }
}

pub(crate) proof fn lemma_binade_ordered(bits: nat, x: Ratio, e1: int, e2: int)
    requires
        bits >= 2,
        x.d > 0,
        in_binade(bits, x, e1),
        e1 < e2,
    ensures
        !in_binade(bits, x, e2),
{
    let k = (e2 - e1) as nat;
    let y = scaled(x, e1);
    let z = Ratio { n: y.n, d: y.d * pow2(k) };
    lemma_scaled_positive(x, e1);
    lemma_scaled_positive(x, e2);
    lemma_scaled_shift(x, e1, k);
    lemma_pow2_pos(k);
    assert(z.d > 0) by (nonlinear_arith)
        requires
            z.d == y.d * pow2(k),
            y.d > 0,
            pow2(k) > 0,
    ;
    lemma_same_order(scaled(x, e2), z, pow2((bits - 1) as nat) as int);
    if k > 1 {
        lemma_pow2_strictly_increases(1, k);
    }
    lemma_pow2_unfold(1);
    lemma_pow2_unfold(bits);
    assert(pow2(0) == 1) by {
        lemma2_to64();
    }
    assert(pow2(k) >= 2);
    assert(pow2((bits - 1) as nat) * z.d > y.n) by (nonlinear_arith)
        requires
            y.d > 0,
            pow2(k) >= 2,
            pow2(bits) == 2 * pow2((bits - 1) as nat),
            z.d == y.d * pow2(k),
            y.n < pow2(bits) * y.d,
            pow2((bits - 1) as nat) >= 0,
    {
        assert(pow2((bits - 1) as nat) * (y.d * pow2(k)) >= pow2((bits - 1) as nat) * (y.d * 2));
    }
}

/// Rounding does not depend on how the fraction is written.
pub(crate) proof fn lemma_same_rounded(bits: nat, x: Ratio, y: Ratio)
    requires
        bits >= 2,
        same(x, y),
        x.d > 0,
        y.d > 0,
        x.n > 0,
    ensures
        y.n > 0,
        forall|e: int| in_binade(bits, x, e) <==> in_binade(bits, y, e),
        (exists|e: int| in_binade(bits, x, e)) ==> rounded_up_from_zero(bits, x) == rounded_up_from_zero(bits, y),
{
    lemma_same_order(x, y, 1);
    assert(y.n > 0) by (nonlinear_arith)
        requires
            x.n * y.d == y.n * x.d,
            x.d > 0,
            y.d > 0,
            x.n > 0,
    {
        assert(x.n * y.d > 0);
        if y.n <= 0 {
            assert(y.n * x.d <= 0);
        }
    }
    assert forall|e: int| in_binade(bits, x, e) <==> in_binade(bits, y, e) by {
        lemma_same_scaled(x, y, e);
        lemma_scaled_positive(x, e);
        lemma_scaled_positive(y, e);
        lemma_same_order(scaled(x, e), scaled(y, e), pow2((bits - 1) as nat) as int);
        lemma_same_order(scaled(x, e), scaled(y, e), pow2(bits) as int);
    }
    if exists|e: int| in_binade(bits, x, e) {
        let ex = choose|e: int| in_binade(bits, x, e);
        let ey = choose|e: int| in_binade(bits, y, e);
        assert(in_binade(bits, y, ex));
        lemma_binade_unique(bits, y, ex, ey);
        lemma_same_scaled(x, y, ex);
        lemma_scaled_positive(x, ex);
        lemma_scaled_positive(y, ex);
        lemma_same_nearest(scaled(x, ex), scaled(y, ex));
    }
}

/// The significand and exponent of the rounding of a number whose floor in
/// units of `2^e` is `v`.
///
/// `sticky` tells whether the number exceeds `v * 2^e`; `b` is the position of
/// the leading bit of `v`.
pub open spec fn significand(bits: nat, v: int, sticky: bool, b: int) -> int {
    if b <= (bits - 1) {
        v * pow2(((bits - 1) - b) as nat)
    } else {
        let half = pow2((b - bits) as nat) as int;
        let q = v / (2 * half);
        let r = v % (2 * half);
        if r < half || (r == half && !sticky && q % 2 == 0) {
            q
        } else {
            q + 1
        }
    }
}

pub(crate) proof fn lemma_round_small(bits: nat, x: Ratio, e: int, v: int, b: int)
    requires
        bits >= 2,
        x.d > 0,
        v > 0,
        0 <= b <= (bits - 1),
        pow2(b as nat) <= v < pow2((b + 1) as nat),
        scaled(x, e).n == v * scaled(x, e).d,
    ensures
        in_binade(bits, x, e + b - (bits - 1)),
        nearest_int(scaled(x, e + b - (bits - 1))) == v * pow2(((bits - 1) - b) as nat),
{
    let k = ((bits - 1) - b) as nat;
    let y = scaled(x, e - k);
    let z = scaled(x, e);
    let pk = pow2(k) as int;
    lemma_scaled_positive(x, e - k);
    lemma_scaled_positive(x, e);
    lemma_scaled_shift(x, e - k, k);
    lemma_pow2_pos(k);
    // y = z * 2^k
    let w = Ratio { n: v * pk, d: 1 };
    assert(y.n * 1 == (v * pk) * y.d) by (nonlinear_arith)
        requires
            z.n * (y.d * pk) == y.n * z.d,
            z.n == v * z.d,
            z.d > 0,
    {
        assert((v * z.d) * (y.d * pk) == y.n * z.d);
        assert(z.d * (v * pk * y.d) == z.d * y.n);
    }
    lemma_same_nearest(y, w);
    lemma_same_order(y, w, pow2((bits - 1) as nat) as int);
    lemma_same_order(y, w, pow2(bits) as int);
    assert(w.n / 1 == w.n && w.n % 1 == 0);
    lemma_pow2_adds(b as nat, k);
    lemma_pow2_adds((b + 1) as nat, k);
    assert(pow2((bits - 1) as nat) <= v * pk < pow2(bits)) by (nonlinear_arith)
        requires
            pow2(b as nat) <= v < pow2((b + 1) as nat),
            pow2(b as nat) * pk == pow2((bits - 1) as nat),
            pow2((b + 1) as nat) * pk == pow2(bits),
            pk > 0,
    ;
}

pub(crate) proof fn lemma_round_large(bits: nat, x: Ratio, e: int, v: int, b: int)
    requires
        bits >= 2,
        x.d > 0,
        v > 0,
        b >= bits,
        pow2(b as nat) <= v < pow2((b + 1) as nat),
        scaled(x, e).n / scaled(x, e).d == v,
    ensures
        in_binade(bits, x, e + b - (bits - 1)),
        nearest_int(scaled(x, e + b - (bits - 1))) == significand(bits, 
            v,
            scaled(x, e).n % scaled(x, e).d != 0,
            b,
        ),
{
    let k = (b - (bits - 1)) as nat;
    let y = scaled(x, e);
    let z = scaled(x, e + k);
    let pk = pow2(k) as int;
    let half = pow2((b - bits) as nat) as int;
    lemma_scaled_positive(x, e);
    lemma_scaled_positive(x, e + k);
    lemma_scaled_shift(x, e, k);
    lemma_pow2_pos(k);
    lemma_pow2_pos((b - bits) as nat);
    lemma_pow2_unfold(k);
    assert(pk == 2 * half);
    let w = Ratio { n: y.n, d: y.d * pk };
    assert(w.d > 0) by (nonlinear_arith)
        requires
            w.d == y.d * pk,
            y.d > 0,
            pk > 0,
    ;
    lemma_floor_bounds(y);
    let s = y.n - v * y.d;
    let q = v / pk;
    let r = v % pk;
    lemma_fundamental_div_mod(v, pk);
    // The remainder of `w` is the low bits of `v` together with the fraction.
    let rw = r * y.d + s;
    assert(y.n == q * w.d + rw) by (nonlinear_arith)
        requires
            w.d == y.d * pk,
            v == pk * q + r,
            s == y.n - v * y.d,
            rw == r * y.d + s,
    ;
    assert(0 <= rw < w.d) by (nonlinear_arith)
        requires
            rw == r * y.d + s,
            0 <= s < y.d,
            0 <= r < pk,
            w.d == y.d * pk,
    {
        assert(r * y.d <= (pk - 1) * y.d);
    }
    assert((q + 1) * w.d == q * w.d + w.d) by (nonlinear_arith);
    lemma_floor(w, q);
    assert(2 * rw < w.d <==> r < half) by (nonlinear_arith)
        requires
            rw == r * y.d + s,
            0 <= s < y.d,
            pk == 2 * half,
            w.d == y.d * pk,
            y.d > 0,
    {
        if r < half {
            assert(r * y.d <= (half - 1) * y.d);
        } else {
            assert(r * y.d >= half * y.d);
        }
    }
    assert(2 * rw == w.d <==> r == half && s == 0) by (nonlinear_arith)
        requires
            rw == r * y.d + s,
            0 <= s < y.d,
            pk == 2 * half,
            w.d == y.d * pk,
            y.d > 0,
    {
        if r < half {
            assert(r * y.d <= (half - 1) * y.d);
        } else if r > half {
            assert(r * y.d >= (half + 1) * y.d);
        }
    }
    lemma_same_nearest(z, w);
    lemma_same_order(z, w, pow2((bits - 1) as nat) as int);
    lemma_same_order(z, w, pow2(bits) as int);
    lemma_pow2_adds((bits - 1) as nat, k);
    lemma_pow2_adds(bits, k);
    assert(pow2((bits - 1) as nat) * w.d <= w.n < pow2(bits) * w.d) by (nonlinear_arith)
        requires
            w.d == y.d * pk,
            w.n == y.n,
            pow2((bits - 1) as nat) * pk <= v < pow2(bits) * pk,
            v * y.d <= y.n < (v + 1) * y.d,
            y.d > 0,
    {
        assert((pow2((bits - 1) as nat) * pk) * y.d <= v * y.d);
        assert((v + 1) * y.d <= (pow2(bits) * pk) * y.d);
    }
}

pub(crate) proof fn lemma_leading_bit(v: int) -> (b: nat)
    requires
        v > 0,
    ensures
        pow2(b) <= v < pow2(b + 1),
    decreases v,
{
    assert(pow2(0) == 1 && pow2(1) == 2) by {
        lemma2_to64();
    }
    if v == 1 {
        0
    } else {
        let b = lemma_leading_bit(v / 2);
        lemma_pow2_unfold(b + 1);
        lemma_pow2_unfold(b + 2);
        b + 1
    }
}

pub(crate) proof fn lemma_pow2_exceeds(k: nat)
    ensures
        pow2(k) > k,
    decreases k,
{
    if k == 0 {
        lemma_pow2_pos(0);
    } else {
        lemma_pow2_exceeds((k - 1) as nat);
        lemma_pow2_unfold(k);
    }
}

pub(crate) proof fn lemma_binade_exists(bits: nat, x: Ratio) -> (e: int)
    requires
        bits >= 2,
        x.n > 0,
        x.d > 0,
    ensures
        in_binade(bits, x, e),
{
    let k = (x.d + bits) as nat;
    let y = scaled(x, -k);
    let v = y.n / y.d;
    lemma_scaled_positive(x, -k);
    lemma_floor_bounds(y);
    lemma_pow2_exceeds(x.d as nat);
    lemma_pow2_adds(x.d as nat, bits);
    lemma_pow2_pos(bits);
    let p = pow2(bits) as int;
    assert(y.n >= p * y.d) by (nonlinear_arith)
        requires
            y.n == x.n * pow2(k),
            y.d == x.d,
            x.n > 0,
            pow2(k) == pow2(x.d as nat) * p,
            pow2(x.d as nat) > x.d,
            x.d > 0,
            p > 0,
    {
        assert(x.n * pow2(k) >= pow2(k));
        assert(pow2(x.d as nat) * p >= x.d * p);
    }
    assert(v >= p) by (nonlinear_arith)
        requires
            y.n >= p * y.d,
            y.n < (v + 1) * y.d,
            y.d > 0,
    ;
    let b = lemma_leading_bit(v);
    if b < bits {
        if b + 1 < bits {
            lemma_pow2_strictly_increases(b + 1, bits);
        }
    }
    lemma_round_large(bits, x, -k, v, b as int);
    -k + b - (bits - 1)
}

/// The facts that pin the rounding of a positive number down.
pub(crate) proof fn lemma_rounded_is(bits: nat, x: Ratio, e: int)
    requires
        bits >= 2,
        x.n > 0,
        x.d > 0,
        in_binade(bits, x, e),
    ensures
        rounded_up_from_zero(bits, x) == dyadic(nearest_int(scaled(x, e)), e),
        pow2((bits - 1) as nat) <= nearest_int(scaled(x, e)) <= pow2(bits),
{
    let f = choose|f: int| in_binade(bits, x, f);
    lemma_binade_unique(bits, x, e, f);
    let y = scaled(x, e);
    lemma_scaled_positive(x, e);
    lemma_floor_bounds(y);
    let q = y.n / y.d;
    let lo = pow2((bits - 1) as nat) as int;
    let hi = pow2(bits) as int;
    assert(lo <= q < hi) by (nonlinear_arith)
        requires
            lo * y.d <= y.n < hi * y.d,
            q * y.d <= y.n < (q + 1) * y.d,
            y.d > 0,
    ;
}

pub(crate) proof fn lemma_dyadic_positive(m: int, e: int)
    ensures
        dyadic(m, e).d > 0,
        m >= 0 ==> dyadic(m, e).n >= 0,
        m > 0 ==> dyadic(m, e).n > 0,
{
    if e >= 0 {
        let p = pow2(e as nat) as int;
        lemma_pow2_pos(e as nat);
        assert(m >= 0 ==> m * p >= 0) by (nonlinear_arith)
            requires
                p > 0,
        ;
        assert(m > 0 ==> m * p > 0) by (nonlinear_arith)
            requires
                p > 0,
        ;
    } else {
        lemma_pow2_pos((-e) as nat);
    }
}

/// `2^e` with all exponents moved up by `k`.
pub open spec fn lifted(e: int, k: int) -> int {
    pow2((e + k) as nat) as int
}

pub(crate) proof fn lemma_lifted(e: int, f: int, k: int)
    requires
        e + k >= 0,
        f + k >= 0,
        e + f + k >= 0,
        k >= 0,
    ensures
        lifted(e, k) > 0,
        lifted(0, k) > 0,
        lifted(e, k) * lifted(f, k) == lifted(e + f, k) * lifted(0, k),
{
    lemma_pow2_pos((e + k) as nat);
    lemma_pow2_pos(k as nat);
    lemma_pow2_adds((e + k) as nat, (f + k) as nat);
    lemma_pow2_adds((e + f + k) as nat, k as nat);
}

pub(crate) proof fn lemma_dyadic_lifted(m: int, e: int, k: int)
    requires
        e + k >= 0,
        k >= 0,
    ensures
        same(dyadic(m, e), Ratio { n: m * lifted(e, k), d: lifted(0, k) }),
{
    if e >= 0 {
        lemma_pow2_adds(e as nat, k as nat);
        let pe = pow2(e as nat) as int;
        let pk = pow2(k as nat) as int;
        assert((m * pe) * pk == m * (pe * pk)) by (nonlinear_arith);
    } else {
        lemma_pow2_adds((e + k) as nat, (-e) as nat);
        let pa = pow2((e + k) as nat) as int;
        let pb = pow2((-e) as nat) as int;
        assert(m * (pa * pb) == (m * pa) * pb) by (nonlinear_arith);
    }
}

pub(crate) proof fn lemma_scaled_lifted(x: Ratio, e: int, k: int)
    requires
        e + k >= 0,
        k >= 0,
    ensures
        same(scaled(x, e), Ratio { n: x.n * lifted(0, k), d: x.d * lifted(e, k) }),
{
    if e >= 0 {
        lemma_pow2_adds(e as nat, k as nat);
        let pe = pow2(e as nat) as int;
        let pk = pow2(k as nat) as int;
        assert(x.n * (x.d * (pe * pk)) == (x.n * pk) * (x.d * pe)) by (nonlinear_arith);
    } else {
        lemma_pow2_adds((e + k) as nat, (-e) as nat);
        let pa = pow2((e + k) as nat) as int;
        let pb = pow2((-e) as nat) as int;
        assert((x.n * pb) * (x.d * pa) == (x.n * (pa * pb)) * x.d) by (nonlinear_arith);
    }
}

/// The first number is at most the second.
pub open spec fn at_most(x: Ratio, y: Ratio) -> bool {
    x.n * y.d <= y.n * x.d
}

pub(crate) proof fn lemma_at_most_same(x: Ratio, x2: Ratio, y: Ratio, y2: Ratio)
    requires
        at_most(x, y),
        same(x, x2),
        same(y, y2),
        x.d > 0,
        x2.d > 0,
        y.d > 0,
        y2.d > 0,
    ensures
        at_most(x2, y2),
{
    assert(x2.n * y2.d <= y2.n * x2.d) by (nonlinear_arith)
        requires
            x.n * y.d <= y.n * x.d,
            x.n * x2.d == x2.n * x.d,
            y.n * y2.d == y2.n * y.d,
            x.d > 0,
            x2.d > 0,
            y.d > 0,
            y2.d > 0,
    {
        assert((x.n * y.d) * (x2.d * y2.d) <= (y.n * x.d) * (x2.d * y2.d));
        assert((x.n * x2.d) * (y.d * y2.d) <= (y.n * y2.d) * (x.d * x2.d));
        assert((x2.n * x.d) * (y.d * y2.d) <= (y2.n * y.d) * (x.d * x2.d));
        assert((x2.n * y2.d) * (x.d * y.d) <= (y2.n * x2.d) * (x.d * y.d));
        assert(x.d * y.d > 0);
    }
}

pub(crate) proof fn lemma_at_most_transitive(x: Ratio, y: Ratio, z: Ratio)
    requires
        at_most(x, y),
        at_most(y, z),
        x.d > 0,
        y.d > 0,
        z.d > 0,
    ensures
        at_most(x, z),
{
    assert(x.n * z.d <= z.n * x.d) by (nonlinear_arith)
        requires
            x.n * y.d <= y.n * x.d,
            y.n * z.d <= z.n * y.d,
            x.d > 0,
            y.d > 0,
            z.d > 0,
    {
        assert((x.n * y.d) * z.d <= (y.n * x.d) * z.d);
        assert((y.n * z.d) * x.d <= (z.n * y.d) * x.d);
        assert((x.n * z.d) * y.d <= (z.n * x.d) * y.d);
    }
}

pub(crate) proof fn lemma_nearest_monotone(x: Ratio, y: Ratio)
    requires
        at_most(x, y),
        x.d > 0,
        y.d > 0,
    ensures
        nearest_int(x) <= nearest_int(y),
{
    lemma_floor_bounds(x);
    lemma_floor_bounds(y);
    let p = x.n / x.d;
    let q = y.n / y.d;
    let rx = x.n % x.d;
    let ry = y.n % y.d;
    assert(p <= q) by (nonlinear_arith)
        requires
            x.n * y.d <= y.n * x.d,
            p * x.d <= x.n,
            y.n < (q + 1) * y.d,
            x.d > 0,
            y.d > 0,
    {
        assert((p * x.d) * y.d <= x.n * y.d);
        assert(y.n * x.d < ((q + 1) * y.d) * x.d);
        assert(p * (x.d * y.d) < (q + 1) * (x.d * y.d));
    }
    if p == q {
        assert(rx * y.d <= ry * x.d) by (nonlinear_arith)
            requires
                x.n * y.d <= y.n * x.d,
                rx == x.n - p * x.d,
                ry == y.n - p * y.d,
        ;
        // A fraction that is rounded up stays rounded up when it grows.
        assert(2 * rx > x.d ==> 2 * ry > y.d) by (nonlinear_arith)
            requires
                rx * y.d <= ry * x.d,
                x.d > 0,
                y.d > 0,
        {
            if 2 * rx > x.d {
                assert((2 * rx) * y.d > x.d * y.d);
                assert((2 * ry) * x.d > y.d * x.d);
            }
        }
        assert(2 * rx == x.d ==> 2 * ry >= y.d) by (nonlinear_arith)
            requires
                rx * y.d <= ry * x.d,
                x.d > 0,
                y.d > 0,
        {
            if 2 * rx == x.d {
                assert((2 * ry) * x.d >= y.d * x.d);
            }
        }
    }
}

pub(crate) proof fn lemma_at_most_scaled(x: Ratio, y: Ratio, e: int)
    requires
        at_most(x, y),
    ensures
        at_most(scaled(x, e), scaled(y, e)),
{
    let p = if e >= 0 {
        pow2(e as nat) as int
    } else {
        pow2((-e) as nat) as int
    };
    assert(p >= 0);
    assert(x.n * (y.d * p) <= y.n * (x.d * p)) by (nonlinear_arith)
        requires
            x.n * y.d <= y.n * x.d,
            p >= 0,
    {
        assert((x.n * y.d) * p <= (y.n * x.d) * p);
    }
    assert((x.n * p) * y.d <= (y.n * p) * x.d) by (nonlinear_arith)
        requires
            x.n * y.d <= y.n * x.d,
            p >= 0,
    {
        assert((x.n * y.d) * p <= (y.n * x.d) * p);
    }
}

pub(crate) proof fn lemma_dyadic_monotone(bits: nat, m1: int, e1: int, m2: int, e2: int)
    requires
        bits >= 2,
        0 <= m1 <= pow2(bits),
        pow2((bits - 1) as nat) <= m2,
        e1 < e2 || (e1 == e2 && m1 <= m2),
    ensures
        at_most(dyadic(m1, e1), dyadic(m2, e2)),
{
    let k = (if e1 < 0 {
        -e1
    } else {
        0
    }) as int;
    lemma_dyadic_lifted(m1, e1, k);
    lemma_dyadic_lifted(m2, e2, k);
    lemma_dyadic_positive(m1, e1);
    lemma_dyadic_positive(m2, e2);
    let p0 = lifted(0, k);
    let p1 = lifted(e1, k);
    let p2 = lifted(e2, k);
    lemma_pow2_pos(k as nat);
    lemma_pow2_pos((e1 + k) as nat);
    lemma_pow2_unfold(bits);
    if e1 < e2 {
        lemma_pow2_unfold((e1 + k + 1) as nat);
        if e1 + 1 < e2 {
            lemma_pow2_strictly_increases((e1 + k + 1) as nat, (e2 + k) as nat);
        }
        assert(m1 * p1 <= m2 * p2) by (nonlinear_arith)
            requires
                0 <= m1 <= 2 * pow2((bits - 1) as nat),
                pow2((bits - 1) as nat) <= m2,
                2 * p1 <= p2,
                p1 > 0,
        {
            assert(m1 * p1 <= (2 * pow2((bits - 1) as nat)) * p1);
            assert((2 * pow2((bits - 1) as nat)) * p1 <= m2 * (2 * p1));
            assert(m2 * (2 * p1) <= m2 * p2);
        }
    } else {
        assert(m1 * p1 <= m2 * p2) by (nonlinear_arith)
            requires
                m1 <= m2,
                p1 == p2,
                p1 > 0,
        ;
    }
    assert((m1 * p1) * p0 <= (m2 * p2) * p0) by (nonlinear_arith)
        requires
            m1 * p1 <= m2 * p2,
            p0 > 0,
    ;
    lemma_at_most_same(
        Ratio { n: m1 * p1, d: p0 },
        dyadic(m1, e1),
        Ratio { n: m2 * p2, d: p0 },
        dyadic(m2, e2),
    );
}

/// A rounded positive number is positive.
pub(crate) proof fn lemma_rounded_positive(bits: nat, x: Ratio)
    requires
        bits >= 2,
        x.n >= 0,
        x.d > 0,
    ensures
        rounded_up_from_zero(bits, x).d > 0,
        x.n > 0 ==> rounded_up_from_zero(bits, x).n > 0,
        x.n == 0 ==> rounded_up_from_zero(bits, x).n == 0,
{
    if x.n > 0 {
        let e = lemma_binade_exists(bits, x);
        lemma_rounded_is(bits, x, e);
        lemma_pow2_pos((bits - 1) as nat);
        lemma_dyadic_positive(nearest_int(scaled(x, e)), e);
    }
}

/// Rounding keeps the order of numbers that are not negative.
pub(crate) proof fn lemma_rounded_monotone_from_zero(bits: nat, x: Ratio, y: Ratio)
    requires
        bits >= 2,
        x.n >= 0,
        x.d > 0,
        y.d > 0,
        at_most(x, y),
    ensures
        y.n >= 0,
        at_most(rounded_up_from_zero(bits, x), rounded_up_from_zero(bits, y)),
{
    assert(y.n >= 0 && (x.n > 0 ==> y.n > 0)) by (nonlinear_arith)
        requires
            x.n * y.d <= y.n * x.d,
            x.n >= 0,
            x.d > 0,
            y.d > 0,
    {
        assert(x.n * y.d >= 0);
        if y.n < 0 {
            assert(y.n * x.d < 0);
        }
        if x.n > 0 {
            assert(x.n * y.d > 0);
            if y.n <= 0 {
                assert(y.n * x.d <= 0);
            }
        }
    }
    lemma_rounded_positive(bits, x);
    lemma_rounded_positive(bits, y);
    if x.n > 0 {
        let ex = lemma_binade_exists(bits, x);
        let ey = lemma_binade_exists(bits, y);
        lemma_rounded_is(bits, x, ex);
        lemma_rounded_is(bits, y, ey);
        lemma_scaled_positive(x, ex);
        lemma_scaled_positive(y, ey);
        let mx = nearest_int(scaled(x, ex));
        let my = nearest_int(scaled(y, ey));
        if ex == ey {
            lemma_at_most_scaled(x, y, ex);
            lemma_nearest_monotone(scaled(x, ex), scaled(y, ey));
        } else if ex > ey {
            // The exponent cannot fall: `y / 2^ex` is at least `x / 2^ex`.
            lemma_at_most_scaled(x, y, ex);
            lemma_scaled_positive(y, ex);
            let u = scaled(x, ex);
            let w = scaled(y, ex);
            let lo = pow2((bits - 1) as nat) as int;
            assert(lo * w.d <= w.n) by (nonlinear_arith)
                requires
                    u.n * w.d <= w.n * u.d,
                    lo * u.d <= u.n,
                    u.d > 0,
                    w.d > 0,
            {
                assert((lo * u.d) * w.d <= u.n * w.d);
                assert((lo * w.d) * u.d <= w.n * u.d);
            }
            let k = (ex - ey) as nat;
            let v = scaled(y, ey);
            lemma_scaled_shift(y, ey, k);
            lemma_pow2_pos(k);
            let z = Ratio { n: v.n, d: v.d * pow2(k) };
            assert(z.d > 0) by (nonlinear_arith)
                requires
                    z.d == v.d * pow2(k),
                    v.d > 0,
                    pow2(k) > 0,
            ;
            lemma_same_order(w, z, lo);
            lemma_pow2_unfold(bits);
            lemma_pow2_unfold(k);
            lemma_pow2_pos((k - 1) as nat);
            assert(lo * z.d > v.n) by (nonlinear_arith)
                requires
                    z.d == v.d * pow2(k),
                    pow2(k) >= 2,
                    v.n < (2 * lo) * v.d,
                    v.d > 0,
                    lo >= 0,
            {
                assert(lo * (v.d * pow2(k)) >= lo * (v.d * 2));
            }
        }
        lemma_dyadic_monotone(bits, mx, ex, my, ey);
    }
}

/// `2^k`.
pub(crate) fn power_of_two(k: u32) -> (p: u128)
    requires
        k <= 127,
    ensures
        p == pow2(k as nat),
{
    proof {
        lemma2_to64();
        lemma2_to64_rest();
        lemma_pow2_adds(64, 63);
    }
    let mut p: u128 = 1;
    let mut i: u32 = 0;
    while i < k
        invariant
            i <= k <= 127,
            p == pow2(i as nat),
            pow2(127) == 0x8000_0000_0000_0000_0000_0000_0000_0000,
        decreases k - i,
    {
        proof {
            lemma_pow2_unfold((i + 1) as nat);
            if i + 1 < 127 {
                lemma_pow2_strictly_increases((i + 1) as nat, 127);
            }
        }
        p = p * 2;
        i = i + 1;
    }
    p
}

/// The position of the leading bit of `v`.
pub(crate) fn leading_bit(v: u128) -> (b: u32)
    requires
        v > 0,
    ensures
        b <= 127,
        pow2(b as nat) <= v < pow2((b + 1) as nat),
{
    let mut w: u128 = v;
    let mut b: u32 = 0;
    proof {
        lemma2_to64();
        lemma2_to64_rest();
        lemma_pow2_adds(64, 64);
    }
    while w > 1
        invariant
            w > 0,
            b <= 127,
            w * pow2(b as nat) <= v < (w + 1) * pow2(b as nat),
            pow2(128) == 0x1_0000_0000_0000_0000_0000_0000_0000_0000,
        decreases w,
    {
        let ghost p = pow2(b as nat) as int;
        let h: u128 = w / 2;
        proof {
            lemma_pow2_unfold((b + 1) as nat);
            lemma_pow2_pos(b as nat);
            assert(h * (2 * p) <= v < (h + 1) * (2 * p)) by (nonlinear_arith)
                requires
                    w * p <= v < (w + 1) * p,
                    2 * h <= w <= 2 * h + 1,
                    p > 0,
            ;
            assert(2 * p <= v) by (nonlinear_arith)
                requires
                    h >= 1,
                    h * (2 * p) <= v,
                    p > 0,
            ;
            if b + 1 >= 128 {
                if b + 1 > 128 {
                    lemma_pow2_strictly_increases(128, (b + 1) as nat);
                }
            }
        }
        w = h;
        b = b + 1;
    }
    proof {
        lemma_pow2_unfold((b + 1) as nat);
    }
    b
}

/// The number `m * 2^e`, where `m` is a significand or zero.
pub struct Rounded {
    pub m: u64,
    pub e: i32,
}

impl Rounded {
    pub open spec fn value(self) -> Ratio {
        dyadic(self.m as int, self.e as int)
    }

    pub open spec fn well_formed(self, bits: nat) -> bool {
        self.m == 0 || pow2((bits - 1) as nat) <= self.m < pow2(bits)
    }
}

/// Rounds the number whose floor in units of `2^e` is `v`; `sticky` tells
/// whether it exceeds that floor.
#[verifier::rlimit(40)]
pub(crate) fn round_units(
    bits: u32,
    v: u128,
    sticky: bool,
    e: i32,
    Ghost(x): Ghost<Ratio>,
    Ghost(y): Ghost<Ratio>,
) -> (r: Rounded)
    requires
        2 <= bits <= 53,
        x.n >= 0,
        x.d > 0,
        y.d > 0,
        same(scaled(x, e as int), y),
        v == y.n / y.d,
        sticky == (y.n % y.d != 0),
        sticky ==> v >= pow2(bits as nat),
        -1000 <= e <= 1000,
    ensures
        r.well_formed(bits as nat),
        r.m > 0 <==> x.n > 0,
        same(r.value(), rounded_up_from_zero(bits as nat, x)),
        v > 0 ==> e - bits < r.e <= e + 128 - bits + 1,
        v == 0 ==> r.e == 0,
        forall|k: nat| #![trigger pow2(k)] k <= 200 && pow2(k) <= v ==> r.e > e + k - bits,
        forall|k: nat| #![trigger pow2(k)] k <= 200 && 0 < v < pow2(k) ==> r.e <= e + k - bits + 1,
{
    let ghost n = bits as nat;
    proof {
        lemma2_to64();
        lemma2_to64_rest();
        lemma_scaled_positive(x, e as int);
        lemma_same_nearest(scaled(x, e as int), y);
        lemma_floor_bounds(y);
        lemma_floor_bounds(scaled(x, e as int));
    }
    let ghost z = scaled(x, e as int);
    if v == 0 {
        proof {
            assert((y.n / y.d) * y.d == 0) by (nonlinear_arith)
                requires
                    y.n / y.d == 0,
            ;
            assert(z.n == 0) by (nonlinear_arith)
                requires
                    z.n * y.d == 0 * z.d,
                    y.d > 0,
            ;
            assert forall|k: nat| #![trigger pow2(k)] pow2(k) > 0 by {
                lemma_pow2_pos(k);
            }
            lemma_dyadic_zero(0);
        }
        return Rounded { m: 0, e: 0 };
    }
    let b: u32 = leading_bit(v);
    assert(x.n > 0) by {
        if x.n == 0 {
            assert(z.n == 0) by {
                assert(0int * pow2((-e) as nat) == 0);
            }
            assert(0int / z.d == 0) by (nonlinear_arith)
                requires
                    z.d > 0,
            ;
        }
    }
    proof {
        assert forall|k: nat| #![trigger pow2(k)] pow2(k) <= v implies b >= k by {
            if k > b && k > b + 1 {
                lemma_pow2_strictly_increases((b + 1) as nat, k);
            }
        }
        assert forall|k: nat| #![trigger pow2(k)] v < pow2(k) implies b < k by {
            if k < b {
                lemma_pow2_strictly_increases(k, b as nat);
            }
        }
        if n < 53 {
            lemma_pow2_strictly_increases(n, 53);
        }
        lemma_pow2_unfold(n);
        lemma_pow2_pos((n - 1) as nat);
    }
    let exponent: i32 = e + b as i32 - bits as i32 + 1;
    if b < bits {
        let p: u128 = power_of_two(bits - 1 - b);
        proof {
            if sticky {
                assert(v >= pow2(n));
                assert(b >= n);
            }
            assert(z.n == v * z.d);
            lemma_round_small(n, x, e as int, v as int, b as int);
            lemma_rounded_is(n, x, e + b - (n - 1));
            let k = (n - 1 - b) as nat;
            lemma_pow2_adds(b as nat, k);
            lemma_pow2_adds((b + 1) as nat, k);
            lemma_pow2_pos(k);
            assert(pow2((n - 1) as nat) <= v * p < pow2(n)) by (nonlinear_arith)
                requires
                    pow2(b as nat) <= v < pow2((b + 1) as nat),
                    pow2(b as nat) * p == pow2((n - 1) as nat),
                    pow2((b + 1) as nat) * p == pow2(n),
                    p > 0,
            ;
        }
        let m: u128 = v * p;
        Rounded { m: m as u64, e: exponent }
    } else {
        let half: u128 = power_of_two(b - bits);
        proof {
            lemma_pow2_unfold((b - n + 1) as nat);
            lemma_pow2_pos((b - n) as nat);
            if b - n + 1 < 127 {
                lemma_pow2_strictly_increases((b - n + 1) as nat, 127);
            }
            lemma_pow2_adds(64, 63);
            lemma_round_large(n, x, e as int, v as int, b as int);
            lemma_rounded_is(n, x, e + b - (n - 1));
        }
        let unit: u128 = 2 * half;
        let q: u128 = v / unit;
        let r: u128 = v % unit;
        let top: u128 = power_of_two(bits);
        proof {
            let s = significand(n, v as int, sticky, b as int);
            assert(s == q || s == q + 1);
            assert(pow2((n - 1) as nat) <= s <= pow2(n));
        }
        if r < half || (r == half && !sticky && q % 2 == 0) {
            proof {
                lemma_pow2_adds(n, (b - n + 1) as nat);
                lemma_floor_bounds(Ratio { n: v as int, d: unit as int });
                assert(q < top) by (nonlinear_arith)
                    requires
                        q * unit <= v,
                        v < top * unit,
                        unit > 0,
                {
                    if q >= top {
                        assert(q * unit >= top * unit);
                    }
                }
            }
            Rounded { m: q as u64, e: exponent }
        } else if q + 1 == top {
            proof {
                lemma_dyadic_carry(n, e + b - (n - 1));
            }
            Rounded { m: (top / 2) as u64, e: exponent + 1 }
        } else {
            Rounded { m: (q + 1) as u64, e: exponent }
        }
    }
}

/// A significand of `2^bits` is that of `2^(bits - 1)` with the next exponent.
pub(crate) proof fn lemma_dyadic_carry(bits: nat, e: int)
    requires
        bits >= 2,
    ensures
        same(dyadic(pow2((bits - 1) as nat) as int, e + 1), dyadic(pow2(bits) as int, e)),
{
    let low = pow2((bits - 1) as nat) as int;
    let high = pow2(bits) as int;
    lemma_pow2_unfold(bits);
    if e >= 0 {
        lemma_pow2_unfold((e + 1) as nat);
        let p = pow2(e as nat) as int;
        let q = pow2((e + 1) as nat) as int;
        assert(low * q == high * p) by (nonlinear_arith)
            requires
                high == 2 * low,
                q == 2 * p,
        ;
    } else {
        lemma_pow2_unfold((-e) as nat);
        let p = pow2((-e - 1) as nat) as int;
        let q = pow2((-e) as nat) as int;
        assert(low * q == high * p) by (nonlinear_arith)
            requires
                high == 2 * low,
                q == 2 * p,
        ;
        if e == -1 {
            lemma2_to64();
            assert(low * pow2(0) == low) by (nonlinear_arith)
                requires
                    pow2(0) == 1,
            ;
        }
    }
}

pub(crate) proof fn lemma_same_product(x: Ratio, x2: Ratio, y: Ratio, y2: Ratio)
    requires
        same(x, x2),
        same(y, y2),
    ensures
        same(product(x, y), product(x2, y2)),
{
    let (a, b, c, d) = (x.n, x.d, y.n, y.d);
    let (a2, b2, c2, d2) = (x2.n, x2.d, y2.n, y2.d);
    assert((a * c) * (b2 * d2) == (a * b2) * (c * d2)) by (nonlinear_arith);
    assert((a2 * c2) * (b * d) == (a2 * b) * (c2 * d)) by (nonlinear_arith);
}

pub(crate) proof fn lemma_same_quotient(x: Ratio, x2: Ratio, y: Ratio, y2: Ratio)
    requires
        same(x, x2),
        same(y, y2),
    ensures
        same(quotient(x, y), quotient(x2, y2)),
{
    let (a, b, c, d) = (x.n, x.d, y.n, y.d);
    let (a2, b2, c2, d2) = (x2.n, x2.d, y2.n, y2.d);
    assert((a * d) * (b2 * c2) == (a * b2) * (c2 * d)) by (nonlinear_arith);
    assert((a2 * d2) * (b * c) == (a2 * b) * (c * d2)) by (nonlinear_arith);
}

pub(crate) proof fn lemma_same_total(x: Ratio, x2: Ratio, y: Ratio, y2: Ratio)
    requires
        same(x, x2),
        same(y, y2),
    ensures
        same(total(x, y), total(x2, y2)),
{
    let (a, b, c, d) = (x.n, x.d, y.n, y.d);
    let (a2, b2, c2, d2) = (x2.n, x2.d, y2.n, y2.d);
    assert((a * d) * (b2 * d2) == (a * b2) * (d * d2)) by (nonlinear_arith);
    assert((a2 * d2) * (b * d) == (a2 * b) * (d * d2)) by (nonlinear_arith);
    assert((c * b) * (b2 * d2) == (c * d2) * (b * b2)) by (nonlinear_arith);
    assert((c2 * b2) * (b * d) == (c2 * d) * (b * b2)) by (nonlinear_arith);
    assert((a * d + c * b) * (b2 * d2) == (a * d) * (b2 * d2) + (c * b) * (b2 * d2))
        by (nonlinear_arith);
    assert((a2 * d2 + c2 * b2) * (b * d) == (a2 * d2) * (b * d) + (c2 * b2) * (b * d))
        by (nonlinear_arith);
}

pub(crate) proof fn lemma_positive_product(x: int, y: int)
    requires
        x > 0,
        y > 0,
    ensures
        x * y > 0,
{
    assert(x * y > 0) by (nonlinear_arith)
        requires
            x > 0,
            y > 0,
    ;
}

/// Equal numbers have one rounding.
pub(crate) proof fn lemma_rounded_equal(bits: nat, x: Ratio, y: Ratio)
    requires
        bits >= 2,
        same(x, y),
        x.d > 0,
        y.d > 0,
        x.n >= 0,
    ensures
        y.n >= 0,
        x.n > 0 <==> y.n > 0,
        rounded_up_from_zero(bits, x) == rounded_up_from_zero(bits, y),
{
    if x.n > 0 {
        let e = lemma_binade_exists(bits, x);
        lemma_same_rounded(bits, x, y);
    } else {
        assert(y.n == 0) by (nonlinear_arith)
            requires
                0 * y.d == y.n * x.d,
                x.d > 0,
        ;
    }
}

pub(crate) proof fn lemma_product_units(m1: int, e1: int, m2: int, e2: int)
    requires
        -500 <= e1 <= 500,
        -500 <= e2 <= 500,
    ensures
        same(scaled(product(dyadic(m1, e1), dyadic(m2, e2)), e1 + e2), whole(m1 * m2)),
{
    let k = 2000int;
    let p0 = lifted(0, k);
    let p1 = lifted(e1, k);
    let p2 = lifted(e2, k);
    let pf = lifted(e1 + e2, k);
    lemma_dyadic_lifted(m1, e1, k);
    lemma_dyadic_lifted(m2, e2, k);
    lemma_dyadic_positive(m1, e1);
    lemma_dyadic_positive(m2, e2);
    lemma_lifted(e1, e2, k);
    lemma_lifted(e1 + e2, 0, k);
    let u = Ratio { n: m1 * p1, d: p0 };
    let v = Ratio { n: m2 * p2, d: p0 };
    let x = product(dyadic(m1, e1), dyadic(m2, e2));
    lemma_same_product(dyadic(m1, e1), u, dyadic(m2, e2), v);
    let w = product(u, v);
    lemma_same_scaled(x, w, e1 + e2);
    lemma_scaled_lifted(w, e1 + e2, k);
    lemma_positive_product(dyadic(m1, e1).d, dyadic(m2, e2).d);
    lemma_positive_product(p0, p0);
    lemma_scaled_positive(x, e1 + e2);
    lemma_scaled_positive(w, e1 + e2);
    let z = Ratio { n: w.n * p0, d: w.d * pf };
    lemma_positive_product(w.d, pf);
    assert(z.n * 1 == (m1 * m2) * z.d) by (nonlinear_arith)
        requires
            z.n == ((m1 * p1) * (m2 * p2)) * p0,
            z.d == (p0 * p0) * pf,
            p1 * p2 == pf * p0,
    {
        assert(((m1 * p1) * (m2 * p2)) * p0 == ((m1 * m2) * (p1 * p2)) * p0);
        assert(((m1 * m2) * (pf * p0)) * p0 == (m1 * m2) * ((p0 * p0) * pf));
    }
    lemma_same_transitive(scaled(x, e1 + e2), scaled(w, e1 + e2), z);
    lemma_same_transitive(scaled(x, e1 + e2), z, whole(m1 * m2));
}

/// The integer `v` as a rounded number.
pub(crate) fn from_integer(bits: u32, v: u128) -> (r: Rounded)
    requires
        2 <= bits <= 53,
        v <= 0x1_0000_0000_0000_0000,
    ensures
        r.well_formed(bits as nat),
        r.m > 0 <==> v > 0,
        same(r.value(), rounded_up_from_zero(bits as nat, whole(v as int))),
        -53 < r.e <= 66 - bits,
        v < 0x8000_0000_0000_0000 ==> r.e <= 64 - bits,
        v < 0x1_0000_0000_0000_0000 ==> r.e <= 65 - bits,
        v >= 0x20_0000_0000_0000 ==> r.e > 53 - bits,
{
    proof {
        lemma2_to64();
        lemma2_to64_rest();
        lemma_pow2_unfold(65);
        assert(v as int / 1 == v && v as int % 1 == 0);
    }
    round_units(bits, v, false, 0, Ghost(whole(v as int)), Ghost(whole(v as int)))
}

/// The rounded product of two rounded numbers.
pub(crate) fn multiply(bits: u32, a: &Rounded, b: &Rounded) -> (r: Rounded)
    requires
        2 <= bits <= 53,
        a.well_formed(bits as nat),
        b.well_formed(bits as nat),
        -400 <= a.e <= 400,
        -400 <= b.e <= 400,
    ensures
        r.well_formed(bits as nat),
        r.m > 0 <==> a.m > 0 && b.m > 0,
        same(r.value(), rounded_up_from_zero(bits as nat, product(a.value(), b.value()))),
        a.m > 0 && b.m > 0 ==> a.e + b.e + bits - 1 <= r.e <= a.e + b.e + bits + 1,
        r.m == 0 ==> r.e == 0,
{
    let ghost x = product(a.value(), b.value());
    proof {
        lemma2_to64();
        lemma2_to64_rest();
        let n = bits as nat;
        let lo = pow2((n - 1) as nat) as int;
        let hi = pow2(n) as int;
        lemma_pow2_pos((n - 1) as nat);
        lemma_pow2_pos(n);
        if n < 53 {
            lemma_pow2_strictly_increases(n, 53);
        }
        lemma_pow2_adds((n - 1) as nat, (n - 1) as nat);
        lemma_pow2_adds(n, n);
        assert(a.m * b.m < hi * hi) by (nonlinear_arith)
            requires
                a.m < hi,
                b.m < hi,
                hi > 0,
        ;
        assert(hi * hi <= 0x20_0000_0000_0000 * 0x20_0000_0000_0000) by (nonlinear_arith)
            requires
                0 < hi <= 0x20_0000_0000_0000,
        ;
        if a.m > 0 && b.m > 0 {
            assert(a.m * b.m >= lo * lo) by (nonlinear_arith)
                requires
                    a.m >= lo,
                    b.m >= lo,
                    lo > 0,
            ;
        } else {
            assert(a.m * b.m == 0) by (nonlinear_arith)
                requires
                    a.m == 0 || b.m == 0,
            ;
        }
        assert(a.m as int * b.m as int == a.m * b.m);
        lemma_product_units(a.m as int, a.e as int, b.m as int, b.e as int);
        lemma_dyadic_positive(a.m as int, a.e as int);
        lemma_dyadic_positive(b.m as int, b.e as int);
        lemma_positive_product(a.value().d, b.value().d);
        assert(x.n >= 0) by (nonlinear_arith)
            requires
                x.n == a.value().n * b.value().n,
                a.value().n >= 0,
                b.value().n >= 0,
        ;
        assert((a.m * b.m) / 1 == a.m * b.m && (a.m * b.m) % 1 == 0);
        assert(a.m > 0 && b.m > 0 ==> pow2((2 * n - 2) as nat) <= a.m * b.m);
        // The product is positive exactly where both factors are.
        if a.m > 0 && b.m > 0 {
            lemma_positive_product(a.value().n, b.value().n);
        } else {
            lemma_dyadic_zero(a.e as int);
            lemma_dyadic_zero(b.e as int);
            assert(x.n == 0) by (nonlinear_arith)
                requires
                    x.n == a.value().n * b.value().n,
                    a.value().n == 0 || b.value().n == 0,
            ;
        }
    }
    let v: u128 = a.m as u128 * b.m as u128;
    let r: Rounded = round_units(
        bits,
        v,
        false,
        a.e + b.e,
        Ghost(x),
        Ghost(whole(a.m * b.m)),
    );
    proof {
        if a.m > 0 && b.m > 0 {
            lemma_positive_product(a.m as int, b.m as int);
            assert(pow2((2 * bits - 2) as nat) <= v);
        }
    }
    r
}

pub(crate) proof fn lemma_dyadic_zero(e: int)
    ensures
        dyadic(0, e).n == 0,
{
    if e >= 0 {
        assert(0 * pow2(e as nat) == 0);
    }
}

/// The `i64` nearest to `x`.
pub open spec fn saturated(x: int) -> int {
    if x < i64::MIN {
        i64::MIN as int
    } else if x > i64::MAX {
        i64::MAX as int
    } else {
        x
    }
}

pub(crate) proof fn lemma_dyadic_scaled(m: int, e: int, f: int)
    requires
        -500 <= e <= 500,
        -500 <= f <= 500,
    ensures
        same(scaled(dyadic(m, e), f), dyadic(m, e - f)),
{
    let k = 2000int;
    let x = dyadic(m, e);
    let p0 = lifted(0, k);
    let pe = lifted(e, k);
    let pf = lifted(f, k);
    let pg = lifted(e - f, k);
    lemma_dyadic_lifted(m, e, k);
    lemma_dyadic_lifted(m, e - f, k);
    lemma_dyadic_positive(m, e);
    lemma_dyadic_positive(m, e - f);
    lemma_scaled_lifted(x, f, k);
    lemma_scaled_positive(x, f);
    lemma_lifted(e - f, f, k);
    lemma_lifted(f, 0, k);
    let z = Ratio { n: x.n * p0, d: x.d * pf };
    let w = Ratio { n: m * pg, d: p0 };
    lemma_positive_product(x.d, pf);
    assert((m * pg) * (x.d * pf) == (m * x.d) * (pg * pf)) by (nonlinear_arith);
    assert((m * x.d) * (pe * p0) == ((m * pe) * x.d) * p0) by (nonlinear_arith);
    lemma_same_transitive(scaled(x, f), z, w);
    lemma_same_transitive(scaled(x, f), w, dyadic(m, e - f));
}

/// Equal numbers have one rounding, whatever their sign.
pub(crate) proof fn lemma_signed_rounded_equal(bits: nat, x: Ratio, y: Ratio)
    requires
        bits >= 2,
        same(x, y),
        x.d > 0,
        y.d > 0,
    ensures
        rounded(bits, x) == rounded(bits, y),
        x.n < 0 <==> y.n < 0,
{
    if x.n >= 0 {
        lemma_rounded_equal(bits, x, y);
    } else {
        let u = Ratio { n: -x.n, d: x.d };
        let v = Ratio { n: -y.n, d: y.d };
        assert((-x.n) * y.d == (-y.n) * x.d) by (nonlinear_arith)
            requires
                x.n * y.d == y.n * x.d,
        ;
        lemma_rounded_equal(bits, u, v);
    }
}

/// The integer part of a rounded number.
pub(crate) fn integer_part(bits: u32, r: &Rounded) -> (t: u128)
    requires
        2 <= bits <= 53,
        r.well_formed(bits as nat),
        -600 <= r.e,
        r.m > 0 ==> r.e <= 70,
        r.e <= 600,
    ensures
        t == r.value().n / r.value().d,
{
    proof {
        lemma2_to64();
        lemma2_to64_rest();
        if bits < 53 {
            lemma_pow2_strictly_increases(bits as nat, 53);
        }
    }
    if r.m == 0 {
        proof {
            lemma_dyadic_zero(r.e as int);
            lemma_dyadic_positive(0, r.e as int);
            assert(0int / r.value().d == 0) by (nonlinear_arith)
                requires
                    r.value().d > 0,
            ;
        }
        0
    } else if r.e >= 0 {
        let p: u128 = power_of_two(r.e as u32);
        proof {
            if r.e < 70 {
                lemma_pow2_strictly_increases(r.e as nat, 70);
            }
            lemma_pow2_adds(64, 6);
            assert(r.m * p <= 0x20_0000_0000_0000 * 0x40_0000_0000_0000_0000) by (nonlinear_arith)
                requires
                    r.m <= 0x20_0000_0000_0000,
                    p <= 0x40_0000_0000_0000_0000,
            ;
            let v = r.m * p;
            assert(v / 1 == v) by (nonlinear_arith);
        }
        r.m as u128 * p
    } else if r.e <= -64 {
        proof {
            if r.e < -64 {
                lemma_pow2_strictly_increases(64, (-r.e) as nat);
            }
            lemma_floor(r.value(), 0);
        }
        0
    } else {
        let p: u128 = power_of_two((-r.e) as u32);
        proof {
            lemma_pow2_pos((-r.e) as nat);
        }
        r.m as u128 / p
    }
}

/// The nearest `i64` to the integer part of a rounded number, with a sign.
pub(crate) fn truncate_to_i64(bits: u32, r: &Rounded, negative: bool, Ghost(x): Ghost<Ratio>) -> (t:
    i64)
    requires
        2 <= bits <= 53,
        r.well_formed(bits as nat),
        -600 <= r.e <= 600,
        x.d > 0,
        negative <==> x.n < 0,
        same(r.value(), rounded_up_from_zero(bits as nat, magnitude(x))),
    ensures
        t == saturated(truncated(rounded(bits as nat, x))),
{
    let ghost u = magnitude(x);
    proof {
        lemma_rounded_positive(bits as nat, u);
        lemma_dyadic_positive(r.m as int, r.e as int);
        lemma_same_nearest(r.value(), rounded_up_from_zero(bits as nat, u));
        assert(signed(true, x) == (Ratio { n: -x.n, d: x.d }));
    }
    if r.m > 0 && r.e > 63 {
        proof {
            let p = pow2(r.e as nat) as int;
            lemma2_to64();
            if r.e > 64 {
                lemma_pow2_strictly_increases(64, r.e as nat);
            }
            assert(r.m * p >= 0x1_0000_0000_0000_0000) by (nonlinear_arith)
                requires
                    r.m >= 1,
                    p >= 0x1_0000_0000_0000_0000,
            ;
            lemma_floor_whole(r.m * p);
        }
        return if negative {
            i64::MIN
        } else {
            i64::MAX
        };
    }
    let t: u128 = integer_part(bits, r);
    if negative {
        if t > 0x8000_0000_0000_0000 {
            i64::MIN
        } else {
            (-(t as i128)) as i64
        }
    } else if t > 0x7fff_ffff_ffff_ffff {
        i64::MAX
    } else {
        t as i64
    }
}

proof fn lemma_floor_whole(v: int)
    ensures
        v / 1 == v,
        v % 1 == 0,
{
}

pub(crate) proof fn lemma_add_floor(a: int, g: Ratio)
    requires
        g.d > 0,
    ensures
        (a * g.d + g.n) / g.d == a + g.n / g.d,
        (a * g.d + g.n) % g.d == g.n % g.d,
{
    lemma_floor_bounds(g);
    let q = g.n / g.d;
    assert((a + q) * g.d == a * g.d + q * g.d) by (nonlinear_arith);
    assert((a + q + 1) * g.d == a * g.d + (q + 1) * g.d) by (nonlinear_arith);
    lemma_floor(Ratio { n: a * g.d + g.n, d: g.d }, a + q);
}

pub(crate) proof fn lemma_sub_floor(a: int, g: Ratio)
    requires
        g.d > 0,
    ensures
        g.n % g.d == 0 ==> (a * g.d - g.n) / g.d == a - g.n / g.d,
        g.n % g.d != 0 ==> (a * g.d - g.n) / g.d == a - g.n / g.d - 1,
        (a * g.d - g.n) % g.d == 0 <==> g.n % g.d == 0,
{
    lemma_floor_bounds(g);
    let q = g.n / g.d;
    let r = g.n % g.d;
    let y = Ratio { n: a * g.d - g.n, d: g.d };
    assert((a - q) * g.d == a * g.d - q * g.d) by (nonlinear_arith);
    assert((a - q + 1) * g.d == (a - q) * g.d + g.d) by (nonlinear_arith);
    assert((a - q - 1) * g.d == (a - q) * g.d - g.d) by (nonlinear_arith);
    if r == 0 {
        lemma_floor(y, a - q);
    } else {
        lemma_floor(y, a - q - 1);
    }
}

/// An integer with at most bits significant bits is its own rounding.
pub(crate) proof fn lemma_rounded_whole(bits: nat, v: int)
    requires
        bits >= 2,
        0 <= v < pow2(bits),
    ensures
        same(whole(v), rounded_up_from_zero(bits, whole(v))),
{
    if v > 0 {
        let b = lemma_leading_bit(v);
        if b > (bits - 1) {
            if b > bits {
                lemma_pow2_strictly_increases(bits, b);
            }
        }
        assert(pow2(0) == 1) by {
            lemma2_to64();
        }
        assert(scaled(whole(v), 0).d == 1 && v * 1 == v);
        lemma_round_small(bits, whole(v), 0, v, b as int);
        lemma_rounded_is(bits, whole(v), b - (bits - 1));
        let p = pow2(((bits - 1) - b) as nat) as int;
        let r = dyadic(v * p, b - (bits - 1));
        if b == (bits - 1) {
            assert(v * p * pow2(0) == v) by (nonlinear_arith)
                requires
                    p == 1,
                    pow2(0) == 1,
            ;
        }
    }
}

/// Rounding at most doubles a number.
pub(crate) proof fn lemma_rounded_at_most_double(bits: nat, x: Ratio)
    requires
        bits >= 2,
        x.n >= 0,
        x.d > 0,
    ensures
        at_most(rounded_up_from_zero(bits, x), Ratio { n: 2 * x.n, d: x.d }),
{
    if x.n > 0 {
        let e = lemma_binade_exists(bits, x);
        lemma_rounded_is(bits, x, e);
        lemma_scaled_positive(x, e);
        let y = scaled(x, e);
        let m = nearest_int(y);
        let q = y.n / y.d;
        lemma_floor_bounds(y);
        lemma_pow2_pos((bits - 1) as nat);
        lemma_floor_at_least(y, pow2((bits - 1) as nat) as int);
        assert(m <= 2 * q);
        assert(m * y.d <= 2 * y.n) by (nonlinear_arith)
            requires
                m <= 2 * q,
                q * y.d <= y.n,
                y.d > 0,
        {
            assert(m * y.d <= (2 * q) * y.d);
        }
        if e >= 0 {
            let p = pow2(e as nat) as int;
            lemma_pow2_pos(e as nat);
            assert((m * p) * x.d <= (2 * x.n) * 1) by (nonlinear_arith)
                requires
                    m * (x.d * p) <= 2 * x.n,
            {
                assert((m * p) * x.d == m * (x.d * p));
            }
        } else {
            let p = pow2((-e) as nat) as int;
            assert(m * x.d <= (2 * x.n) * p) by (nonlinear_arith)
                requires
                    m * x.d <= 2 * (x.n * p),
            ;
        }
    }
}

pub(crate) proof fn lemma_floor_at_least(y: Ratio, c: int)
    requires
        y.d > 0,
        c * y.d <= y.n,
    ensures
        c <= y.n / y.d,
{
    lemma_floor_bounds(y);
    let q = y.n / y.d;
    assert(c <= q) by (nonlinear_arith)
        requires
            c * y.d <= y.n,
            y.n < (q + 1) * y.d,
            y.d > 0,
    ;
}

pub(crate) proof fn lemma_nonnegative_product(x: int, y: int)
    requires
        x >= 0,
        y >= 0,
    ensures
        x * y >= 0,
        2 * x * y >= 0,
{
    assert(x * y >= 0 && 2 * x * y >= 0) by (nonlinear_arith)
        requires
            x >= 0,
            y >= 0,
    ;
}

pub(crate) proof fn lemma_signed_rounded_positive(bits: nat, x: Ratio)
    requires
        bits >= 2,
        x.d > 0,
    ensures
        rounded(bits, x).d > 0,
        x.n < 0 <==> rounded(bits, x).n < 0,
        x.n > 0 <==> rounded(bits, x).n > 0,
{
    if x.n >= 0 {
        lemma_rounded_positive(bits, x);
    } else {
        lemma_rounded_positive(bits, Ratio { n: -x.n, d: x.d });
    }
}

/// Rounding keeps order.
pub(crate) proof fn lemma_rounded_monotone(bits: nat, x: Ratio, y: Ratio)
    requires
        bits >= 2,
        x.d > 0,
        y.d > 0,
        at_most(x, y),
    ensures
        at_most(rounded(bits, x), rounded(bits, y)),
{
    lemma_signed_rounded_positive(bits, x);
    lemma_signed_rounded_positive(bits, y);
    let (u, v) = (rounded(bits, x), rounded(bits, y));
    if x.n >= 0 {
        lemma_rounded_monotone_from_zero(bits, x, y);
    } else if y.n >= 0 {
        assert(u.n * v.d <= v.n * u.d) by (nonlinear_arith)
            requires
                u.n < 0,
                v.n >= 0,
                u.d > 0,
                v.d > 0,
        {
            assert(u.n * v.d <= 0);
            assert(v.n * u.d >= 0);
        }
    } else {
        let nx = Ratio { n: -x.n, d: x.d };
        let ny = Ratio { n: -y.n, d: y.d };
        assert((-y.n) * x.d <= (-x.n) * y.d) by (nonlinear_arith)
            requires
                x.n * y.d <= y.n * x.d,
        ;
        lemma_rounded_monotone_from_zero(bits, ny, nx);
        let (nu, nv) = (rounded_up_from_zero(bits, nx), rounded_up_from_zero(bits, ny));
        assert((-nu.n) * nv.d <= (-nv.n) * nu.d) by (nonlinear_arith)
            requires
                nv.n * nu.d <= nu.n * nv.d,
        ;
    }
}

pub(crate) proof fn lemma_floor_monotone(x: Ratio, y: Ratio)
    requires
        x.d > 0,
        y.d > 0,
        at_most(x, y),
    ensures
        x.n / x.d <= y.n / y.d,
{
    lemma_floor_bounds(x);
    lemma_floor_bounds(y);
    let p = x.n / x.d;
    let q = y.n / y.d;
    assert((p * x.d) * y.d <= x.n * y.d) by (nonlinear_arith)
        requires
            p * x.d <= x.n,
            y.d > 0,
    ;
    assert(y.n * x.d < ((q + 1) * y.d) * x.d) by (nonlinear_arith)
        requires
            y.n < (q + 1) * y.d,
            x.d > 0,
    ;
    lemma_positive_product(x.d, y.d);
    let c = x.d * y.d;
    assert((p * x.d) * y.d == p * c) by (nonlinear_arith)
        requires
            c == x.d * y.d,
    ;
    assert(((q + 1) * y.d) * x.d == (q + 1) * c) by (nonlinear_arith)
        requires
            c == x.d * y.d,
    ;
    assert(p < q + 1) by (nonlinear_arith)
        requires
            p * c < (q + 1) * c,
            c > 0,
    ;
}

/// Dropping the fractional part keeps order.
pub(crate) proof fn lemma_truncated_monotone(x: Ratio, y: Ratio)
    requires
        x.d > 0,
        y.d > 0,
        at_most(x, y),
    ensures
        truncated(x) <= truncated(y),
{
    let nx = Ratio { n: -x.n, d: x.d };
    let ny = Ratio { n: -y.n, d: y.d };
    let zero = whole(0);
    assert(0int / 1 == 0);
    assert((-y.n) * x.d <= (-x.n) * y.d) by (nonlinear_arith)
        requires
            x.n * y.d <= y.n * x.d,
    ;
    assert(x.n >= 0 ==> y.n >= 0) by (nonlinear_arith)
        requires
            x.n * y.d <= y.n * x.d,
            x.d > 0,
            y.d > 0,
    {
        if x.n >= 0 && y.n < 0 {
            assert(x.n * y.d >= 0);
            assert(y.n * x.d < 0);
        }
    }
    if x.n >= 0 {
        lemma_floor_monotone(x, y);
    } else if y.n >= 0 {
        assert(0 * y.d <= y.n * 1);
        assert(0 * x.d <= (-x.n) * 1);
        lemma_floor_monotone(zero, y);
        lemma_floor_monotone(zero, nx);
    } else {
        lemma_floor_monotone(ny, nx);
    }
}

pub(crate) proof fn lemma_truncated_whole(x: Ratio, c: int)
    requires
        x.d > 0,
        same(x, whole(c)),
    ensures
        truncated(x) == c,
{
    assert(x.n == c * x.d);
    if x.n >= 0 {
        assert(c * x.d <= x.n < (c + 1) * x.d) by (nonlinear_arith)
            requires
                x.n == c * x.d,
                x.d > 0,
        ;
        lemma_floor(x, c);
    } else {
        let y = Ratio { n: -x.n, d: x.d };
        assert((-c) * y.d <= y.n < (-c + 1) * y.d) by (nonlinear_arith)
            requires
                y.n == -(c * y.d),
                y.d > 0,
        ;
        lemma_floor(y, -c);
    }
}

/// Rounding adds at most one part in `2^bits`.
pub(crate) proof fn lemma_rounded_error(bits: nat, x: Ratio)
    requires
        bits >= 2,
        x.n >= 0,
        x.d > 0,
    ensures
        at_most(
            rounded_up_from_zero(bits, x),
            Ratio { n: x.n * (pow2(bits) + 1), d: x.d * pow2(bits) },
        ),
{
    let t = pow2(bits) as int;
    lemma_pow2_unfold(bits);
    lemma_pow2_pos((bits - 1) as nat);
    if x.n > 0 {
        let e = lemma_binade_exists(bits, x);
        lemma_rounded_is(bits, x, e);
        lemma_scaled_positive(x, e);
        let y = scaled(x, e);
        let m = nearest_int(y);
        let q = y.n / y.d;
        lemma_floor_bounds(y);
        assert((q + 1) * y.d == q * y.d + y.d) by (nonlinear_arith);
        assert(2 * (m * y.d) <= 2 * y.n + y.d) by {
            if m == q {
            } else {
                assert(m * y.d == q * y.d + y.d);
            }
        }
        let h = pow2((bits - 1) as nat) as int;
        // y.d <= y.n / 2^(bits - 1)
        assert((m * y.d) * t <= y.n * (t + 1)) by (nonlinear_arith)
            requires
                2 * (m * y.d) <= 2 * y.n + y.d,
                h * y.d <= y.n,
                t == 2 * h,
                h > 0,
        {
            assert((2 * (m * y.d)) * h <= (2 * y.n + y.d) * h);
            assert((2 * y.n + y.d) * h == 2 * y.n * h + h * y.d);
        }
        if e >= 0 {
            let p = pow2(e as nat) as int;
            assert((m * p) * (x.d * t) == (m * (x.d * p)) * t) by (nonlinear_arith);
        } else {
            let p = pow2((-e) as nat) as int;
            lemma_pow2_pos((-e) as nat);
            assert(m * (x.d * t) == (m * x.d) * t) by (nonlinear_arith);
            assert((x.n * p) * (t + 1) == (x.n * (t + 1)) * p) by (nonlinear_arith);
        }
    } else {
        assert(x.n * (t + 1) == 0) by (nonlinear_arith)
            requires
                x.n == 0,
        ;
        assert(0 * (x.d * t) == 0);
    }
}

/// Rounding takes away at most one part in `2^bits`.
pub(crate) proof fn lemma_rounded_error_below(bits: nat, x: Ratio)
    requires
        bits >= 2,
        x.n >= 0,
        x.d > 0,
    ensures
        at_most(
            Ratio { n: x.n * (pow2(bits) - 1), d: x.d * pow2(bits) },
            rounded_up_from_zero(bits, x),
        ),
{
    let t = pow2(bits) as int;
    lemma_pow2_unfold(bits);
    lemma_pow2_pos((bits - 1) as nat);
    if x.n > 0 {
        let e = lemma_binade_exists(bits, x);
        lemma_rounded_is(bits, x, e);
        lemma_scaled_positive(x, e);
        let y = scaled(x, e);
        let m = nearest_int(y);
        lemma_nearest_near(y);
        let h = pow2((bits - 1) as nat) as int;
        assert(y.n * (t - 1) <= (m * y.d) * t) by (nonlinear_arith)
            requires
                2 * y.n - y.d <= 2 * (m * y.d),
                h * y.d <= y.n,
                t == 2 * h,
                h > 0,
        {
            assert((2 * y.n - y.d) * h <= (2 * (m * y.d)) * h);
            assert((2 * y.n - y.d) * h == 2 * y.n * h - h * y.d);
        }
        if e >= 0 {
            let p = pow2(e as nat) as int;
            assert((m * p) * (x.d * t) == (m * (x.d * p)) * t) by (nonlinear_arith);
        } else {
            let p = pow2((-e) as nat) as int;
            lemma_pow2_pos((-e) as nat);
            assert(m * (x.d * t) == (m * x.d) * t) by (nonlinear_arith);
            assert((x.n * p) * (t - 1) == (x.n * (t - 1)) * p) by (nonlinear_arith);
        }
    } else {
        assert(x.n * (t - 1) == 0) by (nonlinear_arith)
            requires
                x.n == 0,
        ;
        assert(0 * (x.d * t) == 0);
    }
}

/// The nearest integer is at most one half away.
pub(crate) proof fn lemma_nearest_near(x: Ratio)
    requires
        x.d > 0,
    ensures
        2 * x.n - x.d <= 2 * (nearest_int(x) * x.d) <= 2 * x.n + x.d,
{
    let q = x.n / x.d;
    lemma_floor_bounds(x);
    assert((q + 1) * x.d == q * x.d + x.d) by (nonlinear_arith);
}

/// An integer that is less than one half away is the nearest one.
pub(crate) proof fn lemma_nearest_is(x: Ratio, k: int)
    requires
        x.d > 0,
        -x.d < 2 * (x.n - k * x.d) < x.d,
    ensures
        nearest_int(x) == k,
{
    let m = nearest_int(x);
    lemma_nearest_near(x);
    assert(m == k) by (nonlinear_arith)
        requires
            x.d > 0,
            -x.d < 2 * (x.n - k * x.d) < x.d,
            2 * x.n - x.d <= 2 * (m * x.d) <= 2 * x.n + x.d,
    {
        assert((m - k) * x.d == m * x.d - k * x.d);
        if m > k {
            assert((m - k) * x.d >= x.d);
        }
        if m < k {
            assert((k - m) * x.d >= x.d);
            assert((k - m) * x.d == k * x.d - m * x.d);
        }
    }
}

/// Rounding to units of `2^-j` or finer is off by at most half a unit.
pub(crate) proof fn lemma_rounded_near(bits: nat, x: Ratio, e: int, j: nat)
    requires
        bits >= 2,
        x.n > 0,
        x.d > 0,
        in_binade(bits, x, e),
        e <= -j,
        j > 0,
    ensures
        ({
            let r = rounded_up_from_zero(bits, x);
            let off = r.n * x.d - x.n * r.d;
            &&& r.d > 0
            &&& -(x.d * r.d) <= 2 * pow2(j) * off <= x.d * r.d
        }),
{
    lemma_rounded_is(bits, x, e);
    lemma_scaled_positive(x, e);
    let y = scaled(x, e);
    let m = nearest_int(y);
    lemma_nearest_near(y);
    let p = pow2((-e) as nat) as int;
    lemma_pow2_pos((-e) as nat);
    lemma_pow2_pos(j);
    if (-e) as nat > j {
        lemma_pow2_strictly_increases(j, (-e) as nat);
    }
    let u = pow2(j) as int;
    let off = m * x.d - x.n * p;
    assert(-x.d <= 2 * off <= x.d);
    assert(-(x.d * p) <= 2 * u * off <= x.d * p) by (nonlinear_arith)
        requires
            -x.d <= 2 * off <= x.d,
            0 < u <= p,
            x.d > 0,
    {
        assert(u * (2 * off) <= u * x.d);
        assert(u * (2 * off) >= u * (-x.d));
        assert(u * x.d <= p * x.d);
        assert(2 * u * off == u * (2 * off));
    }
}

pub(crate) proof fn lemma_total_monotone(x: Ratio, y: Ratio, z: Ratio)
    requires
        x.d > 0,
        y.d > 0,
        z.d > 0,
        at_most(y, z),
    ensures
        at_most(total(x, y), total(x, z)),
{
    let (a, b, c, d, f, g) = (x.n, x.d, y.n, y.d, z.n, z.d);
    assert((a * d + c * b) * (b * g) == (a * d) * (b * g) + (c * b) * (b * g)) by (nonlinear_arith);
    assert((a * g + f * b) * (b * d) == (a * g) * (b * d) + (f * b) * (b * d)) by (nonlinear_arith);
    assert((a * d) * (b * g) == (a * b) * (d * g)) by (nonlinear_arith);
    assert((a * g) * (b * d) == (a * b) * (d * g)) by (nonlinear_arith);
    assert((c * b) * (b * g) == (b * b) * (c * g)) by (nonlinear_arith);
    assert((f * b) * (b * d) == (b * b) * (f * d)) by (nonlinear_arith);
    assert((b * b) * (c * g) <= (b * b) * (f * d)) by (nonlinear_arith)
        requires
            c * g <= f * d,
            b > 0,
    {
        assert(b * b > 0);
    }
}

/// `x`, or `-x`.
pub open spec fn signed(negative: bool, x: Ratio) -> Ratio {
    Ratio {
        n: if negative {
            -x.n
        } else {
            x.n
        },
        d: x.d,
    }
}

/// The magnitude of `x`.
pub open spec fn magnitude(x: Ratio) -> Ratio {
    signed(x.n < 0, x)
}

/// Scaling keeps the sign, and commutes with a change of sign.
pub(crate) proof fn lemma_scaled_sign(x: Ratio, e: int, w: Ratio)
    requires
        same(scaled(x, e), w),
        x.d > 0,
        w.d > 0,
    ensures
        x.n < 0 <==> w.n < 0,
        x.n == 0 <==> w.n == 0,
        same(scaled(magnitude(x), e), magnitude(w)),
{
    lemma_scaled_positive(x, e);
    let nx = signed(true, x);
    lemma_scaled_positive(nx, e);
    let y = scaled(x, e);
    let ny = scaled(nx, e);
    if e < 0 {
        let p = pow2((-e) as nat) as int;
        assert((-x.n) * p == -(x.n * p)) by (nonlinear_arith);
    }
    assert(ny.n == -y.n && ny.d == y.d);
    assert(x.n == 0 ==> y.n == 0) by {
        if x.n == 0 && e < 0 {
            assert(0 * pow2((-e) as nat) == 0);
        }
    }
    lemma_sign_of_same(y, w);
    assert((-y.n) * w.d == (-w.n) * y.d) by (nonlinear_arith)
        requires
            y.n * w.d == w.n * y.d,
    ;
}

pub(crate) proof fn lemma_sign_of_same(y: Ratio, w: Ratio)
    requires
        same(y, w),
        y.d > 0,
        w.d > 0,
    ensures
        y.n < 0 <==> w.n < 0,
        y.n == 0 <==> w.n == 0,
{
    assert((y.n < 0 <==> w.n < 0) && (y.n == 0 <==> w.n == 0)) by (nonlinear_arith)
        requires
            y.n * w.d == w.n * y.d,
            y.d > 0,
            w.d > 0,
    {
        if y.n < 0 {
            assert(y.n * w.d < 0);
        } else if y.n > 0 {
            assert(y.n * w.d > 0);
        }
        if w.n < 0 {
            assert(w.n * y.d < 0);
        } else if w.n > 0 {
            assert(w.n * y.d > 0);
        }
    }
}

/// A sum is scaled by scaling its terms.
pub(crate) proof fn lemma_total_scaled(x: Ratio, y: Ratio, e: int)
    requires
        x.d > 0,
        y.d > 0,
    ensures
        same(scaled(total(x, y), e), total(scaled(x, e), scaled(y, e))),
{
    let (a, b, c, d) = (x.n, x.d, y.n, y.d);
    if e >= 0 {
        let p = pow2(e as nat) as int;
        // (ad + cb) / (bd p) and (a d p + c b p) / (b p d p)
        assert(a * (d * p) + c * (b * p) == (a * d + c * b) * p) by (nonlinear_arith);
        assert((b * p) * (d * p) == ((b * d) * p) * p) by (nonlinear_arith);
        let s = a * d + c * b;
        let t = (b * d) * p;
        assert(s * (t * p) == (s * p) * t) by (nonlinear_arith);
    } else {
        let p = pow2((-e) as nat) as int;
        assert((a * p) * d + (c * p) * b == (a * d + c * b) * p) by (nonlinear_arith);
    }
}

/// The integer part of `m * 2^e`, and whether there is a fraction.
fn split_dyadic(m: u64, e: i32) -> (q: (u128, bool))
    requires
        m < 0x20_0000_0000_0000,
        -1000 <= e <= 72,
    ensures
        q.0 == dyadic(m as int, e as int).n / dyadic(m as int, e as int).d,
        q.1 <==> dyadic(m as int, e as int).n % dyadic(m as int, e as int).d != 0,
        q.0 <= 0x20_0000_0000_0000 * 0x100_0000_0000_0000_0000,
        e < 0 ==> q.0 <= m,
        q.1 ==> e < 0,
{
    proof {
        lemma2_to64();
        lemma2_to64_rest();
    }
    let ghost g = dyadic(m as int, e as int);
    if e >= 0 {
        let p: u128 = power_of_two(e as u32);
        proof {
            if e < 72 {
                lemma_pow2_strictly_increases(e as nat, 72);
            }
            lemma_pow2_adds(64, 8);
            assert(m * p <= 0x20_0000_0000_0000 * 0x100_0000_0000_0000_0000) by (nonlinear_arith)
                requires
                    m <= 0x20_0000_0000_0000,
                    p <= 0x100_0000_0000_0000_0000,
            ;
            assert((m * p) / 1 == m * p && (m * p) % 1 == 0);
        }
        (m as u128 * p, false)
    } else if e <= -64 {
        proof {
            if e < -64 {
                lemma_pow2_strictly_increases(64, (-e) as nat);
            }
            lemma_floor(g, 0);
        }
        (0, m != 0)
    } else {
        let p: u128 = power_of_two((-e) as u32);
        proof {
            lemma_pow2_pos((-e) as nat);
            assert(m as int / p as int <= m) by (nonlinear_arith)
                requires
                    p >= 1,
                    m >= 0,
            ;
        }
        (m as u128 / p, m as u128 % p != 0)
    }
}

/// Rounds the sum of an integer and a number `m * 2^f`, each with its sign, in
/// units of `2^e`. A fraction in the second term needs a large first term.
pub(crate) fn round_sum(
    bits: u32,
    e: i32,
    n_negative: bool,
    n: u128,
    g_negative: bool,
    m: u64,
    f: i32,
    Ghost(x): Ghost<Ratio>,
) -> (r: (Rounded, bool))
    requires
        2 <= bits <= 53,
        -400 <= e <= 400,
        -1000 <= f <= 72,
        n <= 0x800_0000_0000_0000_0000_0000_0000_0000,
        m < 0x20_0000_0000_0000,
        f < 0 ==> n >= 0x40_0000_0000_0000,
        x.d > 0,
        same(
            scaled(x, e as int),
            total(signed(n_negative, whole(n as int)), signed(g_negative, dyadic(m as int, f as int))),
        ),
    ensures
        r.0.well_formed(bits as nat),
        r.1 <==> x.n < 0,
        r.0.m > 0 <==> x.n != 0,
        same(r.0.value(), rounded_up_from_zero(bits as nat, magnitude(x))),
        -454 < r.0.e <= 530,
{
    let ghost g = dyadic(m as int, f as int);
    let ghost w = total(signed(n_negative, whole(n as int)), signed(g_negative, g));
    let (q, sticky) = split_dyadic(m, f);
    proof {
        lemma2_to64();
        lemma2_to64_rest();
        if bits < 53 {
            lemma_pow2_strictly_increases(bits as nat, 53);
        }
        lemma_dyadic_positive(m as int, f as int);
        lemma_floor_bounds(g);
        let u = signed(n_negative, whole(n as int));
        let h = signed(g_negative, g);
        assert(w.d == g.d && w.n == u.n * g.d + h.n) by (nonlinear_arith)
            requires
                w.d == u.d * h.d,
                w.n == u.n * h.d + h.n * u.d,
                u.d == 1,
                h.d == g.d,
        ;
        lemma_scaled_sign(x, e as int, w);
    }
    if n_negative == g_negative {
        let negative: bool = n_negative && (n > 0 || m > 0);
        proof {
            lemma_add_floor(n as int, g);
            assert(n * g.d >= 0) by (nonlinear_arith)
                requires
                    n >= 0,
                    g.d > 0,
            ;
            assert((-n) * g.d == -(n * g.d)) by (nonlinear_arith);
            assert(n > 0 ==> n * g.d > 0) by (nonlinear_arith)
                requires
                    g.d > 0,
            ;
            if m == 0 {
                lemma_dyadic_zero(f as int);
            }
            assert(magnitude(w).n == n * g.d + g.n);
        }
        let r: Rounded = round_units(bits, n + q, sticky, e, Ghost(magnitude(x)), Ghost(magnitude(w)));
        (r, negative)
    } else if n > q {
        proof {
            lemma_sub_floor(n as int, g);
            assert((-n) * g.d == -(n * g.d)) by (nonlinear_arith);
            assert(n * g.d > g.n) by (nonlinear_arith)
                requires
                    g.n < (q + 1) * g.d,
                    q + 1 <= n,
                    g.d > 0,
            {
                assert((q + 1) * g.d <= n * g.d);
            }
            assert(magnitude(w).n == n * g.d - g.n);
        }
        let v: u128 = if sticky {
            n - q - 1
        } else {
            n - q
        };
        let r: Rounded = round_units(bits, v, sticky, e, Ghost(magnitude(x)), Ghost(magnitude(w)));
        (r, n_negative)
    } else {
        proof {
            assert(!sticky);
            assert((-n) * g.d == -(n * g.d)) by (nonlinear_arith);
            assert(g.n == q * g.d);
            assert((q - n) * g.d == q * g.d - n * g.d) by (nonlinear_arith);
            assert((q - n + 1) * g.d == (q - n) * g.d + g.d) by (nonlinear_arith);
            assert((q - n) * g.d >= 0) by (nonlinear_arith)
                requires
                    q >= n,
                    g.d > 0,
            ;
            assert(q > n ==> (q - n) * g.d > 0) by (nonlinear_arith)
                requires
                    g.d > 0,
            ;
            assert(magnitude(w).n == (q - n) * g.d);
            lemma_floor(magnitude(w), q - n);
            assert(q == n ==> w.n == 0);
        }
        let negative: bool = g_negative && q > n;
        let r: Rounded = round_units(bits, q - n, false, e, Ghost(magnitude(x)), Ghost(magnitude(w)));
        (r, negative)
    }
}

/// A number whose significand fits is its own rounding.
pub(crate) proof fn lemma_rounded_exact(bits: nat, m: int, e: int)
    requires
        2 <= bits <= 500,
        0 <= m < pow2(bits),
        -500 <= e <= 500,
    ensures
        same(dyadic(m, e), rounded_up_from_zero(bits, dyadic(m, e))),
{
    let x = dyadic(m, e);
    lemma_dyadic_positive(m, e);
    if m > 0 {
        let b = lemma_leading_bit(m);
        if b >= bits && b > bits {
            lemma_pow2_strictly_increases(bits, b);
        }
        lemma_dyadic_scaled(m, e, e);
        assert(pow2(0) == 1) by {
            lemma2_to64();
        }
        let z = scaled(x, e);
        assert(m * pow2(0) == m) by (nonlinear_arith)
            requires
                pow2(0) == 1,
        ;
        assert(z.n == m * z.d);
        lemma_round_small(bits, x, e, m, b as int);
        lemma_rounded_is(bits, x, e + b - (bits - 1));
        let k = (bits - 1 - b) as nat;
        let p = pow2(k) as int;
        let t = 2000int;
        lemma_dyadic_lifted(m, e, t);
        lemma_dyadic_lifted(m * p, e - k, t);
        lemma_dyadic_positive(m * p, e - k);
        lemma_pow2_adds((e - k + t) as nat, k);
        lemma_lifted(e, 0, t);
        let q = lifted(e - k, t);
        assert((m * p) * q == m * (q * p)) by (nonlinear_arith);
        let w = Ratio { n: m * lifted(e, t), d: lifted(0, t) };
        lemma_same_transitive(x, w, dyadic(m * p, e - k));
    } else {
        lemma_dyadic_zero(e);
        let r = rounded_up_from_zero(bits, x);
        assert(x.n * r.d == r.n * x.d) by (nonlinear_arith)
            requires
                x.n == 0,
                r.n == 0,
        ;
    }
}

/// A sum in units of `2^e` is the sum of its terms in those units.
pub(crate) proof fn lemma_sum_units(u: Ratio, v: Ratio, e: int, hu: Ratio, hv: Ratio)
    requires
        u.d > 0,
        v.d > 0,
        hu.d > 0,
        hv.d > 0,
        same(scaled(u, e), hu),
        same(scaled(v, e), hv),
    ensures
        total(u, v).d > 0,
        same(scaled(total(u, v), e), total(hu, hv)),
{
    let x = total(u, v);
    lemma_positive_product(u.d, v.d);
    lemma_positive_product(hu.d, hv.d);
    lemma_scaled_positive(u, e);
    lemma_scaled_positive(v, e);
    lemma_scaled_positive(x, e);
    lemma_total_scaled(u, v, e);
    lemma_same_total(scaled(u, e), hu, scaled(v, e), hv);
    lemma_positive_product(scaled(u, e).d, scaled(v, e).d);
    lemma_same_transitive(scaled(x, e), total(scaled(u, e), scaled(v, e)), total(hu, hv));
}

/// A signed number in other units.
pub(crate) proof fn lemma_signed_units(negative: bool, m: int, e: int, f: int)
    requires
        -500 <= e <= 500,
        -500 <= f <= 500,
    ensures
        same(scaled(signed(negative, dyadic(m, e)), f), signed(negative, dyadic(m, e - f))),
{
    lemma_dyadic_scaled(m, e, f);
    let x = dyadic(m, e);
    let w = dyadic(m, e - f);
    let y = scaled(x, f);
    if negative {
        let ny = scaled(signed(true, x), f);
        if f < 0 {
            let p = pow2((-f) as nat) as int;
            assert((-x.n) * p == -(x.n * p)) by (nonlinear_arith);
        }
        assert(ny.n == -y.n && ny.d == y.d);
        assert((-y.n) * w.d == (-w.n) * y.d) by (nonlinear_arith)
            requires
                y.n * w.d == w.n * y.d,
        ;
    }
}

/// Rounded numbers are ordered by exponent, then by significand.
pub(crate) proof fn lemma_order_of_rounded(bits: nat, a: Rounded, b: Rounded)
    requires
        bits >= 2,
        a.well_formed(bits),
        b.well_formed(bits),
        a.m > 0,
        b.m > 0,
    ensures
        at_most(a.value(), b.value()) <==> a.e < b.e || (a.e == b.e && a.m <= b.m),
{
    let (m1, e1, m2, e2) = (a.m as int, a.e as int, b.m as int, b.e as int);
    if e1 < e2 || (e1 == e2 && m1 <= m2) {
        lemma_dyadic_monotone(bits, m1, e1, m2, e2);
    } else {
        lemma_dyadic_strict(bits, m2, e2, m1, e1);
    }
}

proof fn lemma_dyadic_strict(bits: nat, m1: int, e1: int, m2: int, e2: int)
    requires
        bits >= 2,
        0 <= m1 < pow2(bits),
        pow2((bits - 1) as nat) <= m2,
        e1 < e2 || (e1 == e2 && m1 < m2),
    ensures
        !at_most(dyadic(m2, e2), dyadic(m1, e1)),
{
    let k = (if e1 < 0 {
        -e1
    } else {
        0
    }) as int;
    lemma_dyadic_lifted(m1, e1, k);
    lemma_dyadic_lifted(m2, e2, k);
    lemma_dyadic_positive(m1, e1);
    lemma_dyadic_positive(m2, e2);
    let p0 = lifted(0, k);
    let p1 = lifted(e1, k);
    let p2 = lifted(e2, k);
    let h = pow2((bits - 1) as nat) as int;
    lemma_pow2_pos(k as nat);
    lemma_pow2_pos((e1 + k) as nat);
    lemma_pow2_pos((bits - 1) as nat);
    lemma_pow2_unfold(bits);
    if e1 < e2 {
        lemma_pow2_unfold((e1 + k + 1) as nat);
        if e1 + 1 < e2 {
            lemma_pow2_strictly_increases((e1 + k + 1) as nat, (e2 + k) as nat);
        }
        assert(m1 * p1 < m2 * p2) by (nonlinear_arith)
            requires
                0 <= m1 < 2 * h,
                h <= m2,
                2 * p1 <= p2,
                p1 > 0,
                h > 0,
        {
            assert(m1 * p1 < (2 * h) * p1);
            assert((2 * h) * p1 == h * (2 * p1));
            assert(h * (2 * p1) <= m2 * (2 * p1));
            assert(m2 * (2 * p1) <= m2 * p2);
        }
    } else {
        assert(m1 * p1 < m2 * p2) by (nonlinear_arith)
            requires
                m1 < m2,
                p1 == p2,
                p1 > 0,
        ;
    }
    assert((m1 * p1) * p0 < (m2 * p2) * p0) by (nonlinear_arith)
        requires
            m1 * p1 < m2 * p2,
            p0 > 0,
    ;
    let u = Ratio { n: m1 * p1, d: p0 };
    let v = Ratio { n: m2 * p2, d: p0 };
    if at_most(dyadic(m2, e2), dyadic(m1, e1)) {
        lemma_at_most_same(dyadic(m2, e2), v, dyadic(m1, e1), u);
    }
}

} // verus!

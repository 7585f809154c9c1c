//! Changing the sample rate: which way it is done, filter lengths, and which input
//! sample meets which filter tap.

use vstd::arithmetic::div_mod::lemma_fundamental_div_mod;
use vstd::prelude::*;

verus! {

/// `d` divides `n`.
pub open spec fn divides(d: int, n: int) -> bool {
    exists|k: int| #![trigger d * k] n == d * k
}

/// `g` is the greatest common divisor of `a` and `b`.
pub open spec fn is_gcd(g: int, a: int, b: int) -> bool {
    &&& divides(g, a)
    &&& divides(g, b)
    &&& forall|d: int| d > 0 && divides(d, a) && divides(d, b) ==> #[trigger] divides(d, g)
}

proof fn lemma_divides_sum(d: int, a: int, b: int, q: int)
    requires
        divides(d, a),
        divides(d, b),
    ensures
        divides(d, a * q + b),
{
    let x = choose|k: int| #![trigger d * k] a == d * k;
    let y = choose|k: int| #![trigger d * k] b == d * k;
    assert(a * q + b == d * (x * q + y)) by (nonlinear_arith)
        requires
            a == d * x,
            b == d * y,
    ;
}

/// One step of Euclid's algorithm keeps the common divisors.
proof fn lemma_gcd_step(g: int, a: int, b: int)
    requires
        a >= 0,
        b > 0,
        is_gcd(g, b, a % b),
    ensures
        is_gcd(g, a, b),
{
    let q = a / b;
    let r = a % b;
    lemma_fundamental_div_mod(a, b);
    assert(a == b * q + r);
    lemma_divides_sum(g, b, r, q);
    assert forall|d: int| d > 0 && divides(d, a) && divides(d, b) implies #[trigger] divides(
        d,
        g,
    ) by {
        lemma_divides_sum(d, b, a, -q);
        assert(b * (-q) + a == r) by (nonlinear_arith)
            requires
                a == b * q + r,
        ;
    }
}

/// The greatest common divisor.
pub fn gcd(a: u32, b: u32) -> (g: u32)
    ensures
        is_gcd(g as int, a as int, b as int),
        a > 0 || b > 0 ==> g > 0,
    decreases b,
{
    if b == 0 {
        proof {
            assert(a as int == a as int * 1);
            assert(0 == a as int * 0);
            assert(divides(a as int, a as int));
            assert(divides(a as int, 0));
        }
        a
    } else {
        let g: u32 = gcd(b, a % b);
        proof {
            lemma_gcd_step(g as int, a as int, b as int);
        }
        g
    }
}

/// The rates as a ratio in lowest terms: `source * l == target * m`.
pub fn rational_ratio(source_rate: u32, target_rate: u32) -> (r: Option<(u32, u32)>)
    requires
        source_rate > 0 || target_rate > 0,
    ensures
        match r {
            Some((l, m)) => l > 0 && m > 0 && source_rate * l == target_rate * m && exists|g: int|
                is_gcd(g, source_rate as int, target_rate as int) && source_rate == #[trigger] (m
                    * g) && target_rate == l * g,
            None => source_rate == 0 || target_rate == 0,
        },
{
    let g: u32 = gcd(source_rate, target_rate);
    let l: u32 = target_rate / g;
    let m: u32 = source_rate / g;
    proof {
        let h = g as int;
        let x = choose|k: int| #![trigger h * k] source_rate as int == h * k;
        let y = choose|k: int| #![trigger h * k] target_rate as int == h * k;
        lemma_exact_quotient(source_rate as int, h, x);
        lemma_exact_quotient(target_rate as int, h, y);
        assert(source_rate * l == target_rate * m) by (nonlinear_arith)
            requires
                source_rate == h * m,
                target_rate == h * l,
        ;
        assert(source_rate == m * h && target_rate == l * h) by (nonlinear_arith)
            requires
                source_rate == h * m,
                target_rate == h * l,
        ;
        assert(source_rate == 0 <==> m == 0) by (nonlinear_arith)
            requires
                source_rate == h * m,
                h > 0,
        ;
        assert(target_rate == 0 <==> l == 0) by (nonlinear_arith)
            requires
                target_rate == h * l,
                h > 0,
        ;
    }
    if l > 0 && m > 0 {
        Some((l, m))
    } else {
        None
    }
}

proof fn lemma_exact_quotient(n: int, d: int, k: int)
    requires
        d > 0,
        n == d * k,
    ensures
        n / d == k,
{
    assert(k * d + 0 == n) by (nonlinear_arith)
        requires
            n == d * k,
    ;
    vstd::arithmetic::div_mod::lemma_fundamental_div_mod_converse(n, d, k, 0);
}

/// How a change of rate is done.
#[derive(Debug, Clone, Copy, PartialEq, Eq, Structural)]
pub enum Resampling {
    /// Nothing to do.
    Keep,
    /// A low-pass filter, then every `m`-th sample.
    Decimate { m: u32 },
    /// `l` times as many samples, a low-pass filter, then every `m`-th sample.
    Rational { l: u32, m: u32 },
    /// An interpolation for every output sample.
    Arbitrary,
}

/// Decides how the rate of `len` samples is changed.
pub fn resampling(len: usize, source_rate: u32, target_rate: u32) -> (r: Resampling)
    requires
        target_rate > 0,
    ensures
        source_rate == target_rate || len == 0 <==> r is Keep,
        r is Decimate <==> r !is Keep && source_rate > target_rate && source_rate % target_rate == 0,
        r matches Resampling::Decimate { m } ==> m == source_rate / target_rate,
        r matches Resampling::Rational { l, m } ==> l <= 16 && m <= 16 && l > 0 && source_rate * l
            == target_rate * m && exists|g: int|
            is_gcd(g, source_rate as int, target_rate as int) && source_rate == #[trigger] (m * g)
                && target_rate == l * g,
        r is Rational <==> r !is Keep && source_rate > target_rate && source_rate % target_rate != 0
            && exists|l: int, m: int|
            0 < l <= 16 && 0 < m <= 16 && #[trigger] (source_rate * l) == #[trigger] (target_rate
                * m),
{
    if source_rate == target_rate || len == 0 {
        return Resampling::Keep;
    }
    if source_rate > target_rate && source_rate % target_rate == 0 {
        return Resampling::Decimate { m: source_rate / target_rate };
    }
    if source_rate > target_rate {
        if let Some((l, m)) = rational_ratio(source_rate, target_rate) {
            if l <= 16 && m <= 16 {
                assert(source_rate * (l as int) == target_rate * (m as int));
                return Resampling::Rational { l, m };
            }
            proof {
                // Terms of any other ratio are multiples of the lowest terms.
                let g = choose|g: int|
                    is_gcd(g, source_rate as int, target_rate as int) && source_rate == #[trigger] (m
                        * g) && target_rate == l * g;
                assert forall|a: int, b: int|
                    0 < a <= 16 && 0 < b <= 16 implies #[trigger] (source_rate * a)
                    != #[trigger] (target_rate * b) by {
                    if source_rate * a == target_rate * b {
                        lemma_lowest_terms(
                            source_rate as int,
                            target_rate as int,
                            g,
                            l as int,
                            m as int,
                            a,
                            b,
                        );
                    }
                }
            }
        }
    }
    Resampling::Arbitrary
}

/// In lowest terms both terms of a ratio are smallest.
proof fn lemma_lowest_terms(s: int, t: int, g: int, l: int, m: int, a: int, b: int)
    requires
        s > 0,
        t > 0,
        l > 0,
        m > 0,
        is_gcd(g, s, t),
        s == m * g,
        t == l * g,
        a > 0,
        b > 0,
        s * a == t * b,
    ensures
        l <= a,
        m <= b,
{
    assert(g > 0) by (nonlinear_arith)
        requires
            s == m * g,
            s > 0,
            m > 0,
    ;
    assert(m * a == l * b) by (nonlinear_arith)
        requires
            s * a == t * b,
            s == m * g,
            t == l * g,
            g > 0,
    {
        assert((m * a) * g == (l * b) * g);
    }
    // Reduce a / b by its own common divisor, and compare.
    let (x, y) = lemma_bezout(m, l);
    // Any common divisor of m and l times g divides g, so m x + l y == 1.
    let d = m * x + l * y;
    assert(d == 1) by {
        assert(d > 0 && divides(d, m) && divides(d, l));
        let dm = choose|k: int| #![trigger d * k] m == d * k;
        let dl = choose|k: int| #![trigger d * k] l == d * k;
        let dg = d * g;
        assert(s == dg * dm && t == dg * dl) by (nonlinear_arith)
            requires
                s == m * g,
                t == l * g,
                m == d * dm,
                l == d * dl,
                dg == d * g,
        ;
        assert(dg > 0) by (nonlinear_arith)
            requires
                dg == d * g,
                d > 0,
                g > 0,
        ;
        assert(divides(dg, s) && divides(dg, t));
        assert(divides(dg, g));
        let k = choose|k: int| #![trigger dg * k] g == dg * k;
        assert(d == 1) by (nonlinear_arith)
            requires
                g == dg * k,
                dg == d * g,
                g > 0,
                d > 0,
        {
            assert(g == g * (d * k));
            assert(d * k == 1);
        }
    }
    // l divides a: a = a (m x + l y) = l (b x + a y)
    let p = b * x + a * y;
    assert(a == l * p) by (nonlinear_arith)
        requires
            m * x + l * y == 1,
            m * a == l * b,
            p == b * x + a * y,
    {
        assert(a == a * (m * x + l * y));
        assert(a * (m * x + l * y) == (m * a) * x + l * (a * y));
        assert((l * b) * x + l * (a * y) == l * (b * x + a * y));
    }
    assert(p >= 1) by (nonlinear_arith)
        requires
            a == l * p,
            a > 0,
            l > 0,
    ;
    assert(l <= a) by (nonlinear_arith)
        requires
            a == l * p,
            p >= 1,
            l > 0,
    ;
    assert(m <= b) by (nonlinear_arith)
        requires
            m * a == l * b,
            l <= a,
            l > 0,
            m > 0,
            b > 0,
    {
        if m > b {
            assert(m * a > b * a);
            assert(b * a >= b * l);
        }
    }
}

/// Two positive numbers have a combination that divides both.
proof fn lemma_bezout(m: int, l: int) -> (xy: (int, int))
    requires
        m > 0,
        l >= 0,
    ensures
        m * xy.0 + l * xy.1 > 0,
        divides(m * xy.0 + l * xy.1, m),
        divides(m * xy.0 + l * xy.1, l),
    decreases l,
{
    if l == 0 {
        assert(m * 1 + l * 0 == m);
        assert(m == m * 1);
        assert(l == m * 0);
        (1, 0)
    } else {
        let q = m / l;
        let r = m % l;
        lemma_fundamental_div_mod(m, l);
        let (x, y) = lemma_bezout(l, r);
        let d = l * x + r * y;
        // m = l q + r, so d = l x + (m - l q) y = m y + l (x - q y)
        assert(m * y + l * (x - q * y) == d) by (nonlinear_arith)
            requires
                m == l * q + r,
                d == l * x + r * y,
        ;
        lemma_divides_sum(d, l, r, q);
        (y, x - q * y)
    }
}

/// Output samples of a decimation by `m`.
pub fn decimated_len(len: usize, m: usize) -> (n: usize)
    requires
        m > 0,
    ensures
        n == len / m,
{
    len / m
}

/// Output samples of a change of rate by `l / m`.
pub fn rational_len(len: usize, l: usize, m: usize) -> (n: usize)
    requires
        m > 0,
        len * l <= usize::MAX,
    ensures
        n == (len * l) / (m as int),
{
    (len * l) / m
}

/// The input sample that tap `k` of a filter of half-length `half` meets for output
/// sample `i`, where `l` is the factor of up-sampling and `m` that of down-sampling.
pub open spec fn rational_sample(
    i: int,
    k: int,
    half: int,
    l: int,
    m: int,
    len: int,
) -> Option<int> {
    let up = i * m - half + k;
    if up >= 0 && up % l == 0 && up / l < len {
        Some(up / l)
    } else {
        None
    }
}

/// A filter tap meets the sample whose place among the up-sampled ones, a multiple of
/// `l`, is that of the tap, and no other one.
pub proof fn lemma_rational_sample(i: int, k: int, half: int, l: int, m: int, len: int)
    requires
        l > 0,
    ensures
        match rational_sample(i, k, half, l, m, len) {
            Some(s) => 0 <= s < len && s * l + half == i * m + k,
            None => forall|s: int| 0 <= s < len ==> #[trigger] (s * l) + half != i * m + k,
        },
{
    let up = i * m - half + k;
    vstd::arithmetic::div_mod::lemma_fundamental_div_mod(up, l);
    assert(l * (up / l) == (up / l) * l) by (nonlinear_arith);
    if up >= 0 && up % l == 0 {
        assert(up / l >= 0) by (nonlinear_arith)
            requires
                up >= 0,
                l > 0,
        ;
    }
    assert forall|s: int| 0 <= s < len && #[trigger] (s * l) + half == i * m + k implies up >= 0
        && up % l == 0 && up / l == s by {
        assert(s * l >= 0) by (nonlinear_arith)
            requires
                s >= 0,
                l > 0,
        ;
        vstd::arithmetic::div_mod::lemma_fundamental_div_mod_converse(up, l, s, 0);
    }
}

/// The input sample that a filter tap meets, if there is one.
pub fn rational_tap(
    i: usize,
    k: usize,
    half: usize,
    l: usize,
    m: usize,
    len: usize,
) -> (r: Option<usize>)
    requires
        l > 0,
        i * m + k <= usize::MAX,
    ensures
        match r {
            Some(s) => rational_sample(
                i as int,
                k as int,
                half as int,
                l as int,
                m as int,
                len as int,
            ) == Some(s as int),
            None => rational_sample(
                i as int,
                k as int,
                half as int,
                l as int,
                m as int,
                len as int,
            ) is None,
        },
        r matches Some(s) ==> s < len && s * l + half == i * m + k,
        r is None ==> forall|s: int| 0 <= s < len ==> #[trigger] (s * l) + half != i * m + k,
{
    proof {
        assert(i * m >= 0) by (nonlinear_arith);
        lemma_rational_sample(i as int, k as int, half as int, l as int, m as int, len as int);
    }
    let place: usize = i * m + k;
    if place < half {
        return None;
    }
    let up: usize = place - half;
    if up % l == 0 && up / l < len {
        Some(up / l)
    } else {
        None
    }
}

/// The input sample that tap `r + j m` of a filter of half-length `p m` meets for
/// output sample `i`.
pub open spec fn decimated_sample(i: int, r: int, j: int, p: int, m: int, len: int) -> Option<int> {
    let x = (i - j + p) * m - r;
    if 0 <= x < len {
        Some(x)
    } else {
        None
    }
}

/// The input sample that a filter tap meets, if there is one.
pub fn decimated_tap(
    i: usize,
    r: usize,
    j: usize,
    p: usize,
    m: usize,
    len: usize,
) -> (s: Option<usize>)
    requires
        m > 0,
        (i + p) * m <= usize::MAX,
        i + p <= usize::MAX,
    ensures
        match s {
            Some(x) => decimated_sample(i as int, r as int, j as int, p as int, m as int, len as int)
                == Some(x as int),
            None => decimated_sample(i as int, r as int, j as int, p as int, m as int, len as int)
                is None,
        },
        s matches Some(x) ==> x < len && x + r + j * m == (i + p) * m,
        s is None ==> forall|x: int| 0 <= x < len ==> #[trigger] (x + r) + j * m != (i + p) * m,
{
    assert((i - j + p) * m == (i + p) * m - j * m) by (nonlinear_arith);
    if i + p < j {
        proof {
            assert((i - j + p) * m < 0) by (nonlinear_arith)
                requires
                    i + p < j,
                    m > 0,
            ;
        }
        return None;
    }
    proof {
        assert(0 <= (i - j + p) * m <= (i + p) * m) by (nonlinear_arith)
            requires
                0 <= i - j + p <= i + p,
                m > 0,
        ;
    }
    let top: usize = (i + p - j) * m;
    if top < r {
        return None;
    }
    let x: usize = top - r;
    if x < len {
        Some(x)
    } else {
        None
    }
}

/// An odd filter length.
pub fn odd_length(n: usize) -> (r: usize)
    requires
        n < usize::MAX,
    ensures
        r % 2 == 1,
        r == n || r == n + 1,
{
    if n % 2 == 0 {
        n + 1
    } else {
        n
    }
}

/// The least multiple of `m` that is not below `half`.
pub fn align_half(half: usize, m: usize) -> (r: usize)
    requires
        m > 0,
        half + m <= usize::MAX,
    ensures
        r % m == 0,
        half <= r < half + m,
{
    let rest: usize = half % m;
    if rest == 0 {
        half
    } else {
        proof {
            lemma_fundamental_div_mod(half as int, m as int);
            let q = half as int / m as int;
            assert(half + (m - rest) == (q + 1) * m + 0) by (nonlinear_arith)
                requires
                    half == m * q + rest,
            ;
            vstd::arithmetic::div_mod::lemma_fundamental_div_mod_converse(
                half + (m - rest),
                m as int,
                q + 1,
                0,
            );
        }
        half + (m - rest)
    }
}

/// The least number of taps, not below `n`, that is one more than a multiple of four.
pub fn align_taps(n: usize) -> (r: usize)
    requires
        0 < n <= usize::MAX - 4,
    ensures
        r % 4 == 1,
        n <= r < n + 4,
{
    ((n + 2) / 4) * 4 + 1
}

/// A filter tap of a decimation meets the sample that lies as far before the output sample,
/// counted in input samples, as the tap lies behind the middle of the filter, and none
/// where there is no such sample.
pub proof fn lemma_decimated_sample(i: int, r: int, j: int, p: int, m: int, len: int)
    ensures
        match decimated_sample(i, r, j, p, m, len) {
            Some(x) => 0 <= x < len && i * m - x == (r + j * m) - p * m,
            None => forall|x: int| 0 <= x < len ==> #[trigger] (i * m - x) != (r + j * m) - p * m,
        },
{
    assert((i - j + p) * m == i * m - j * m + p * m) by (nonlinear_arith);
}

} // verus!

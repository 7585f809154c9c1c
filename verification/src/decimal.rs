//! Whole numbers in decimal digits.

use crate::chars::{from_chars, to_chars};
use vstd::arithmetic::power::pow;
use vstd::prelude::*;

verus! {

/// The value of a decimal digit.
pub open spec fn digit(c: char) -> Option<int> {
    if '0' <= c <= '9' {
        Some(c as int - '0' as int)
    } else {
        None
    }
}

/// The value of a sequence of decimal digits.
pub open spec fn decimal(s: Seq<char>) -> Option<int>
    decreases s.len(),
{
    if s.len() == 0 {
        Some(0)
    } else {
        match (decimal(s.drop_last()), digit(s.last())) {
            (Some(n), Some(d)) => Some(n * 10 + d),
            _ => None,
        }
    }
}

/// The number that a text stands for: decimal digits, after a plus sign or none.
pub open spec fn number_of(s: Seq<char>) -> Option<int> {
    if s.len() > 0 && s[0] == '+' {
        if s.len() > 1 {
            decimal(s.skip(1))
        } else {
            None
        }
    } else if s.len() > 0 {
        decimal(s)
    } else {
        None
    }
}

proof fn lemma_decimal_grows(s: Seq<char>, n: int)
    requires
        0 <= n <= s.len(),
    ensures
        decimal(s) matches Some(v) ==> decimal(s.take(n)) matches Some(u) && 0 <= u <= v,
    decreases s.len(),
{
    if n < s.len() {
        let t = s.drop_last();
        lemma_decimal_grows(t, n);
        assert(t.take(n) =~= s.take(n));
        lemma_decimal_positive(t);
    } else {
        assert(s.take(n) =~= s);
        lemma_decimal_positive(s);
    }
}

proof fn lemma_decimal_positive(s: Seq<char>)
    ensures
        decimal(s) matches Some(v) ==> v >= 0,
    decreases s.len(),
{
    if s.len() > 0 {
        lemma_decimal_positive(s.drop_last());
    }
}

/// Reads a number from decimal digits; nothing where a `u64` does not hold it.
pub fn parse_decimal(chars: &[char], start: usize) -> (r: Option<u64>)
    requires
        start <= chars@.len(),
    ensures
        match r {
            Some(n) => decimal(chars@.skip(start as int)) == Some(n as int),
            None => decimal(chars@.skip(start as int)) is None || decimal(
                chars@.skip(start as int),
            )->0 > u64::MAX,
        },
{
    let n: usize = chars.len();
    let ghost s = chars@.skip(start as int);
    let mut value: u64 = 0;
    assert(s.take(0) =~= Seq::empty());
    for i in start..n
        invariant
            n == chars@.len(),
            start <= n,
            s == chars@.skip(start as int),
            decimal(s.take(i - start)) == Some(value as int),
    {
        let c: char = chars[i];
        let ghost longer = s.take(i + 1 - start);
        proof {
            assert(longer.drop_last() =~= s.take(i - start));
            assert(longer.last() == c);
            lemma_decimal_grows(s, i + 1 - start);
        }
        if !('0' <= c && c <= '9') {
            return None;
        }
        let d: u64 = (c as u32 - 48) as u64;
        if value > (u64::MAX - d) / 10 {
            assert(value * 10 + d > u64::MAX);
            return None;
        }
        value = value * 10 + d;
    }
    assert(s.take(n - start) =~= s);
    Some(value)
}

/// Reads a number: decimal digits, after a plus sign or none.
pub fn parse_number(text: &str) -> (r: Option<u64>)
    ensures
        match r {
            Some(n) => number_of(text@) == Some(n as int),
            None => number_of(text@) is None || number_of(text@)->0 > u64::MAX,
        },
{
    let chars: Vec<char> = to_chars(text);
    if chars.len() == 0 {
        return None;
    }
    if chars[0] == '+' {
        if chars.len() == 1 {
            return None;
        }
        parse_decimal(&chars, 1)
    } else {
        assert(chars@.skip(0) =~= chars@);
        parse_decimal(&chars, 0)
    }
}

/// The decimal digits of a number, without zeros at the front.
pub open spec fn digits(n: nat) -> Seq<char>
    decreases n,
{
    if n < 10 {
        seq![('0' as int + n) as char]
    } else {
        digits(n / 10).push(('0' as int + n % 10) as char)
    }
}

fn digit_char(d: usize) -> (c: char)
    requires
        d < 10,
    ensures
        c as int == '0' as int + d,
{
    match d {
        0 => '0',
        1 => '1',
        2 => '2',
        3 => '3',
        4 => '4',
        5 => '5',
        6 => '6',
        7 => '7',
        8 => '8',
        _ => '9',
    }
}

fn digit_chars(n: usize) -> (v: Vec<char>)
    ensures
        v@ == digits(n as nat),
    decreases n,
{
    if n < 10 {
        let mut v: Vec<char> = Vec::new();
        v.push(digit_char(n));
        assert(v@ =~= digits(n as nat));
        v
    } else {
        let mut v: Vec<char> = digit_chars(n / 10);
        v.push(digit_char(n % 10));
        v
    }
}

/// Writes a number in decimal digits.
pub fn write_number(n: usize) -> (s: String)
    ensures
        s@ == digits(n as nat),
{
    let v: Vec<char> = digit_chars(n);
    assert(v@.subrange(0, v@.len() as int) =~= v@);
    from_chars(&v, 0, v.len())
}

/// A number that was written reads as itself, and is written without zeros at the front.
pub proof fn lemma_written_number_reads(n: nat)
    ensures
        number_of(digits(n)) == Some(n as int),
        n > 0 ==> digits(n)[0] != '0',
        n == 0 ==> digits(n) == seq!['0'],
{
    lemma_digits(n);
    if n > 0 {
        lemma_first_digit(n);
    }
}

proof fn lemma_first_digit(n: nat)
    requires
        n > 0,
    ensures
        digits(n).len() > 0,
        digits(n)[0] != '0',
    decreases n,
{
    if n >= 10 {
        lemma_first_digit(n / 10);
        assert(digits(n)[0] == digits(n / 10)[0]);
    }
}

proof fn lemma_digits(n: nat)
    ensures
        digits(n).len() > 0,
        digits(n)[0] != '+',
        decimal(digits(n)) == Some(n as int),
    decreases n,
{
    let s = digits(n);
    if n < 10 {
        assert(s.drop_last() =~= Seq::empty());
        assert(decimal(s.drop_last()) == Some(0int));
        assert(digit(s.last()) == Some(n as int));
    } else {
        lemma_digits(n / 10);
        assert(s.drop_last() =~= digits(n / 10));
        assert(digit(s.last()) == Some((n % 10) as int));
        assert(s[0] == digits(n / 10)[0]);
    }
}

/// Digits written after others count them in tens: a text is a number exactly where both
/// its parts are, and its value is that of the first part, moved by as many places as the
/// second has, and that of the second.
pub proof fn lemma_decimal_of_parts(a: Seq<char>, b: Seq<char>)
    ensures
        decimal(a + b) == match (decimal(a), decimal(b)) {
            (Some(x), Some(y)) => Some(x * pow(10, b.len()) + y),
            _ => None::<int>,
        },
    decreases b.len(),
{
    reveal(pow);
    if b.len() == 0 {
        assert(a + b =~= a);
        assert(decimal(a) matches Some(x) ==> x * 1 + 0 == x);
    } else {
        let shorter = b.drop_last();
        lemma_decimal_of_parts(a, shorter);
        assert((a + b).drop_last() =~= a + shorter);
        assert((a + b).last() == b.last());
        match (decimal(a), decimal(shorter), digit(b.last())) {
            (Some(x), Some(y), Some(d)) => {
                let p = pow(10, shorter.len());
                assert(pow(10, b.len()) == 10 * p);
                assert((x * p + y) * 10 + d == x * (10 * p) + (y * 10 + d)) by (nonlinear_arith);
            },
            _ => {},
        }
    }
}

/// One digit has the value of its place among the ten, and no other character has one. A
/// plus sign may stand before the digits, once.
pub proof fn lemma_digit_values(c: char, s: Seq<char>)
    ensures
        decimal(seq![c]) == (if '0' as int <= c as int <= '9' as int {
            Some(c as int - 48)
        } else {
            None::<int>
        }),
        s.len() > 0 && s[0] != '+' ==> number_of(s) == decimal(s) && number_of(seq!['+'] + s)
            == decimal(s),
        number_of(Seq::empty()) is None,
        number_of(seq!['+']) is None,
        number_of(seq!['+', '+'] + s) is None,
{
    assert(seq![c].drop_last() =~= Seq::empty());
    assert((seq!['+'] + s).skip(1) =~= s);
    let twice = seq!['+', '+'] + s;
    assert(twice.skip(1) =~= seq!['+'] + s);
    lemma_decimal_of_parts(seq!['+'], s);
    assert(seq!['+'].drop_last() =~= Seq::empty());
    assert(digit(seq!['+'].last()) is None);
    assert(decimal(seq!['+']) is None);
}

} // verus!

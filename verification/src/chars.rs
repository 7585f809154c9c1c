//! Text as sequences of characters.

use vstd::prelude::*;

verus! {

/// `String::push` puts a character at the end.
pub assume_specification[ String::push ](s: &mut String, c: char)
    ensures
        final(s)@ == old(s)@.push(c),
;

/// The characters of a text.
pub fn to_chars(s: &str) -> (v: Vec<char>)
    ensures
        v@ == s@,
{
    let mut v: Vec<char> = Vec::new();
    for c in it: s.chars()
        invariant
            it.seq() == s@,
            v@ == s@.take(it.index()),
    {
        v.push(c);
        assert(v@ =~= s@.take(it.index() + 1));
    }
    assert(s@.take(s@.len() as int) =~= s@);
    v
}

/// The text of the characters from `start` to `end`.
pub fn from_chars(v: &[char], start: usize, end: usize) -> (s: String)
    requires
        start <= end <= v@.len(),
    ensures
        s@ == v@.subrange(start as int, end as int),
{
    let mut s: String = String::new();
    for i in start..end
        invariant
            start <= end <= v@.len(),
            s@ == v@.subrange(start as int, i as int),
    {
        s.push(v[i]);
        assert(s@ =~= v@.subrange(start as int, i + 1));
    }
    s
}

/// Appends `t` to `s`.
pub fn push_text(s: &mut String, t: &str)
    ensures
        final(s)@ == old(s)@ + t@,
{
    let chars: Vec<char> = to_chars(t);
    let n: usize = chars.len();
    for i in 0..n
        invariant
            n == chars@.len(),
            chars@ == t@,
            s@ == old(s)@ + t@.take(i as int),
    {
        s.push(chars[i]);
        assert(s@ =~= old(s)@ + t@.take(i + 1));
    }
    assert(t@.take(n as int) =~= t@);
}

/// A copy of a text.
pub fn copy_text(text: &str) -> (s: String)
    ensures
        s@ == text@,
{
    let mut s: String = String::new();
    push_text(&mut s, text);
    assert(s@ =~= text@);
    s
}

/// Whether two texts hold the same characters.
pub fn same_text(a: &str, b: &str) -> (r: bool)
    ensures
        r == (a@ == b@),
{
    let x: Vec<char> = to_chars(a);
    let y: Vec<char> = to_chars(b);
    if x.len() != y.len() {
        return false;
    }
    for i in 0..x.len()
        invariant
            x@ == a@,
            y@ == b@,
            x@.len() == y@.len(),
            forall|k: int| 0 <= k < i ==> x@[k] == y@[k],
    {
        if x[i] != y[i] {
            return false;
        }
    }
    assert(x@ =~= y@);
    true
}

/// The characters with the Unicode property `White_Space`.
pub open spec fn is_whitespace(c: char) -> bool {
    let u = c as int;
    ||| 0x9 <= u <= 0xd
    ||| u == 0x20
    ||| u == 0x85
    ||| u == 0xa0
    ||| u == 0x1680
    ||| 0x2000 <= u <= 0x200a
    ||| u == 0x2028
    ||| u == 0x2029
    ||| u == 0x202f
    ||| u == 0x205f
    ||| u == 0x3000
}

/// Whether a character is white space.
pub fn whitespace(c: char) -> (r: bool)
    ensures
        r == is_whitespace(c),
{
    let u: u32 = c as u32;
    (0x9 <= u && u <= 0xd) || u == 0x20 || u == 0x85 || u == 0xa0 || u == 0x1680 || (0x2000 <= u
        && u <= 0x200a) || u == 0x2028 || u == 0x2029 || u == 0x202f || u == 0x205f || u == 0x3000
}

/// The number of characters before the first white space.
pub open spec fn word_len(s: Seq<char>) -> nat
    decreases s.len(),
{
    if s.len() == 0 || is_whitespace(s[0]) {
        0
    } else {
        1 + word_len(s.skip(1))
    }
}

/// The maximal runs of characters that are not white space.
pub open spec fn words_of(s: Seq<char>) -> Seq<Seq<char>>
    decreases s.len(),
{
    if s.len() == 0 {
        Seq::empty()
    } else if is_whitespace(s[0]) {
        words_of(s.skip(1))
    } else {
        let n = word_len(s) as int;
        proof {
            lemma_word_len(s);
        }
        seq![s.take(n)] + words_of(s.skip(n))
    }
}

/// A word ends within the text, and is not empty.
pub proof fn lemma_word_len(s: Seq<char>)
    ensures
        word_len(s) <= s.len(),
        s.len() > 0 && !is_whitespace(s[0]) ==> word_len(s) > 0,
    decreases s.len(),
{
    if s.len() > 0 && !is_whitespace(s[0]) {
        lemma_word_len(s.skip(1));
    }
}

/// Views of a list of texts.
pub open spec fn texts(v: Seq<String>) -> Seq<Seq<char>> {
    v.map_values(|s: String| s@)
}

pub proof fn lemma_texts_push(v: Seq<String>, s: String)
    ensures
        texts(v.push(s)) == texts(v).push(s@),
{
    assert(texts(v.push(s)) =~= texts(v).push(s@));
}

pub proof fn lemma_texts_add(v: Seq<String>, w: Seq<String>)
    ensures
        texts(v + w) == texts(v) + texts(w),
{
    assert(texts(v + w) =~= texts(v) + texts(w));
}

/// Where the word that starts at `start` ends.
fn word_end(v: &[char], start: usize) -> (end: usize)
    requires
        start <= v@.len(),
    ensures
        start <= end <= v@.len(),
        end - start == word_len(v@.skip(start as int)),
{
    let mut end: usize = start;
    let n: usize = v.len();
    assert(v@.skip(start as int).len() == n - start);
    while end < n && !whitespace(v[end])
        invariant
            start <= end <= n == v@.len(),
            word_len(v@.skip(start as int)) == end - start + word_len(v@.skip(end as int)),
        decreases n - end,
    {
        assert(v@.skip(end as int).skip(1) =~= v@.skip(end + 1));
        end = end + 1;
    }
    end
}

/// The words of a text, separated by white space.
pub fn split_whitespace(text: &str) -> (words: Vec<String>)
    ensures
        texts(words@) == words_of(text@),
{
    let v: Vec<char> = to_chars(text);
    let n: usize = v.len();
    let mut words: Vec<String> = Vec::new();
    let mut i: usize = 0;
    proof {
        assert(v@.skip(0) =~= v@);
        assert(texts(words@) =~= Seq::empty());
        assert(Seq::<Seq<char>>::empty() + words_of(v@) =~= words_of(v@));
    }
    while i < n
        invariant
            i <= n == v@.len(),
            texts(words@) + words_of(v@.skip(i as int)) == words_of(v@),
        decreases n - i,
    {
        let ghost rest = v@.skip(i as int);
        proof {
            lemma_word_len(rest);
        }
        if whitespace(v[i]) {
            assert(rest.skip(1) =~= v@.skip(i + 1));
            i = i + 1;
        } else {
            let end: usize = word_end(&v, i);
            let word: String = from_chars(&v, i, end);
            proof {
                let k = end - i;
                assert(rest.take(k) =~= v@.subrange(i as int, end as int));
                assert(rest.skip(k) =~= v@.skip(end as int));
                lemma_texts_push(words@, word);
                assert(texts(words@).push(word@) + words_of(v@.skip(end as int)) =~= texts(words@)
                    + (seq![word@] + words_of(v@.skip(end as int))));
            }
            words.push(word);
            i = end;
        }
    }
    assert(words_of(v@.skip(n as int)) =~= Seq::empty());
    assert(texts(words@) + Seq::<Seq<char>>::empty() =~= texts(words@));
    words
}

/// `s` without white space at its ends.
pub open spec fn trimmed(s: Seq<char>) -> Seq<char>
    decreases s.len(),
{
    if s.len() == 0 {
        s
    } else if is_whitespace(s[0]) {
        trimmed(s.skip(1))
    } else if is_whitespace(s.last()) {
        trimmed(s.drop_last())
    } else {
        s
    }
}

/// The part of `v[start..end]` without white space at its ends.
pub fn trim_range(v: &[char], start: usize, end: usize) -> (r: (usize, usize))
    requires
        start <= end <= v@.len(),
    ensures
        start <= r.0 <= r.1 <= end,
        v@.subrange(r.0 as int, r.1 as int) == trimmed(v@.subrange(start as int, end as int)),
{
    let mut a: usize = start;
    let mut b: usize = end;
    while a < b && (whitespace(v[a]) || whitespace(v[b - 1]))
        invariant
            start <= a <= b <= end <= v@.len(),
            trimmed(v@.subrange(a as int, b as int)) == trimmed(
                v@.subrange(start as int, end as int),
            ),
        decreases b - a,
    {
        let ghost s = v@.subrange(a as int, b as int);
        assert(s[0] == v@[a as int]);
        assert(s.last() == v@[b - 1]);
        assert(s.skip(1) =~= v@.subrange(a + 1, b as int));
        assert(s.drop_last() =~= v@.subrange(a as int, b - 1));
        if whitespace(v[a]) {
            a = a + 1;
        } else {
            b = b - 1;
        }
    }
    (a, b)
}

/// A text without white space at its ends.
pub fn trim(text: &str) -> (s: String)
    ensures
        s@ == trimmed(text@),
{
    let v: Vec<char> = to_chars(text);
    let n: usize = v.len();
    let (a, b): (usize, usize) = trim_range(&v, 0, n);
    assert(v@.subrange(0, n as int) =~= v@);
    from_chars(&v, a, b)
}

/// The number of characters before the first line feed.
pub open spec fn line_len(s: Seq<char>) -> nat
    decreases s.len(),
{
    if s.len() == 0 || s[0] == '\n' {
        0
    } else {
        1 + line_len(s.skip(1))
    }
}

/// The line that the first line feed ends, without a carriage return before the
/// line feed.
pub open spec fn first_line(s: Seq<char>) -> Seq<char> {
    let n = line_len(s) as int;
    if n < s.len() && n > 0 && s[n - 1] == '\r' {
        s.take(n - 1)
    } else {
        s.take(n)
    }
}

/// The lines of a text. Each ends with a line feed, or a carriage return and a
/// line feed; the last one need not.
pub open spec fn lines_of(s: Seq<char>) -> Seq<Seq<char>>
    decreases s.len(),
{
    if s.len() == 0 {
        Seq::empty()
    } else {
        let n = line_len(s) as int;
        let rest = if n + 1 < s.len() {
            s.skip(n + 1)
        } else {
            Seq::empty()
        };
        seq![first_line(s)] + lines_of(rest)
    }
}

fn line_end(v: &[char], start: usize) -> (end: usize)
    requires
        start <= v@.len(),
    ensures
        start <= end <= v@.len(),
        end - start == line_len(v@.skip(start as int)),
        end < v@.len() ==> v@[end as int] == '\n',
{
    let mut end: usize = start;
    let n: usize = v.len();
    while end < n && v[end] != '\n'
        invariant
            start <= end <= n == v@.len(),
            line_len(v@.skip(start as int)) == end - start + line_len(v@.skip(end as int)),
        decreases n - end,
    {
        assert(v@.skip(end as int).skip(1) =~= v@.skip(end + 1));
        end = end + 1;
    }
    assert(end < n ==> v@.skip(end as int)[0] == v@[end as int]);
    end
}

/// The lines of a text.
pub fn lines(text: &str) -> (out: Vec<String>)
    ensures
        texts(out@) == lines_of(text@),
{
    let v: Vec<char> = to_chars(text);
    let n: usize = v.len();
    let mut out: Vec<String> = Vec::new();
    let mut i: usize = 0;
    proof {
        assert(v@.skip(0) =~= v@);
        assert(texts(out@) =~= Seq::empty());
        assert(Seq::<Seq<char>>::empty() + lines_of(v@) =~= lines_of(v@));
    }
    while i < n
        invariant
            i <= n == v@.len(),
            texts(out@) + lines_of(v@.skip(i as int)) == lines_of(v@),
        decreases n - i,
    {
        let ghost rest = v@.skip(i as int);
        let end: usize = line_end(&v, i);
        let stop: usize = if end < n && end > i && v[end - 1] == '\r' {
            end - 1
        } else {
            end
        };
        let line: String = from_chars(&v, i, stop);
        proof {
            let k = end - i;
            assert(k > 0 ==> rest[k - 1] == v@[end - 1]);
            assert(rest.take(stop - i) =~= v@.subrange(i as int, stop as int));
            assert(line@ == first_line(rest));
            lemma_texts_push(out@, line);
            let tail = if k + 1 < rest.len() {
                rest.skip(k + 1)
            } else {
                Seq::empty()
            };
            let next = if end < n {
                end + 1
            } else {
                n as int
            };
            assert(tail =~= v@.skip(next));
            assert(texts(out@).push(line@) + lines_of(tail) =~= texts(out@) + (seq![line@]
                + lines_of(tail)));
        }
        out.push(line);
        i = if end < n {
            end + 1
        } else {
            n
        };
    }
    assert(lines_of(v@.skip(n as int)) =~= Seq::empty());
    assert(texts(out@) + Seq::<Seq<char>>::empty() =~= texts(out@));
    out
}

/// Trimming takes the white space at the ends and nothing else: what is left of a text
/// that starts and ends with something else, between white space, is that text.
pub proof fn lemma_trimmed_core(left: Seq<char>, s: Seq<char>, right: Seq<char>)
    requires
        forall|i: int| 0 <= i < left.len() ==> is_whitespace(#[trigger] left[i]),
        forall|i: int| 0 <= i < right.len() ==> is_whitespace(#[trigger] right[i]),
        s.len() > 0 ==> !is_whitespace(s[0]) && !is_whitespace(s.last()),
        s.len() == 0 ==> right.len() == 0,
    ensures
        trimmed(left + s + right) == s,
    decreases left.len() + right.len(),
{
    let all = left + s + right;
    if left.len() > 0 {
        let rest = left.skip(1);
        assert(all[0] == left[0]);
        assert forall|i: int| 0 <= i < rest.len() implies is_whitespace(#[trigger] rest[i]) by {
            assert(rest[i] == left[i + 1]);
        }
        assert(all.skip(1) =~= rest + s + right);
        lemma_trimmed_core(rest, s, right);
    } else if right.len() > 0 {
        let rest = right.drop_last();
        assert(all[0] == s[0]);
        assert(all.last() == right[right.len() - 1]);
        assert forall|i: int| 0 <= i < rest.len() implies is_whitespace(#[trigger] rest[i]) by {
            assert(rest[i] == right[i]);
        }
        assert(all.drop_last() =~= left + s + rest);
        lemma_trimmed_core(left, s, rest);
    } else {
        assert(all =~= s);
    }
}

proof fn lemma_line_end(line: Seq<char>, rest: Seq<char>)
    requires
        !line.contains('\n'),
    ensures
        line_len(line + seq!['\n'] + rest) == line.len(),
        line_len(line) == line.len(),
    decreases line.len(),
{
    let s = line + seq!['\n'] + rest;
    if line.len() == 0 {
        assert(s[0] == '\n');
    } else {
        assert(s[0] == line[0]);
        assert(line.contains(line[0]));
        assert(s.skip(1) =~= line.skip(1) + seq!['\n'] + rest);
        assert forall|i: int| 0 <= i < line.skip(1).len() implies line.skip(1)[i] != '\n' by {
            assert(line.contains(line[i + 1]));
        }
        lemma_line_end(line.skip(1), rest);
    }
}

/// A line ends at a line feed, before a carriage return where one stands there; the text
/// after it has the lines that it has alone, and a last line needs no line feed.
pub proof fn lemma_lines_of_text(line: Seq<char>, rest: Seq<char>)
    requires
        !line.contains('\n'),
    ensures
        line.len() == 0 || line.last() != '\r' ==> lines_of(line + seq!['\n'] + rest) == seq![line]
            + lines_of(rest),
        line.len() > 0 && line.last() == '\r' ==> lines_of(line + seq!['\n'] + rest)
            == seq![line.drop_last()] + lines_of(rest),
        line.len() > 0 ==> lines_of(line) == seq![line],
{
    let s = line + seq!['\n'] + rest;
    let n = line.len() as int;
    lemma_line_end(line, rest);
    assert(s.skip(n + 1) =~= rest);
    let remaining = if n + 1 < s.len() {
        s.skip(n + 1)
    } else {
        Seq::empty()
    };
    assert(remaining =~= rest);
    assert(lines_of(s) == seq![first_line(s)] + lines_of(rest));
    assert(s.take(n) =~= line);
    if n > 0 {
        assert(s[n - 1] == line.last());
        assert(s.take(n - 1) =~= line.drop_last());
        assert(line.take(n) =~= line);
        assert(lines_of(Seq::<char>::empty()) =~= Seq::empty());
        assert(lines_of(line) =~= seq![line]);
    }
}

} // verus!

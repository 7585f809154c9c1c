//! Lengths of the audio part of an aligner input, and its expansion.

use crate::chars::{from_chars, push_text, to_chars};
use vstd::prelude::*;

verus! {

/// The length after one convolution of stride two.
pub open spec fn halved(len: int) -> int {
    (len - 1) / 2 + 1
}

/// Quotient and remainder of a division by a hundred, both with the sign of the
/// dividend.
pub open spec fn hundreds(n: int) -> (int, int) {
    if n >= 0 {
        (n / 100, n % 100)
    } else {
        (-((-n) / 100), -((-n) % 100))
    }
}

/// The number of audio tokens for a number of feature frames: thirteen for every
/// hundred frames, and for the rest its length after three convolutions.
pub open spec fn audio_token_count(frames: int) -> int {
    let (full, rest) = hundreds(frames);
    halved(halved(halved(rest))) + full * 13
}

fn half(len: i64) -> (r: i64)
    requires
        -1000 <= len <= 1000,
    ensures
        r == halved(len as int),
        -1000 <= r <= 1000,
{
    // Division rounds down also below zero.
    let shifted: i64 = len + 2001;
    shifted / 2 - 1000
}

/// The number of audio tokens for a number of feature frames.
pub fn feature_extract_output_len(input_len: i64) -> (len: i64)
    ensures
        len == audio_token_count(input_len as int),
        input_len >= 0 ==> 8 * (len - 13 * (input_len / 100)) - 8 < input_len % 100 <= 8 * (len - 13
            * (input_len / 100)),
{
    let size: u64 = if input_len >= 0 {
        input_len as u64
    } else {
        (-(input_len as i128)) as u64
    };
    let full: i64 = (size / 100) as i64;
    let rest: i64 = (size % 100) as i64;
    let (full, rest): (i64, i64) = if input_len >= 0 {
        (full, rest)
    } else {
        (-full, -rest)
    };
    half(half(half(rest))) + full * 13
}

/// The place that the audio takes in an aligner input.
pub open spec fn audio_pad() -> Seq<char> {
    "<|audio_pad|>"@
}

/// `pattern` stands in `s` at `i`.
pub open spec fn occurs_at(s: Seq<char>, pattern: Seq<char>, i: int) -> bool {
    0 <= i && i + pattern.len() <= s.len() && s.subrange(i, i + pattern.len()) == pattern
}

/// The first place at which `pattern` stands in `s`.
pub open spec fn is_first_occurrence(s: Seq<char>, pattern: Seq<char>, i: int) -> bool {
    occurs_at(s, pattern, i) && forall|j: int| 0 <= j < i ==> !occurs_at(s, pattern, j)
}

/// `count` copies of `s`, one after the other.
pub open spec fn repeated(s: Seq<char>, count: nat) -> Seq<char>
    decreases count,
{
    if count == 0 {
        Seq::empty()
    } else {
        repeated(s, (count - 1) as nat) + s
    }
}

/// Why an aligner input could not be expanded.
#[derive(Debug, Clone, Copy, PartialEq, Eq, Structural)]
pub enum PromptError {
    /// The number of audio tokens is zero.
    CountNotPositive,
    /// The input has no place for the audio.
    NoAudioPad,
}

/// Where `pattern` first stands in `s`.
fn find(s: &[char], pattern: &[char]) -> (r: Option<usize>)
    ensures
        match r {
            Some(i) => is_first_occurrence(s@, pattern@, i as int),
            None => forall|j: int| !occurs_at(s@, pattern@, j),
        },
{
    let n: usize = s.len();
    let m: usize = pattern.len();
    if m > n {
        return None;
    }
    let mut i: usize = 0;
    while i <= n - m
        invariant
            n == s@.len(),
            m == pattern@.len(),
            m <= n,
            i <= n - m + 1,
            forall|j: int| 0 <= j < i ==> !occurs_at(s@, pattern@, j),
        decreases n - m + 1 - i,
    {
        let mut k: usize = 0;
        while k < m && s[i + k] == pattern[k]
            invariant
                n == s@.len(),
                m == pattern@.len(),
                i + m <= n,
                k <= m,
                forall|x: int| 0 <= x < k ==> s@[i + x] == pattern@[x],
            decreases m - k,
        {
            k = k + 1;
        }
        if k == m {
            assert(s@.subrange(i as int, i + m) =~= pattern@);
            return Some(i);
        }
        assert(!occurs_at(s@, pattern@, i as int)) by {
            if occurs_at(s@, pattern@, i as int) {
                assert(s@.subrange(i as int, i + m)[k as int] == pattern@[k as int]);
            }
        }
        i = i + 1;
    }
    None
}

/// Expands the first audio place of an input to `count` places.
pub fn expand_audio_pad_once(input: &str, count: usize) -> (r: Result<String, PromptError>)
    ensures
        match r {
            Ok(output) => count > 0 && exists|i: int| #[trigger]
                is_first_occurrence(input@, audio_pad(), i) && output@ == input@.take(i) + repeated(
                    audio_pad(),
                    count as nat,
                ) + input@.skip(i + audio_pad().len()),
            Err(PromptError::CountNotPositive) => count == 0,
            Err(PromptError::NoAudioPad) => count > 0 && forall|i: int|
                !occurs_at(input@, audio_pad(), i),
        },
{
    if count == 0 {
        return Err(PromptError::CountNotPositive);
    }
    let chars: Vec<char> = to_chars(input);
    let pad: Vec<char> = to_chars("<|audio_pad|>");
    match find(&chars, &pad) {
        None => Err(PromptError::NoAudioPad),
        Some(pos) => {
            let mut output: String = from_chars(&chars, 0, pos);
            assert(output@ =~= input@.take(pos as int) + repeated(audio_pad(), 0));
            for k in 0..count
                invariant
                    output@ == input@.take(pos as int) + repeated(audio_pad(), k as nat),
            {
                push_text(&mut output, "<|audio_pad|>");
                assert(output@ =~= input@.take(pos as int) + repeated(
                    audio_pad(),
                    (k + 1) as nat,
                ));
            }
            let n: usize = chars.len();
            let m: usize = pad.len();
            assert(pos + m <= n);
            let rest: String = from_chars(&chars, pos + m, n);
            push_text(&mut output, rest.as_str());
            assert(rest@ =~= input@.skip(pos + audio_pad().len()));
            assert(is_first_occurrence(input@, audio_pad(), pos as int));
            Ok(output)
        },
    }
}

/// One copy leaves an input as it is.
pub proof fn lemma_expand_once_is_identity(input: Seq<char>, i: int)
    requires
        is_first_occurrence(input, audio_pad(), i),
    ensures
        input.take(i) + repeated(audio_pad(), 1) + input.skip(i + audio_pad().len()) == input,
{
    let pad = audio_pad();
    assert(repeated(pad, 1) =~= pad) by {
        reveal_with_fuel(repeated, 2);
    }
    assert(input.subrange(i, i + pad.len()) =~= pad);
    assert forall|k: int| 0 <= k < pad.len() implies pad[k] == input[i + k] by {
        assert(input.subrange(i, i + pad.len())[k] == input[i + k]);
    }
    assert(input.take(i) + pad + input.skip(i + pad.len()) =~= input);
}

/// Audio with a frame has a token.
pub proof fn lemma_frames_have_tokens(frames: int)
    requires
        frames > 0,
    ensures
        0 < audio_token_count(frames) <= frames,
{
}

/// Audio tokens grow by thirteen with every hundred frames.
pub proof fn lemma_hundred_frames(frames: int)
    requires
        frames >= 0,
    ensures
        audio_token_count(frames + 100) == audio_token_count(frames) + 13,
{
    assert((frames + 100) / 100 == frames / 100 + 1);
    assert((frames + 100) % 100 == frames % 100);
}

/// Beyond the thirteen tokens of every hundred frames, there is one for every eight
/// frames, and one for fewer that are left. Frames below zero count as much backwards.
pub proof fn lemma_token_for_eight_frames(frames: int, full: int, rest: int)
    requires
        frames == 100 * full + rest,
        frames >= 0 ==> 0 <= rest < 100,
        frames <= 0 ==> -100 < rest <= 0,
    ensures
        8 * (audio_token_count(frames) - 13 * full) - 8 < rest <= 8 * (audio_token_count(frames)
            - 13 * full),
{
}

/// Copies of a text stand one after the other: so many and so many copies are as many
/// as both together, one copy is the text, and none is nothing.
pub proof fn lemma_copies_add_up(s: Seq<char>, a: nat, b: nat)
    ensures
        repeated(s, a + b) == repeated(s, a) + repeated(s, b),
        repeated(s, 1) == s,
        repeated(s, 0).len() == 0,
        repeated(s, a).len() == a * s.len(),
    decreases b, a,
{
    assert(repeated(s, 0) + s =~= s);
    if b > 0 {
        lemma_copies_add_up(s, a, (b - 1) as nat);
        assert(repeated(s, a + b) == repeated(s, (a + b - 1) as nat) + s);
        assert(repeated(s, a + b) =~= repeated(s, a) + repeated(s, b));
    } else {
        assert(repeated(s, a) + repeated(s, 0) =~= repeated(s, a));
        if a > 0 {
            lemma_copies_add_up(s, (a - 1) as nat, 0);
            assert(a * s.len() == (a - 1) * s.len() + s.len()) by (nonlinear_arith);
        } else {
            assert(a * s.len() == 0) by (nonlinear_arith)
                requires
                    a == 0,
            ;
        }
    }
}

/// A convolution of stride two makes one place of every two, and one of a last one that is
/// left.
pub proof fn lemma_halved_rounds_up(len: int)
    ensures
        2 * halved(len) - 2 < len <= 2 * halved(len),
{
}

} // verus!

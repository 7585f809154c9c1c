//! Splitting a transcript into the words that are aligned.

use crate::chars::{
    from_chars, is_whitespace, lemma_lines_of_text, lemma_texts_add, lemma_texts_push,
    lemma_word_len, lines, lines_of, push_text, same_text, split_whitespace, texts, to_chars,
    word_len, words_of,
};
use vstd::hash_set::StringHashSet;
use vstd::prelude::*;

verus! {

/// What `char::is_alphanumeric` says of a character: that it has the Unicode
/// property `Alphabetic`, or a numeric general category.
pub uninterp spec fn is_alphanumeric(c: char) -> bool;

/// `char::is_alphanumeric` decides by the character alone.
pub assume_specification[ char::is_alphanumeric ](c: char) -> (r: bool)
    ensures
        r == is_alphanumeric(c),
;

/// The lower-case form of a text that `str::to_lowercase` gives.
pub uninterp spec fn lowercase(s: Seq<char>) -> Seq<char>;

/// `str::to_lowercase` gives a form that the text alone decides.
#[verifier::external_body]
fn to_lowercase(s: &str) -> (r: String)
    ensures
        r@ == lowercase(s@),
{
    s.to_lowercase()
}

/// A segmenter of text, and what filters it has.
#[verifier::external_type_specification]
#[verifier::external_body]
pub struct ExJapaneseTokenizer(lindera::tokenizer::Tokenizer);

#[verifier::external_type_specification]
#[verifier::external_body]
pub struct ExJapaneseError(lindera::error::LinderaError);

/// A dictionary of words.
#[verifier::external_type_specification]
#[verifier::external_body]
pub struct ExJapaneseDictionary(lindera::dictionary::Dictionary);

/// Whether the parts of a dictionary belong together: every category of characters,
/// every entry for unknown words, and every row and column of the table of connections
/// that one part speaks of is there in the part that holds it. No character has more
/// categories than bytes.
pub uninterp spec fn is_coherent(dictionary: lindera::dictionary::Dictionary) -> bool;

/// The name of the dictionary of Japanese words.
pub fn japanese_dictionary_uri() -> (r: &'static str)
    ensures
        r@ == "embedded://ipadic"@,
{
    "embedded://ipadic"
}

/// `lindera::dictionary::load_dictionary` loads the dictionary with a URI. With this one
/// it gives IPADIC, whose parts were built together, where that is built in, and fails
/// where it is not. What is built in, no value at hand decides, so nothing is said of
/// when it succeeds.
#[verifier::external_body]
fn load_dictionary(uri: &str) -> (r: Result<
    lindera::dictionary::Dictionary,
    lindera::error::LinderaError,
>)
    requires
        uri@ == "embedded://ipadic"@,
    ensures
        r matches Ok(dictionary) ==> is_coherent(dictionary),
{
    lindera::dictionary::load_dictionary(uri)
}

/// The segmenter for a dictionary.
pub uninterp spec fn segmenter_for(
    dictionary: lindera::dictionary::Dictionary,
) -> lindera::tokenizer::Tokenizer;

/// `lindera::segmenter::Segmenter::new` makes a segmenter in its normal mode and without
/// a dictionary of the user, and `lindera::tokenizer::Tokenizer::new` adds no filters to
/// it. The dictionary alone decides what comes of it.
#[verifier::external_body]
fn new_tokenizer(dictionary: lindera::dictionary::Dictionary) -> (r: lindera::tokenizer::Tokenizer)
    ensures
        r == segmenter_for(dictionary),
{
    let mode = lindera::mode::Mode::Normal;
    let segmenter = lindera::segmenter::Segmenter::new(mode, dictionary, None);
    lindera::tokenizer::Tokenizer::new(segmenter)
}

/// Whether a segmenter is that of a dictionary whose parts belong together, and nothing
/// else: it has no filters.
pub open spec fn is_plain(tokenizer: lindera::tokenizer::Tokenizer) -> bool {
    exists|d: lindera::dictionary::Dictionary|
        is_coherent(d) && tokenizer == #[trigger] segmenter_for(d)
}

/// A sentence of so many bytes is too long to be segmented: places in a sentence are
/// numbers of 32 bits.
pub const SENTENCE_LIMIT: u64 = 0x1_0000_0000;

/// Whether a character is the last of a sentence: a line feed, a tab, or an ideographic
/// full stop or comma.
pub open spec fn ends_sentence(c: char) -> bool {
    c == '\n' || c == '\t' || c == '\u{3002}' || c == '\u{3001}'
}

/// The number of bytes of a character in UTF-8.
pub open spec fn byte_len(c: char) -> int {
    let u = c as int;
    if u < 0x80 {
        1
    } else if u < 0x800 {
        2
    } else if u < 0x1_0000 {
        3
    } else {
        4
    }
}

/// The number of bytes of the sentence with the last character of a text, up to that
/// character.
pub open spec fn sentence_len(s: Seq<char>) -> int
    decreases s.len(),
{
    if s.len() == 0 {
        0
    } else if s.len() >= 2 && ends_sentence(s[s.len() - 2]) {
        byte_len(s.last())
    } else {
        sentence_len(s.drop_last()) + byte_len(s.last())
    }
}

/// Whether every sentence of a text can be segmented.
pub open spec fn sentences_fit(s: Seq<char>) -> bool {
    forall|n: int| 0 <= n <= s.len() ==> sentence_len(#[trigger] s.take(n)) < SENTENCE_LIMIT
}

fn count_bytes(c: char) -> (n: u64)
    ensures
        n == byte_len(c),
{
    let u: u32 = c as u32;
    if u < 0x80 {
        1
    } else if u < 0x800 {
        2
    } else if u < 0x1_0000 {
        3
    } else {
        4
    }
}

/// Finds whether every sentence of a text can be segmented.
fn check_sentences(text: &str) -> (r: bool)
    ensures
        r == sentences_fit(text@),
{
    let v: Vec<char> = to_chars(text);
    let mut len: u64 = 0;
    assert(v@.take(0) =~= Seq::empty());
    for i in 0..v.len()
        invariant
            v@ == text@,
            len == sentence_len(text@.take(i as int)),
            len < SENTENCE_LIMIT,
            forall|n: int|
                0 <= n <= i ==> sentence_len(#[trigger] text@.take(n)) < SENTENCE_LIMIT,
    {
        let c: char = v[i];
        let bytes: u64 = count_bytes(c);
        let ends: bool = i > 0 && (v[i - 1] == '\n' || v[i - 1] == '\t' || v[i - 1] == '\u{3002}'
            || v[i - 1] == '\u{3001}');
        proof {
            let longer = text@.take(i + 1);
            assert(longer.drop_last() =~= text@.take(i as int));
            assert(longer.last() == c);
            assert(i > 0 ==> longer[i - 1] == v@[i - 1]);
            assert(longer.len() == i + 1);
            assert(ends == (longer.len() >= 2 && ends_sentence(longer[longer.len() - 2])));
        }
        len = if ends {
            bytes
        } else {
            len + bytes
        };
        assert(len == sentence_len(text@.take(i + 1)));
        if len >= SENTENCE_LIMIT {
            return false;
        }
    }
    true
}

/// The surface forms into which a segmenter splits a text, or nothing where it
/// fails.
pub uninterp spec fn surface_forms(
    tokenizer: lindera::tokenizer::Tokenizer,
    text: Seq<char>,
) -> Option<Seq<Seq<char>>>;

/// `lindera::tokenizer::Tokenizer::tokenize` gives the tokens that segmenter and text
/// decide, where no filters have a say; what is kept of a token is its surface form. It
/// stops with a panic where the parts of the dictionary do not belong together, or where
/// it can no longer count the places of a sentence.
#[verifier::external_body]
fn tokenize_surfaces(tokenizer: &lindera::tokenizer::Tokenizer, text: &str) -> (r: Result<
    Vec<String>,
    lindera::error::LinderaError,
>)
    requires
        is_plain(*tokenizer),
        sentences_fit(text@),
    ensures
        match r {
            Ok(v) => surface_forms(*tokenizer, text@) == Some(texts(v@)),
            Err(_) => surface_forms(*tokenizer, text@) is None,
        },
{
    let tokens = tokenizer.tokenize(text)?;
    Ok(tokens.into_iter().map(|token| token.surface.into_owned()).collect())
}

/// The segmenter of Japanese text.
pub struct JapaneseTokenizer {
    tokenizer: lindera::tokenizer::Tokenizer,
}

impl JapaneseTokenizer {
    /// The segmenter itself.
    pub closed spec fn segmenter(self) -> lindera::tokenizer::Tokenizer {
        self.tokenizer
    }

    #[verifier::type_invariant]
    spec fn well_formed(self) -> bool {
        is_plain(self.tokenizer)
    }

    /// The segmenter for a dictionary.
    pub fn new(dictionary: lindera::dictionary::Dictionary) -> (r: Self)
        requires
            is_coherent(dictionary),
        ensures
            r.segmenter() == segmenter_for(dictionary),
    {
        JapaneseTokenizer { tokenizer: new_tokenizer(dictionary) }
    }
}

/// Why a transcript could not be split.
#[derive(Debug, Clone, Copy, PartialEq, Eq, Structural)]
pub enum TextError {
    /// The Japanese dictionary could not be loaded.
    DictionaryUnavailable,
    /// The Japanese segmenter failed.
    SegmentationFailed,
    /// A sentence is too long for the Japanese segmenter.
    SentenceTooLong,
}

/// Characters that belong to words: letters, digits and the apostrophe.
pub open spec fn is_kept(c: char) -> bool {
    c == '\'' || is_alphanumeric(c)
}

fn is_kept_char(ch: char) -> (r: bool)
    ensures
        r == is_kept(ch),
{
    ch == '\'' || ch.is_alphanumeric()
}

/// Characters of the CJK unified ideograph blocks.
pub open spec fn is_cjk(c: char) -> bool {
    let u = c as int;
    ||| 0x4e00 <= u <= 0x9fff
    ||| 0x3400 <= u <= 0x4dbf
    ||| 0x20000 <= u <= 0x2a6df
    ||| 0x2a700 <= u <= 0x2b73f
    ||| 0x2b740 <= u <= 0x2b81f
    ||| 0x2b820 <= u <= 0x2ceaf
    ||| 0xf900 <= u <= 0xfaff
}

/// Whether a character is an ideograph that forms a word of its own.
pub fn is_cjk_char(ch: char) -> (r: bool)
    ensures
        r == is_cjk(ch),
        r <==> 0x3400 <= ch as int <= 0x4dbf || 0x4e00 <= ch as int <= 0x9fff || 0xf900
            <= ch as int <= 0xfaff || 0x20000 <= ch as int <= 0x2a6df || 0x2a700 <= ch as int
            <= 0x2ceaf,
{
    let code: u32 = ch as u32;
    (0x4e00 <= code && code <= 0x9fff) || (0x3400 <= code && code <= 0x4dbf) || (0x20000 <= code
        && code <= 0x2a6df) || (0x2a700 <= code && code <= 0x2b73f) || (0x2b740 <= code && code
        <= 0x2b81f) || (0x2b820 <= code && code <= 0x2ceaf) || (0xf900 <= code && code <= 0xfaff)
}

/// The characters at the marked places.
pub open spec fn marked(s: Seq<char>, marks: Seq<bool>) -> Seq<char>
    decreases s.len(),
{
    if s.len() == 0 || marks.len() != s.len() {
        Seq::empty()
    } else {
        let rest = marked(s.drop_last(), marks.drop_last());
        if marks.last() {
            rest.push(s.last())
        } else {
            rest
        }
    }
}

/// Keeps the characters at the marked places.
pub fn keep_marked(s: &str, marks: &[bool]) -> (r: String)
    requires
        marks@.len() == s@.len(),
    ensures
        r@ == marked(s@, marks@),
{
    let v: Vec<char> = to_chars(s);
    let n: usize = v.len();
    let mut r: String = String::new();
    for i in 0..n
        invariant
            v@ == s@,
            n == v@.len() == marks@.len(),
            r@ == marked(s@.take(i as int), marks@.take(i as int)),
    {
        proof {
            let (a, b) = (s@.take(i + 1), marks@.take(i + 1));
            assert(a.drop_last() =~= s@.take(i as int));
            assert(b.drop_last() =~= marks@.take(i as int));
        }
        if marks[i] {
            r.push(v[i]);
        }
    }
    assert(s@.take(n as int) =~= s@);
    assert(marks@.take(n as int) =~= marks@);
    r
}

/// The characters of a token that belong to a word.
pub open spec fn cleaned(s: Seq<char>) -> Seq<char> {
    s.filter(|c: char| is_kept(c))
}

/// What is left of a token are its letters, digits and apostrophes.
pub proof fn lemma_kept_characters(s: Seq<char>)
    ensures
        cleaned(s) == s.filter(|c: char| c == '\'' || is_alphanumeric(c)),
    decreases s.len(),
{
    reveal(Seq::filter);
    if s.len() > 0 {
        lemma_kept_characters(s.drop_last());
    }
}

/// The kept characters are those at the places of kept characters.
proof fn lemma_marked_is_filter(s: Seq<char>, marks: Seq<bool>)
    requires
        marks.len() == s.len(),
        forall|i: int| 0 <= i < s.len() ==> #[trigger] marks[i] == is_kept(s[i]),
    ensures
        marked(s, marks) == cleaned(s),
    decreases s.len(),
{
    reveal(Seq::filter);
    if s.len() > 0 {
        let (t, m) = (s.drop_last(), marks.drop_last());
        assert forall|i: int| 0 <= i < t.len() implies #[trigger] m[i] == is_kept(t[i]) by {
            assert(marks[i] == is_kept(s[i]));
        }
        lemma_marked_is_filter(t, m);
        assert(marks[s.len() - 1] == is_kept(s[s.len() - 1]));
    }
}

/// Removes what does not belong to a word.
pub fn clean_token(token: &str) -> (r: String)
    ensures
        r@ == cleaned(token@),
        r@ == token@.filter(|c: char| c == '\'' || is_alphanumeric(c)),
{
    let v: Vec<char> = to_chars(token);
    let n: usize = v.len();
    let mut marks: Vec<bool> = Vec::with_capacity(n);
    for i in 0..n
        invariant
            n == v@.len(),
            marks@.len() == i,
            forall|k: int| 0 <= k < i ==> #[trigger] marks@[k] == is_kept(v@[k]),
    {
        marks.push(is_kept_char(v[i]));
    }
    proof {
        lemma_marked_is_filter(token@, marks@);
        lemma_kept_characters(token@);
    }
    keep_marked(token, &marks)
}

/// The number of characters before the first ideograph.
pub open spec fn plain_len(s: Seq<char>) -> nat
    decreases s.len(),
{
    if s.len() == 0 || is_cjk(s[0]) {
        0
    } else {
        1 + plain_len(s.skip(1))
    }
}

/// A run without ideographs ends within the text, and is not empty unless it
/// starts with one.
pub proof fn lemma_plain_len(s: Seq<char>)
    ensures
        plain_len(s) <= s.len(),
        s.len() > 0 && !is_cjk(s[0]) ==> plain_len(s) > 0,
    decreases s.len(),
{
    if s.len() > 0 && !is_cjk(s[0]) {
        lemma_plain_len(s.skip(1));
    }
}

/// A segment split into single ideographs and the runs between them.
pub open spec fn ideograph_split(s: Seq<char>) -> Seq<Seq<char>>
    decreases s.len(),
{
    if s.len() == 0 {
        Seq::empty()
    } else if is_cjk(s[0]) {
        seq![s.take(1)] + ideograph_split(s.skip(1))
    } else {
        let n = plain_len(s) as int;
        proof {
            lemma_plain_len(s);
        }
        seq![s.take(n)] + ideograph_split(s.skip(n))
    }
}

/// Splits a segment into single ideographs and the runs between them.
pub fn split_segment_with_chinese(seg: &str) -> (tokens: Vec<String>)
    ensures
        texts(tokens@) == ideograph_split(seg@),
{
    let v: Vec<char> = to_chars(seg);
    let n: usize = v.len();
    let mut tokens: Vec<String> = Vec::new();
    let mut i: usize = 0;
    proof {
        assert(v@.skip(0) =~= v@);
        assert(texts(tokens@) =~= Seq::empty());
        assert(Seq::<Seq<char>>::empty() + ideograph_split(v@) =~= ideograph_split(v@));
    }
    while i < n
        invariant
            i <= n == v@.len(),
            texts(tokens@) + ideograph_split(v@.skip(i as int)) == ideograph_split(v@),
        decreases n - i,
    {
        let ghost rest = v@.skip(i as int);
        proof {
            lemma_plain_len(rest);
        }
        let mut end: usize = i + 1;
        if !is_cjk_char(v[i]) {
            assert(rest.skip(1) =~= v@.skip(i + 1));
            while end < n && !is_cjk_char(v[end])
                invariant
                    i < end <= n == v@.len(),
                    plain_len(v@.skip(i as int)) == end - i + plain_len(v@.skip(end as int)),
                decreases n - end,
            {
                assert(v@.skip(end as int).skip(1) =~= v@.skip(end + 1));
                end = end + 1;
            }
            assert(plain_len(v@.skip(end as int)) == 0);
        }
        let token: String = from_chars(&v, i, end);
        proof {
            let k = end - i;
            assert(rest.take(k) =~= v@.subrange(i as int, end as int));
            assert(rest.skip(k) =~= v@.skip(end as int));
            lemma_texts_push(tokens@, token);
            let tail = ideograph_split(v@.skip(end as int));
            assert(texts(tokens@).push(token@) + tail =~= texts(tokens@) + (seq![token@] + tail));
        }
        tokens.push(token);
        i = end;
    }
    assert(ideograph_split(v@.skip(n as int)) =~= Seq::empty());
    assert(texts(tokens@) + Seq::<Seq<char>>::empty() =~= texts(tokens@));
    tokens
}

/// The words of one segment of a language that separates words by spaces.
pub open spec fn spaced_segment_words(seg: Seq<char>) -> Seq<Seq<char>> {
    ideograph_split(cleaned(seg))
}

/// The words of a text of a language that separates words by spaces.
pub open spec fn spaced_words(text: Seq<char>) -> Seq<Seq<char>> {
    words_of(text).map_values(|seg: Seq<char>| spaced_segment_words(seg)).flatten()
}

/// Splits a text of a language that separates words by spaces.
pub fn tokenize_space_lang(text: &str) -> (tokens: Vec<String>)
    ensures
        texts(tokens@) == spaced_words(text@),
{
    let segments: Vec<String> = split_whitespace(text);
    let n: usize = segments.len();
    let mut tokens: Vec<String> = Vec::new();
    let ghost parts = words_of(text@).map_values(|seg: Seq<char>| spaced_segment_words(seg));
    proof {
        assert(texts(tokens@) =~= Seq::empty());
        assert(parts.take(0) =~= Seq::empty());
        reveal(Seq::flatten);
        assert(parts.take(0).flatten() =~= Seq::empty());
    }
    for i in 0..n
        invariant
            n == segments@.len(),
            texts(segments@) == words_of(text@),
            parts == words_of(text@).map_values(|seg: Seq<char>| spaced_segment_words(seg)),
            texts(tokens@) == parts.take(i as int).flatten(),
    {
        let token: String = clean_token(segments[i].as_str());
        let mut split: Vec<String> = split_segment_with_chinese(token.as_str());
        proof {
            assert(texts(segments@)[i as int] == segments@[i as int]@);
            assert(parts[i as int] == texts(split@));
            lemma_texts_add(tokens@, split@);
            lemma_flatten_take(parts, i as int);
        }
        tokens.append(&mut split);
    }
    assert(parts.take(n as int) =~= parts);
    tokens
}

/// Flattening one more part appends it.
pub proof fn lemma_flatten_take<A>(parts: Seq<Seq<A>>, i: int)
    requires
        0 <= i < parts.len(),
    ensures
        parts.take(i + 1).flatten() == parts.take(i).flatten() + parts[i],
{
    let longer = parts.take(i + 1);
    assert(longer.drop_last() =~= parts.take(i));
    assert(longer.last() == parts[i]);
    longer.lemma_flatten_and_flatten_alt_are_equivalent();
    parts.take(i).lemma_flatten_and_flatten_alt_are_equivalent();
}

/// The first word of every line of a dictionary.
pub open spec fn dictionary_words(dict: Seq<char>) -> Set<Seq<char>> {
    Set::new(
        |w: Seq<char>|
            exists|i: int|
                0 <= i < lines_of(dict).len() && words_of(#[trigger] lines_of(dict)[i]).len() > 0
                    && words_of(lines_of(dict)[i])[0] == w,
    )
}

/// Reads a Korean dictionary: the first word of every line is an entry.
pub fn korean_scores(dict: &str) -> (scores: StringHashSet)
    ensures
        scores@ == dictionary_words(dict@),
{
    let entries: Vec<String> = lines(dict);
    let n: usize = entries.len();
    let mut scores: StringHashSet = StringHashSet::new();
    let ghost ls = lines_of(dict@);
    for i in 0..n
        invariant
            n == entries@.len(),
            ls == lines_of(dict@),
            texts(entries@) == ls,
            forall|w: Seq<char>| #[trigger]
                scores@.contains(w) <==> exists|k: int|
                    0 <= k < i && words_of(#[trigger] ls[k]).len() > 0 && words_of(ls[k])[0] == w,
    {
        let ghost before = scores@;
        assert(texts(entries@)[i as int] == entries@[i as int]@);
        let words: Vec<String> = split_whitespace(entries[i].as_str());
        if words.len() > 0 {
            let word: String = words[0].clone();
            assert(texts(words@)[0] == words@[0]@);
            scores.insert(word);
        }
        proof {
            assert(texts(words@).len() == words@.len());
            assert forall|w: Seq<char>| #[trigger] scores@.contains(w) <==> exists|k: int|
                0 <= k < i + 1 && words_of(#[trigger] ls[k]).len() > 0 && words_of(ls[k])[0]
                    == w by {
                if scores@.contains(w) && !before.contains(w) {
                    assert(words_of(ls[i as int])[0] == w);
                }
                if exists|k: int|
                    0 <= k < i + 1 && words_of(#[trigger] ls[k]).len() > 0 && words_of(ls[k])[0]
                        == w {
                    let k = choose|k: int|
                        0 <= k < i + 1 && words_of(#[trigger] ls[k]).len() > 0 && words_of(
                            ls[k],
                        )[0] == w;
                    if k < i {
                        assert(before.contains(w));
                    }
                }
            }
        }
    }
    assert(scores@ =~= dictionary_words(dict@));
    scores
}

/// Where a Korean token is split into its left and right part: after the longest
/// prefix of at least two characters that the dictionary holds, or at its end.
pub open spec fn korean_split(token: Seq<char>, dict: Set<Seq<char>>, end: int) -> int
    decreases end,
{
    if end < 2 {
        token.len() as int
    } else if dict.contains(token.take(end)) {
        end
    } else {
        korean_split(token, dict, end - 1)
    }
}

proof fn lemma_korean_split(token: Seq<char>, dict: Set<Seq<char>>, end: int)
    requires
        end <= token.len(),
    ensures
        0 <= korean_split(token, dict, end) <= token.len(),
    decreases end,
{
    if end >= 2 && !dict.contains(token.take(end)) {
        lemma_korean_split(token, dict, end - 1);
    }
}

/// The left part of a token ends after its longest start that is in the dictionary:
/// where something is left on the right, the left part is in the dictionary, has at
/// least two characters, and no longer start of the token is in the dictionary; where
/// nothing is left, the whole token is in the dictionary, or no start of at least two
/// characters is.
pub proof fn lemma_left_part_is_longest(token: Seq<char>, dict: Set<Seq<char>>)
    ensures
        ({
            let at = korean_split(token, dict, token.len() as int);
            &&& 0 <= at <= token.len()
            &&& at < token.len() ==> at >= 2 && dict.contains(token.take(at)) && forall|n: int|
                at < n <= token.len() ==> !dict.contains(#[trigger] token.take(n))
            &&& at == token.len() ==> dict.contains(token) || forall|n: int|
                2 <= n <= token.len() ==> !dict.contains(#[trigger] token.take(n))
        }),
{
    lemma_korean_split(token, dict, token.len() as int);
    lemma_longest_start(token, dict, token.len() as int);
    assert(token.take(token.len() as int) =~= token);
}

proof fn lemma_longest_start(token: Seq<char>, dict: Set<Seq<char>>, end: int)
    requires
        end <= token.len(),
    ensures
        ({
            let at = korean_split(token, dict, end);
            ||| 2 <= at <= end && dict.contains(token.take(at)) && forall|n: int|
                at < n <= end ==> !dict.contains(#[trigger] token.take(n))
            ||| at == token.len() && forall|n: int|
                2 <= n <= end ==> !dict.contains(#[trigger] token.take(n))
        }),
    decreases end,
{
    if end >= 2 && !dict.contains(token.take(end)) {
        lemma_longest_start(token, dict, end - 1);
    }
}

/// Splits a Korean token into its left and right part.
pub fn split_korean_lr(token: &str, scores: &StringHashSet) -> (parts: (String, String))
    ensures
        parts.0@ + parts.1@ == token@,
        parts.1@.len() > 0 ==> parts.0@.len() >= 2 && scores@.contains(parts.0@) && forall|n: int|
            parts.0@.len() < n <= token@.len() ==> !scores@.contains(#[trigger] token@.take(n)),
        parts.1@.len() == 0 ==> scores@.contains(token@) || forall|n: int|
            2 <= n <= token@.len() ==> !scores@.contains(#[trigger] token@.take(n)),
        ({
            let at = korean_split(token@, scores@, token@.len() as int);
            parts.0@ == token@.take(at) && parts.1@ == token@.skip(at)
        }),
{
    let chars: Vec<char> = to_chars(token);
    let n: usize = chars.len();
    let ghost at = korean_split(token@, scores@, n as int);
    let mut end: usize = n;
    if n > 2 {
        while end >= 2 && !scores.contains(from_chars(&chars, 0, end).as_str())
            invariant
                chars@ == token@,
                end <= n == chars@.len(),
                at == korean_split(token@, scores@, end as int),
            decreases end,
        {
            assert(token@.subrange(0, end as int) =~= token@.take(end as int));
            end = end - 1;
        }
        assert(end >= 2 ==> token@.subrange(0, end as int) =~= token@.take(end as int));
        if end < 2 {
            end = n;
        }
    } else {
        // Both outcomes leave a token of two characters whole.
        proof {
            reveal_with_fuel(korean_split, 3);
        }
    }
    proof {
        lemma_korean_split(token@, scores@, n as int);
        lemma_left_part_is_longest(token@, scores@);
        assert(token@.take(at) + token@.skip(at) =~= token@);
        assert(token@.take(at) =~= token@.subrange(0, end as int));
        assert(token@.skip(at) =~= token@.subrange(end as int, n as int));
    }
    (from_chars(&chars, 0, end), from_chars(&chars, end, n))
}

/// A list of one text, or of none where the text is empty.
pub open spec fn unless_empty(s: Seq<char>) -> Seq<Seq<char>> {
    if s.len() == 0 {
        Seq::empty()
    } else {
        seq![s]
    }
}

/// The words of one Korean token.
pub open spec fn korean_token_words(token: Seq<char>, dict: Set<Seq<char>>) -> Seq<Seq<char>> {
    let at = korean_split(token, dict, token.len() as int);
    unless_empty(cleaned(token.take(at))) + unless_empty(cleaned(token.skip(at)))
}

/// The words of a Korean text.
pub open spec fn korean_words(text: Seq<char>, dict: Set<Seq<char>>) -> Seq<Seq<char>> {
    words_of(text).map_values(|token: Seq<char>| korean_token_words(token, dict)).flatten()
}

/// Cleans a text and appends it to a list, unless nothing is left of it.
fn push_cleaned(tokens: &mut Vec<String>, part: &str)
    ensures
        texts(final(tokens)@) == texts(old(tokens)@) + unless_empty(cleaned(part@)),
{
    let token: String = clean_token(part);
    let empty: bool = same_text(token.as_str(), "");
    proof {
        reveal_strlit("");
        assert(empty <==> token@.len() == 0) by {
            assert(""@.len() == 0);
            if token@.len() == 0 {
                assert(token@ =~= ""@);
            }
        }
        lemma_texts_push(tokens@, token);
        assert(texts(tokens@) + seq![token@] =~= texts(tokens@).push(token@));
        assert(texts(tokens@) + Seq::<Seq<char>>::empty() =~= texts(tokens@));
    }
    if !empty {
        tokens.push(token);
    }
}

/// Splits a Korean text.
pub fn tokenize_korean(text: &str, scores: &StringHashSet) -> (tokens: Vec<String>)
    ensures
        texts(tokens@) == korean_words(text@, scores@),
{
    let words: Vec<String> = split_whitespace(text);
    let n: usize = words.len();
    let mut tokens: Vec<String> = Vec::new();
    let ghost parts = words_of(text@).map_values(
        |token: Seq<char>| korean_token_words(token, scores@),
    );
    proof {
        assert(texts(tokens@) =~= Seq::empty());
        assert(parts.take(0) =~= Seq::empty());
        reveal(Seq::flatten);
        assert(parts.take(0).flatten() =~= Seq::empty());
    }
    for i in 0..n
        invariant
            n == words@.len(),
            texts(words@) == words_of(text@),
            parts == words_of(text@).map_values(
                |token: Seq<char>| korean_token_words(token, scores@),
            ),
            texts(tokens@) == parts.take(i as int).flatten(),
    {
        let ghost before = texts(tokens@);
        assert(texts(words@)[i as int] == words@[i as int]@);
        let (left, right): (String, String) = split_korean_lr(words[i].as_str(), scores);
        push_cleaned(&mut tokens, left.as_str());
        push_cleaned(&mut tokens, right.as_str());
        proof {
            lemma_flatten_take(parts, i as int);
            assert(texts(tokens@) =~= before + parts[i as int]);
        }
    }
    assert(parts.take(n as int) =~= parts);
    tokens
}

/// The words among the surface forms of a segmented text.
pub open spec fn surface_words(forms: Seq<Seq<char>>) -> Seq<Seq<char>> {
    forms.map_values(|form: Seq<char>| unless_empty(cleaned(form))).flatten()
}

/// Cleans surface forms, and leaves out those of which nothing is left.
pub fn clean_surfaces(forms: &[String]) -> (words: Vec<String>)
    ensures
        texts(words@) == surface_words(texts(forms@)),
{
    let n: usize = forms.len();
    let mut words: Vec<String> = Vec::new();
    let ghost parts = texts(forms@).map_values(|form: Seq<char>| unless_empty(cleaned(form)));
    proof {
        assert(texts(words@) =~= Seq::empty());
        assert(parts.take(0) =~= Seq::empty());
        reveal(Seq::flatten);
        assert(parts.take(0).flatten() =~= Seq::empty());
    }
    for i in 0..n
        invariant
            n == forms@.len(),
            parts == texts(forms@).map_values(|form: Seq<char>| unless_empty(cleaned(form))),
            texts(words@) == parts.take(i as int).flatten(),
    {
        assert(texts(forms@)[i as int] == forms@[i as int]@);
        push_cleaned(&mut words, forms[i].as_str());
        proof {
            lemma_flatten_take(parts, i as int);
        }
    }
    assert(parts.take(n as int) =~= parts);
    words
}

/// The segmenter of Japanese text, from what came of loading the dictionary.
pub fn japanese_tokenizer_from(
    found: Result<lindera::dictionary::Dictionary, lindera::error::LinderaError>,
) -> (r: Result<JapaneseTokenizer, TextError>)
    requires
        found matches Ok(dictionary) ==> is_coherent(dictionary),
    ensures
        match found {
            Ok(dictionary) => r matches Ok(t) && t.segmenter() == segmenter_for(dictionary),
            Err(_) => r matches Err(e) && e == TextError::DictionaryUnavailable,
        },
{
    match found {
        Ok(dictionary) => Ok(JapaneseTokenizer::new(dictionary)),
        Err(_) => Err(TextError::DictionaryUnavailable),
    }
}

/// Makes the segmenter of Japanese text from the dictionary that is built in, if there
/// is one.
pub fn load_japanese_tokenizer() -> (r: Result<JapaneseTokenizer, TextError>)
    ensures
        match r {
            Ok(t) => is_plain(t.segmenter()),
            Err(e) => e == TextError::DictionaryUnavailable,
        },
{
    japanese_tokenizer_from(load_dictionary(japanese_dictionary_uri()))
}

/// The words of a Japanese text, or why it could not be split.
pub open spec fn japanese_words(text: Seq<char>, tokenizer: JapaneseTokenizer) -> Result<
    Seq<Seq<char>>,
    TextError,
> {
    if !sentences_fit(text) {
        Err(TextError::SentenceTooLong)
    } else {
        match surface_forms(tokenizer.segmenter(), text) {
            Some(forms) => Ok(surface_words(forms)),
            None => Err(TextError::SegmentationFailed),
        }
    }
}

/// Splits a Japanese text.
pub fn tokenize_japanese(text: &str, tokenizer: &JapaneseTokenizer) -> (r: Result<
    Vec<String>,
    TextError,
>)
    ensures
        match r {
            Ok(words) => japanese_words(text@, *tokenizer) == Ok::<_, TextError>(texts(words@)),
            Err(e) => japanese_words(text@, *tokenizer) == Err::<Seq<Seq<char>>, _>(e),
        },
{
    proof {
        use_type_invariant(tokenizer);
    }
    if !check_sentences(text) {
        return Err(TextError::SentenceTooLong);
    }
    match tokenize_surfaces(&tokenizer.tokenizer, text) {
        Ok(forms) => Ok(clean_surfaces(&forms)),
        Err(_) => Err(TextError::SegmentationFailed),
    }
}

/// How the words of a language are told apart.
#[derive(Debug, Clone, Copy, PartialEq, Eq, Structural)]
pub enum Splitting {
    Japanese,
    Korean,
    Spaces,
}

/// The splitting for a language name in lower case.
pub open spec fn splitting_of(name: Seq<char>) -> Splitting {
    if name == "japanese"@ {
        Splitting::Japanese
    } else if name == "korean"@ {
        Splitting::Korean
    } else {
        Splitting::Spaces
    }
}

/// Japanese and Korean have splittings of their own, and every other language is split at
/// spaces.
pub proof fn lemma_languages(name: Seq<char>)
    ensures
        splitting_of(name) == Splitting::Japanese <==> name == "japanese"@,
        splitting_of(name) == Splitting::Korean <==> name == "korean"@,
        splitting_of(name) == Splitting::Spaces <==> name != "japanese"@ && name != "korean"@,
{
    reveal_strlit("japanese");
    reveal_strlit("korean");
    assert("japanese"@.len() == 8 && "korean"@.len() == 6);
}

/// The splitting for a language name in lower case.
pub fn splitting(name: &str) -> (r: Splitting)
    ensures
        r == splitting_of(name@),
        r == Splitting::Japanese <==> name@ == "japanese"@,
        r == Splitting::Korean <==> name@ == "korean"@,
{
    proof {
        lemma_languages(name@);
    }
    if same_text(name, "japanese") {
        Splitting::Japanese
    } else if same_text(name, "korean") {
        Splitting::Korean
    } else {
        Splitting::Spaces
    }
}

/// What splitting a transcript needs besides the transcript.
pub struct TextResources {
    /// The entries of the Korean dictionary.
    pub korean: StringHashSet,
    /// The segmenter of Japanese text, where its dictionary could be loaded.
    pub japanese: Option<JapaneseTokenizer>,
}

/// The words of a text, or why it could not be split.
pub open spec fn words_in(text: Seq<char>, how: Splitting, resources: TextResources) -> Result<
    Seq<Seq<char>>,
    TextError,
> {
    match how {
        Splitting::Japanese => match resources.japanese {
            Some(tokenizer) => japanese_words(text, tokenizer),
            None => Err(TextError::DictionaryUnavailable),
        },
        Splitting::Korean => Ok(korean_words(text, resources.korean@)),
        Splitting::Spaces => Ok(spaced_words(text)),
    }
}

/// The input of the aligner for a list of words: a place for the audio, then
/// every word with a place for its start and one for its end.
pub open spec fn aligner_input(words: Seq<Seq<char>>) -> Seq<char>
    decreases words.len(),
{
    if words.len() == 0 {
        "<|audio_start|><|audio_pad|><|audio_end|>"@
    } else {
        aligner_input(words.drop_last()) + words.last() + "<timestamp><timestamp>"@
    }
}

/// Builds the input of the aligner for a list of words.
pub fn build_aligner_input(words: &[String]) -> (input: String)
    ensures
        input@ == aligner_input(texts(words@)),
{
    let mut input: String = "<|audio_start|><|audio_pad|><|audio_end|>".to_string();
    let n: usize = words.len();
    let ghost all = texts(words@);
    for i in 0..n
        invariant
            n == words@.len(),
            all == texts(words@),
            input@ == aligner_input(all.take(i as int)),
    {
        proof {
            let longer = all.take(i + 1);
            assert(longer.drop_last() =~= all.take(i as int));
            assert(longer.last() == words@[i as int]@);
        }
        push_text(&mut input, words[i].as_str());
        push_text(&mut input, "<timestamp><timestamp>");
    }
    assert(all.take(n as int) =~= all);
    input
}

/// Splits a text in a known way, and builds the input of the aligner.
pub fn encode_words(text: &str, how: Splitting, resources: &TextResources) -> (r: Result<
    (Vec<String>, String),
    TextError,
>)
    ensures
        match r {
            Ok(found) => words_in(text@, how, *resources) == Ok::<_, TextError>(texts(found.0@))
                && found.1@ == aligner_input(texts(found.0@)),
            Err(e) => words_in(text@, how, *resources) == Err::<Seq<Seq<char>>, _>(e),
        },
{
    let words: Vec<String> = match how {
        Splitting::Japanese => match &resources.japanese {
            Some(tokenizer) => match tokenize_japanese(text, tokenizer) {
                Ok(words) => words,
                Err(e) => return Err(e),
            },
            None => return Err(TextError::DictionaryUnavailable),
        },
        Splitting::Korean => tokenize_korean(text, &resources.korean),
        Splitting::Spaces => tokenize_space_lang(text),
    };
    let input: String = build_aligner_input(&words);
    Ok((words, input))
}

/// The words of a transcript, and the input of the aligner for them.
///
/// The language decides how the transcript is split; its name may be in any case.
pub fn encode_timestamp(text: &str, language: &str, resources: &TextResources) -> (r: Result<
    (Vec<String>, String),
    TextError,
>)
    ensures
        ({
            let found = words_in(text@, splitting_of(lowercase(language@)), *resources);
            match r {
                Ok(out) => found == Ok::<_, TextError>(texts(out.0@)) && out.1@ == aligner_input(
                    texts(out.0@),
                ),
                Err(e) => found == Err::<Seq<Seq<char>>, _>(e),
            }
        }),
{
    let name: String = to_lowercase(language);
    encode_words(text, splitting(name.as_str()), resources)
}

/// The characters of a text that belong to words: those that are kept and are no
/// white space.
pub open spec fn word_characters(text: Seq<char>) -> Seq<char> {
    text.filter(|c: char| is_kept(c) && !is_whitespace(c))
}

proof fn lemma_filter_all(s: Seq<char>, p: spec_fn(char) -> bool)
    requires
        forall|i: int| 0 <= i < s.len() ==> p(#[trigger] s[i]),
    ensures
        s.filter(p) == s,
    decreases s.len(),
{
    reveal(Seq::filter);
    if s.len() > 0 {
        lemma_filter_all(s.drop_last(), p);
        assert(s.drop_last().push(s.last()) =~= s);
    }
}

proof fn lemma_filter_twice(s: Seq<char>)
    ensures
        cleaned(s.filter(|c: char| !is_whitespace(c))) == word_characters(s),
    decreases s.len(),
{
    reveal(Seq::filter);
    if s.len() > 0 {
        let p = |c: char| !is_whitespace(c);
        let q = |c: char| is_kept(c);
        lemma_filter_twice(s.drop_last());
        let t = s.drop_last().filter(p);
        if p(s.last()) {
            assert(t.push(s.last()).drop_last() =~= t);
        }
    }
}

proof fn lemma_word_has_no_space(s: Seq<char>)
    ensures
        forall|i: int| 0 <= i < word_len(s) ==> !is_whitespace(#[trigger] s[i]),
    decreases s.len(),
{
    lemma_word_len(s);
    if s.len() > 0 && !is_whitespace(s[0]) {
        lemma_word_has_no_space(s.skip(1));
        assert forall|i: int| 0 <= i < word_len(s) implies !is_whitespace(#[trigger] s[i]) by {
            if i > 0 {
                assert(s.skip(1)[i - 1] == s[i]);
            }
        }
    }
}

/// Splitting at white space loses the white space and nothing else.
proof fn lemma_words_keep_text(s: Seq<char>)
    ensures
        words_of(s).flatten() == s.filter(|c: char| !is_whitespace(c)),
    decreases s.len(),
{
    let p = |c: char| !is_whitespace(c);
    if s.len() == 0 {
        reveal(Seq::filter);
    } else if is_whitespace(s[0]) {
        lemma_words_keep_text(s.skip(1));
        assert(s =~= seq![s[0]] + s.skip(1));
        Seq::filter_distributes_over_add(seq![s[0]], s.skip(1), p);
        reveal(Seq::filter);
        assert(seq![s[0]].drop_last() =~= Seq::empty());
        assert(seq![s[0]].drop_last().filter(p) =~= Seq::empty());
        assert(seq![s[0]].filter(p) =~= Seq::empty());
        assert(Seq::<char>::empty() + s.skip(1).filter(p) =~= s.skip(1).filter(p));
    } else {
        let n = word_len(s) as int;
        lemma_word_len(s);
        lemma_word_has_no_space(s);
        let (a, b) = (s.take(n), s.skip(n));
        lemma_words_keep_text(b);
        assert(s =~= a + b);
        Seq::filter_distributes_over_add(a, b, p);
        lemma_filter_all(a, p);
        let w = words_of(s);
        assert(w.drop_first() =~= words_of(b));
        assert(w.flatten() == a + w.drop_first().flatten());
    }
}

/// The pieces of a split segment make up the segment.
proof fn lemma_split_keeps_text(s: Seq<char>)
    ensures
        ideograph_split(s).flatten() == s,
    decreases s.len(),
{
    if s.len() > 0 {
        lemma_plain_len(s);
        let n = if is_cjk(s[0]) {
            1
        } else {
            plain_len(s) as int
        };
        lemma_split_keeps_text(s.skip(n));
        let w = ideograph_split(s);
        assert(w.drop_first() =~= ideograph_split(s.skip(n)));
        assert(s.take(n) + s.skip(n) =~= s);
    }
}

/// Where every token keeps its word characters, so does the whole.
proof fn lemma_tokens_keep_text(
    tokens: Seq<Seq<char>>,
    f: spec_fn(Seq<char>) -> Seq<Seq<char>>,
)
    requires
        forall|i: int|
            0 <= i < tokens.len() ==> f(#[trigger] tokens[i]).flatten() == cleaned(tokens[i]),
    ensures
        tokens.map_values(f).flatten().flatten() == cleaned(tokens.flatten()),
    decreases tokens.len(),
{
    let parts = tokens.map_values(f);
    if tokens.len() == 0 {
        reveal(Seq::filter);
    } else {
        let rest = tokens.drop_first();
        assert forall|i: int| 0 <= i < rest.len() implies f(#[trigger] rest[i]).flatten()
            == cleaned(rest[i]) by {
            assert(rest[i] == tokens[i + 1]);
        }
        lemma_tokens_keep_text(rest, f);
        assert(parts.drop_first() =~= rest.map_values(f));
        assert(parts[0] == f(tokens[0]));
        vstd::seq_lib::lemma_flatten_concat(parts[0], parts.drop_first().flatten());
        Seq::filter_distributes_over_add(tokens[0], rest.flatten(), |c: char| is_kept(c));
    }
}

/// Splitting a text at spaces loses no character of a word and changes no order.
pub proof fn lemma_spaced_words_keep_text(text: Seq<char>)
    ensures
        spaced_words(text).flatten() == word_characters(text),
{
    let f = |seg: Seq<char>| spaced_segment_words(seg);
    let tokens = words_of(text);
    assert forall|i: int| 0 <= i < tokens.len() implies f(#[trigger] tokens[i]).flatten()
        == cleaned(tokens[i]) by {
        lemma_split_keeps_text(cleaned(tokens[i]));
    }
    lemma_tokens_keep_text(tokens, f);
    lemma_words_keep_text(text);
    lemma_filter_twice(text);
}

proof fn lemma_unless_empty_flatten(s: Seq<char>)
    ensures
        unless_empty(s).flatten() == s,
{
    if s.len() == 0 {
        assert(s =~= Seq::empty());
    } else {
        let one = seq![s];
        assert(one.drop_first() =~= Seq::empty());
        assert(one.drop_first().flatten() =~= Seq::empty());
        assert(s + Seq::<char>::empty() =~= s);
    }
}

/// Splitting a Korean text loses no character of a word and changes no order.
pub proof fn lemma_korean_words_keep_text(text: Seq<char>, dict: Set<Seq<char>>)
    ensures
        korean_words(text, dict).flatten() == word_characters(text),
{
    let f = |token: Seq<char>| korean_token_words(token, dict);
    let tokens = words_of(text);
    assert forall|i: int| 0 <= i < tokens.len() implies f(#[trigger] tokens[i]).flatten()
        == cleaned(tokens[i]) by {
        let token = tokens[i];
        let at = korean_split(token, dict, token.len() as int);
        lemma_korean_split(token, dict, token.len() as int);
        let (a, b) = (token.take(at), token.skip(at));
        lemma_unless_empty_flatten(cleaned(a));
        lemma_unless_empty_flatten(cleaned(b));
        vstd::seq_lib::lemma_flatten_concat(unless_empty(cleaned(a)), unless_empty(cleaned(b)));
        assert(token =~= a + b);
        Seq::filter_distributes_over_add(a, b, |c: char| is_kept(c));
    }
    lemma_tokens_keep_text(tokens, f);
    lemma_words_keep_text(text);
    lemma_filter_twice(text);
}

/// A word is not empty and holds only characters that are kept.
pub open spec fn is_word(w: Seq<char>) -> bool {
    w.len() > 0 && forall|i: int| 0 <= i < w.len() ==> is_kept(#[trigger] w[i])
}

pub open spec fn all_words(ws: Seq<Seq<char>>) -> bool {
    forall|i: int| 0 <= i < ws.len() ==> is_word(#[trigger] ws[i])
}

proof fn lemma_flatten_all_words(parts: Seq<Seq<Seq<char>>>)
    requires
        forall|i: int| 0 <= i < parts.len() ==> all_words(#[trigger] parts[i]),
    ensures
        all_words(parts.flatten()),
    decreases parts.len(),
{
    if parts.len() > 0 {
        let rest = parts.drop_first();
        assert forall|i: int| 0 <= i < rest.len() implies all_words(#[trigger] rest[i]) by {
            assert(rest[i] == parts[i + 1]);
        }
        lemma_flatten_all_words(rest);
        let all = parts.flatten();
        let first = parts[0];
        assert forall|i: int| 0 <= i < all.len() implies is_word(#[trigger] all[i]) by {
            if i < first.len() {
                assert(all[i] == first[i]);
            } else {
                assert(all[i] == rest.flatten()[i - first.len()]);
            }
        }
    }
}

proof fn lemma_cleaned_is_kept(s: Seq<char>)
    ensures
        forall|i: int| 0 <= i < cleaned(s).len() ==> is_kept(#[trigger] cleaned(s)[i]),
{
    let p = |c: char| is_kept(c);
    assert forall|i: int| 0 <= i < cleaned(s).len() implies is_kept(#[trigger] cleaned(s)[i]) by {
        s.lemma_filter_pred(p, i);
    }
}

proof fn lemma_split_is_words(s: Seq<char>)
    requires
        forall|i: int| 0 <= i < s.len() ==> is_kept(#[trigger] s[i]),
    ensures
        all_words(ideograph_split(s)),
    decreases s.len(),
{
    if s.len() > 0 {
        lemma_plain_len(s);
        let n = if is_cjk(s[0]) {
            1
        } else {
            plain_len(s) as int
        };
        let rest = s.skip(n);
        assert forall|i: int| 0 <= i < rest.len() implies is_kept(#[trigger] rest[i]) by {
            assert(rest[i] == s[n + i]);
        }
        lemma_split_is_words(rest);
        let w = ideograph_split(s);
        let head = s.take(n);
        assert(is_word(head)) by {
            assert forall|i: int| 0 <= i < head.len() implies is_kept(#[trigger] head[i]) by {
                assert(head[i] == s[i]);
            }
        }
        assert forall|i: int| 0 <= i < w.len() implies is_word(#[trigger] w[i]) by {
            if i > 0 {
                assert(w[i] == ideograph_split(rest)[i - 1]);
            } else {
                assert(w[0] == head);
            }
        }
    }
}

/// Whatever the splitting, no word is empty and every character of a word is kept.
pub proof fn lemma_words_are_words(text: Seq<char>, how: Splitting, resources: TextResources)
    ensures
        words_in(text, how, resources) matches Ok(ws) ==> all_words(ws),
{
    match how {
        Splitting::Japanese => {
            if resources.japanese is Some {
                let found = surface_forms(resources.japanese->0.segmenter(), text);
                if found is Some {
                    let parts = found->0.map_values(
                        |form: Seq<char>| unless_empty(cleaned(form)),
                    );
                    assert forall|i: int| 0 <= i < parts.len() implies all_words(
                        #[trigger] parts[i],
                    ) by {
                        lemma_cleaned_is_kept(found->0[i]);
                    }
                    lemma_flatten_all_words(parts);
                }
            }
        },
        Splitting::Korean => {
            let dict = resources.korean@;
            let tokens = words_of(text);
            let parts = tokens.map_values(|token: Seq<char>| korean_token_words(token, dict));
            assert forall|i: int| 0 <= i < parts.len() implies all_words(#[trigger] parts[i]) by {
                let token = tokens[i];
                let at = korean_split(token, dict, token.len() as int);
                lemma_cleaned_is_kept(token.take(at));
                lemma_cleaned_is_kept(token.skip(at));
            }
            lemma_flatten_all_words(parts);
        },
        Splitting::Spaces => {
            let tokens = words_of(text);
            let parts = tokens.map_values(|seg: Seq<char>| spaced_segment_words(seg));
            assert forall|i: int| 0 <= i < parts.len() implies all_words(#[trigger] parts[i]) by {
                lemma_cleaned_is_kept(tokens[i]);
                lemma_split_is_words(cleaned(tokens[i]));
            }
            lemma_flatten_all_words(parts);
        },
    }
}

/// A word ends where white space follows.
proof fn lemma_word_ends_at_space(a: Seq<char>, c: char, b: Seq<char>)
    requires
        is_whitespace(c),
    ensures
        word_len(a + seq![c] + b) == word_len(a),
    decreases a.len(),
{
    let s = a + seq![c] + b;
    if a.len() == 0 {
        assert(s[0] == c);
    } else {
        assert(s[0] == a[0]);
        assert(s.skip(1) =~= a.skip(1) + seq![c] + b);
        lemma_word_ends_at_space(a.skip(1), c, b);
    }
}

/// White space separates words.
proof fn lemma_space_separates(a: Seq<char>, c: char, b: Seq<char>)
    requires
        is_whitespace(c),
    ensures
        words_of(a + seq![c] + b) == words_of(a) + words_of(b),
    decreases a.len(),
{
    let s = a + seq![c] + b;
    if a.len() == 0 {
        assert(s[0] == c);
        assert(s.skip(1) =~= b);
        assert(words_of(a) + words_of(b) =~= words_of(b));
    } else if is_whitespace(a[0]) {
        assert(s[0] == a[0]);
        assert(s.skip(1) =~= a.skip(1) + seq![c] + b);
        lemma_space_separates(a.skip(1), c, b);
    } else {
        assert(s[0] == a[0]);
        let n = word_len(a) as int;
        lemma_word_len(a);
        lemma_word_ends_at_space(a, c, b);
        assert(s.take(n) =~= a.take(n));
        assert(s.skip(n) =~= a.skip(n) + seq![c] + b);
        lemma_space_separates(a.skip(n), c, b);
        assert(words_of(s) =~= words_of(a) + words_of(b));
    }
}

/// Where two texts stand with a space between them, the words of the first come before
/// those of the second, and each text has the words that it has alone.
pub proof fn lemma_texts_split_apart(a: Seq<char>, b: Seq<char>, dict: Set<Seq<char>>)
    ensures
        spaced_words(a + " "@ + b) == spaced_words(a) + spaced_words(b),
        korean_words(a + " "@ + b, dict) == korean_words(a, dict) + korean_words(b, dict),
{
    reveal_strlit(" ");
    assert(" "@ =~= seq![' ']);
    lemma_space_separates(a, ' ', b);
    let (x, y) = (words_of(a), words_of(b));
    let f = |seg: Seq<char>| spaced_segment_words(seg);
    assert((x + y).map_values(f) =~= x.map_values(f) + y.map_values(f));
    vstd::seq_lib::lemma_flatten_concat(x.map_values(f), y.map_values(f));
    let g = |token: Seq<char>| korean_token_words(token, dict);
    assert((x + y).map_values(g) =~= x.map_values(g) + y.map_values(g));
    vstd::seq_lib::lemma_flatten_concat(x.map_values(g), y.map_values(g));
}

/// Words with a space between every two.
pub open spec fn joined_words(words: Seq<Seq<char>>) -> Seq<char>
    decreases words.len(),
{
    if words.len() == 0 {
        Seq::empty()
    } else if words.len() == 1 {
        words[0]
    } else {
        joined_words(words.drop_last()) + " "@ + words.last()
    }
}

/// Whether a text splits into itself at spaces: it is not empty, all of it belongs to
/// words, it has no white space, and an ideograph in it stands alone.
spec fn is_whole(w: Seq<char>) -> bool {
    &&& w.len() > 0
    &&& forall|i: int| 0 <= i < w.len() ==> is_kept(#[trigger] w[i]) && !is_whitespace(w[i])
    &&& w.len() == 1 || forall|i: int| 0 <= i < w.len() ==> !is_cjk(#[trigger] w[i])
}

proof fn lemma_no_space_is_one_word(s: Seq<char>)
    requires
        forall|i: int| 0 <= i < s.len() ==> !is_whitespace(#[trigger] s[i]),
    ensures
        word_len(s) == s.len(),
    decreases s.len(),
{
    if s.len() > 0 {
        let t = s.skip(1);
        assert forall|i: int| 0 <= i < t.len() implies !is_whitespace(#[trigger] t[i]) by {
            assert(t[i] == s[i + 1]);
        }
        lemma_no_space_is_one_word(t);
    }
}

proof fn lemma_no_ideograph_is_plain(s: Seq<char>)
    requires
        forall|i: int| 0 <= i < s.len() ==> !is_cjk(#[trigger] s[i]),
    ensures
        plain_len(s) == s.len(),
    decreases s.len(),
{
    if s.len() > 0 {
        let t = s.skip(1);
        assert forall|i: int| 0 <= i < t.len() implies !is_cjk(#[trigger] t[i]) by {
            assert(t[i] == s[i + 1]);
        }
        lemma_no_ideograph_is_plain(t);
    }
}

proof fn lemma_plain_has_no_ideograph(s: Seq<char>)
    ensures
        forall|i: int| 0 <= i < plain_len(s) ==> !is_cjk(#[trigger] s[i]),
    decreases s.len(),
{
    lemma_plain_len(s);
    if s.len() > 0 && !is_cjk(s[0]) {
        lemma_plain_has_no_ideograph(s.skip(1));
        assert forall|i: int| 0 <= i < plain_len(s) implies !is_cjk(#[trigger] s[i]) by {
            if i > 0 {
                assert(s.skip(1)[i - 1] == s[i]);
            }
        }
    }
}

proof fn lemma_whole_splits_into_itself(w: Seq<char>)
    requires
        is_whole(w),
    ensures
        spaced_words(w) == seq![w],
{
    lemma_no_space_is_one_word(w);
    lemma_filter_all(w, |c: char| is_kept(c));
    assert(w.take(w.len() as int) =~= w);
    assert(w.skip(w.len() as int) =~= Seq::empty());
    assert(!is_whitespace(w[0]));
    assert(words_of(Seq::<char>::empty()) =~= Seq::empty());
    assert(words_of(w) == seq![w.take(w.len() as int)] + words_of(w.skip(w.len() as int)));
    assert(words_of(w) =~= seq![w]);
    assert(w.take(1) =~= w || w.len() > 1);
    assert(w.len() == 1 ==> w.skip(1) =~= Seq::empty());
    if !is_cjk(w[0]) {
        assert(w.len() == 1 ==> forall|i: int| 0 <= i < w.len() ==> !is_cjk(#[trigger] w[i]));
        lemma_no_ideograph_is_plain(w);
    }
    assert(ideograph_split(Seq::<char>::empty()) =~= Seq::empty());
    assert(ideograph_split(w) =~= seq![w]);
    let parts = words_of(w).map_values(|seg: Seq<char>| spaced_segment_words(seg));
    assert(parts =~= seq![seq![w]]);
    assert(parts.drop_first() =~= Seq::empty());
    assert(parts.drop_first().flatten() =~= Seq::empty());
    assert(parts.flatten() =~= seq![w]);
}

proof fn lemma_filter_keeps(s: Seq<char>, p: spec_fn(char) -> bool)
    requires
        forall|i: int| 0 <= i < s.len() ==> !is_whitespace(#[trigger] s[i]),
    ensures
        forall|i: int| 0 <= i < s.filter(p).len() ==> !is_whitespace(#[trigger] s.filter(p)[i]),
    decreases s.len(),
{
    reveal(Seq::filter);
    if s.len() > 0 {
        let shorter = s.drop_last();
        assert forall|i: int| 0 <= i < shorter.len() implies !is_whitespace(
            #[trigger] shorter[i],
        ) by {
            assert(shorter[i] == s[i]);
        }
        lemma_filter_keeps(shorter, p);
        assert(!is_whitespace(s[s.len() - 1]));
        let rest = shorter.filter(p);
        assert forall|i: int| 0 <= i < s.filter(p).len() implies !is_whitespace(
            #[trigger] s.filter(p)[i],
        ) by {
            if i < rest.len() {
                assert(s.filter(p)[i] == rest[i]);
            }
        }
    }
}

proof fn lemma_words_have_no_space(s: Seq<char>, k: int)
    requires
        0 <= k < words_of(s).len(),
    ensures
        forall|i: int|
            0 <= i < words_of(s)[k].len() ==> !is_whitespace(#[trigger] words_of(s)[k][i]),
    decreases s.len(),
{
    if is_whitespace(s[0]) {
        lemma_words_have_no_space(s.skip(1), k);
    } else {
        let n = word_len(s) as int;
        lemma_word_len(s);
        lemma_word_has_no_space(s);
        if k > 0 {
            lemma_words_have_no_space(s.skip(n), k - 1);
            assert(words_of(s)[k] == words_of(s.skip(n))[k - 1]);
        } else {
            assert(words_of(s)[0] == s.take(n));
        }
    }
}

proof fn lemma_split_is_whole(s: Seq<char>)
    requires
        forall|i: int| 0 <= i < s.len() ==> is_kept(#[trigger] s[i]) && !is_whitespace(s[i]),
    ensures
        forall|k: int|
            0 <= k < ideograph_split(s).len() ==> is_whole(#[trigger] ideograph_split(s)[k]),
    decreases s.len(),
{
    if s.len() > 0 {
        lemma_plain_len(s);
        lemma_plain_has_no_ideograph(s);
        let n = if is_cjk(s[0]) {
            1
        } else {
            plain_len(s) as int
        };
        let rest = s.skip(n);
        assert forall|i: int| 0 <= i < rest.len() implies is_kept(#[trigger] rest[i])
            && !is_whitespace(rest[i]) by {
            assert(rest[i] == s[n + i]);
        }
        lemma_split_is_whole(rest);
        let head = s.take(n);
        assert forall|i: int| 0 <= i < head.len() implies is_kept(#[trigger] head[i])
            && !is_whitespace(head[i]) && (is_cjk(s[0]) || !is_cjk(head[i])) by {
            assert(head[i] == s[i]);
        }
        assert(is_whole(head));
        let w = ideograph_split(s);
        assert forall|k: int| 0 <= k < w.len() implies is_whole(#[trigger] w[k]) by {
            if k > 0 {
                assert(w[k] == ideograph_split(rest)[k - 1]);
            } else {
                assert(w[0] == head);
            }
        }
    }
}

proof fn lemma_flatten_is_whole(parts: Seq<Seq<Seq<char>>>)
    requires
        forall|i: int, k: int|
            0 <= i < parts.len() && 0 <= k < parts[i].len() ==> is_whole(#[trigger] parts[i][k]),
    ensures
        forall|k: int| 0 <= k < parts.flatten().len() ==> is_whole(#[trigger] parts.flatten()[k]),
    decreases parts.len(),
{
    if parts.len() > 0 {
        let rest = parts.drop_first();
        assert forall|i: int, k: int|
            0 <= i < rest.len() && 0 <= k < rest[i].len() implies is_whole(
            #[trigger] rest[i][k],
        ) by {
            assert(rest[i] == parts[i + 1]);
            assert(is_whole(parts[i + 1][k]));
        }
        lemma_flatten_is_whole(rest);
        let all = parts.flatten();
        let first = parts[0];
        assert forall|k: int| 0 <= k < all.len() implies is_whole(#[trigger] all[k]) by {
            if k < first.len() {
                assert(all[k] == first[k]);
                assert(is_whole(parts[0][k]));
            } else {
                assert(all[k] == rest.flatten()[k - first.len()]);
            }
        }
    }
}

proof fn lemma_whole_words_split_apart(words: Seq<Seq<char>>)
    requires
        forall|k: int| 0 <= k < words.len() ==> is_whole(#[trigger] words[k]),
    ensures
        spaced_words(joined_words(words)) == words,
    decreases words.len(),
{
    if words.len() == 0 {
        let parts = words_of(Seq::<char>::empty()).map_values(
            |seg: Seq<char>| spaced_segment_words(seg),
        );
        assert(parts =~= Seq::empty());
        assert(parts.flatten() =~= words);
    } else if words.len() == 1 {
        lemma_whole_splits_into_itself(words[0]);
        assert(words =~= seq![words[0]]);
    } else {
        let rest = words.drop_last();
        assert forall|k: int| 0 <= k < rest.len() implies is_whole(#[trigger] rest[k]) by {
            assert(rest[k] == words[k]);
        }
        lemma_whole_words_split_apart(rest);
        lemma_whole_splits_into_itself(words.last());
        lemma_texts_split_apart(joined_words(rest), words.last(), Set::empty());
        assert(rest + seq![words.last()] =~= words);
    }
}

/// Words that a text was split into at spaces, with a space between every two, split
/// into themselves.
pub proof fn lemma_words_split_into_themselves(text: Seq<char>)
    ensures
        spaced_words(joined_words(spaced_words(text))) == spaced_words(text),
{
    lemma_spaced_words_are_whole(text);
    lemma_whole_words_split_apart(spaced_words(text));
}

/// Whether a text has no white space.
pub open spec fn has_no_space(s: Seq<char>) -> bool {
    forall|i: int| 0 <= i < s.len() ==> !is_whitespace(#[trigger] s[i])
}

proof fn lemma_input_has_no_space(words: Seq<Seq<char>>)
    requires
        forall|k: int| 0 <= k < words.len() ==> has_no_space(#[trigger] words[k]),
    ensures
        has_no_space(aligner_input(words)),
    decreases words.len(),
{
    let start = "<|audio_start|><|audio_pad|><|audio_end|>"@;
    let marks = "<timestamp><timestamp>"@;
    reveal_strlit("<|audio_start|><|audio_pad|><|audio_end|>");
    reveal_strlit("<timestamp><timestamp>");
    assert(has_no_space(start));
    assert(has_no_space(marks));
    if words.len() > 0 {
        let rest = words.drop_last();
        assert forall|k: int| 0 <= k < rest.len() implies has_no_space(#[trigger] rest[k]) by {
            assert(rest[k] == words[k]);
        }
        lemma_input_has_no_space(rest);
        let (a, b) = (aligner_input(rest), words[words.len() - 1]);
        let all = aligner_input(words);
        assert forall|i: int| 0 <= i < all.len() implies !is_whitespace(#[trigger] all[i]) by {
            if i < a.len() {
                assert(all[i] == a[i]);
            } else if i < a.len() + b.len() {
                assert(all[i] == b[i - a.len()]);
            } else {
                assert(all[i] == marks[i - a.len() - b.len()]);
            }
        }
    }
}

proof fn lemma_flatten_has_no_space(parts: Seq<Seq<Seq<char>>>)
    requires
        forall|i: int, k: int|
            0 <= i < parts.len() && 0 <= k < parts[i].len() ==> has_no_space(
                #[trigger] parts[i][k],
            ),
    ensures
        forall|k: int|
            0 <= k < parts.flatten().len() ==> has_no_space(#[trigger] parts.flatten()[k]),
    decreases parts.len(),
{
    if parts.len() > 0 {
        let rest = parts.drop_first();
        assert forall|i: int, k: int|
            0 <= i < rest.len() && 0 <= k < rest[i].len() implies has_no_space(
            #[trigger] rest[i][k],
        ) by {
            assert(has_no_space(parts[i + 1][k]));
        }
        lemma_flatten_has_no_space(rest);
        let all = parts.flatten();
        let first = parts[0];
        assert forall|k: int| 0 <= k < all.len() implies has_no_space(#[trigger] all[k]) by {
            if k < first.len() {
                assert(all[k] == parts[0][k]);
            } else {
                assert(all[k] == rest.flatten()[k - first.len()]);
            }
        }
    }
}

/// The input of the aligner for a text that is split at spaces, or for a Korean one, has
/// no white space.
pub proof fn lemma_inputs_have_no_space(text: Seq<char>, dict: Set<Seq<char>>)
    ensures
        has_no_space(aligner_input(spaced_words(text))),
        has_no_space(aligner_input(korean_words(text, dict))),
{
    let tokens = words_of(text);
    let spaced = tokens.map_values(|seg: Seq<char>| spaced_segment_words(seg));
    assert forall|i: int, k: int| 0 <= i < spaced.len() && 0 <= k < spaced[i].len() implies
        has_no_space(#[trigger] spaced[i][k]) by {
        let s = cleaned(tokens[i]);
        lemma_words_have_no_space(text, i);
        lemma_filter_keeps(tokens[i], |c: char| is_kept(c));
        lemma_cleaned_is_kept(tokens[i]);
        assert forall|j: int| 0 <= j < s.len() implies is_kept(#[trigger] s[j]) && !is_whitespace(
            s[j],
        ) by {}
        lemma_split_is_whole(s);
        assert(is_whole(ideograph_split(s)[k]));
    }
    lemma_flatten_has_no_space(spaced);
    lemma_input_has_no_space(spaced_words(text));
    let korean = tokens.map_values(|token: Seq<char>| korean_token_words(token, dict));
    assert forall|i: int, k: int| 0 <= i < korean.len() && 0 <= k < korean[i].len() implies
        has_no_space(#[trigger] korean[i][k]) by {
        let token = tokens[i];
        let at = korean_split(token, dict, token.len() as int);
        lemma_korean_split(token, dict, token.len() as int);
        lemma_words_have_no_space(text, i);
        let (a, b) = (token.take(at), token.skip(at));
        assert forall|j: int| 0 <= j < a.len() implies !is_whitespace(#[trigger] a[j]) by {
            assert(a[j] == words_of(text)[i][j]);
        }
        assert forall|j: int| 0 <= j < b.len() implies !is_whitespace(#[trigger] b[j]) by {
            assert(b[j] == words_of(text)[i][at + j]);
        }
        lemma_filter_keeps(a, |c: char| is_kept(c));
        lemma_filter_keeps(b, |c: char| is_kept(c));
    }
    lemma_flatten_has_no_space(korean);
    lemma_input_has_no_space(korean_words(text, dict));
}

proof fn lemma_spaced_words_are_whole(text: Seq<char>)
    ensures
        forall|k: int|
            0 <= k < spaced_words(text).len() ==> is_whole(#[trigger] spaced_words(text)[k]),
{
    let tokens = words_of(text);
    let parts = tokens.map_values(|seg: Seq<char>| spaced_segment_words(seg));
    assert forall|i: int, k: int| 0 <= i < parts.len() && 0 <= k < parts[i].len() implies is_whole(
        #[trigger] parts[i][k],
    ) by {
        let s = cleaned(tokens[i]);
        lemma_words_have_no_space(text, i);
        lemma_filter_keeps(tokens[i], |c: char| is_kept(c));
        lemma_cleaned_is_kept(tokens[i]);
        assert forall|j: int| 0 <= j < s.len() implies is_kept(#[trigger] s[j]) && !is_whitespace(
            s[j],
        ) by {}
        lemma_split_is_whole(s);
        assert(parts[i] == ideograph_split(s));
    }
    lemma_flatten_is_whole(parts);
}

/// A word that holds an ideograph, of the blocks CJK Unified Ideographs (U+4E00 to
/// U+9FFF), its extensions A to E and the compatibility ideographs, is that one
/// character.
pub proof fn lemma_ideograph_is_whole_word(text: Seq<char>, k: int, j: int)
    requires
        0 <= k < spaced_words(text).len(),
        0 <= j < spaced_words(text)[k].len(),
        ({
            let u = spaced_words(text)[k][j] as int;
            0x3400 <= u <= 0x4dbf || 0x4e00 <= u <= 0x9fff || 0xf900 <= u <= 0xfaff || 0x20000 <= u
                <= 0x2a6df || 0x2a700 <= u <= 0x2ceaf
        }),
    ensures
        spaced_words(text)[k].len() == 1,
{
    lemma_spaced_words_are_whole(text);
    assert(is_whole(spaced_words(text)[k]));
    assert(is_cjk(spaced_words(text)[k][j]));
}

proof fn lemma_spaced_words_unfold(s: Seq<char>)
    ensures
        s.len() == 0 ==> spaced_words(s) == Seq::<Seq<char>>::empty(),
        s.len() > 0 && is_whitespace(s[0]) ==> spaced_words(s) == spaced_words(s.skip(1)),
        s.len() > 0 && !is_whitespace(s[0]) ==> spaced_words(s) == spaced_segment_words(
            s.take(word_len(s) as int),
        ) + spaced_words(s.skip(word_len(s) as int)),
{
    let f = |seg: Seq<char>| spaced_segment_words(seg);
    let parts = words_of(s).map_values(f);
    if s.len() == 0 {
        assert(parts =~= Seq::empty());
        assert(parts.flatten() =~= Seq::empty());
    } else if !is_whitespace(s[0]) {
        let n = word_len(s) as int;
        lemma_word_len(s);
        let rest = words_of(s.skip(n)).map_values(f);
        assert(parts =~= seq![spaced_segment_words(s.take(n))] + rest);
        assert(parts.drop_first() =~= rest);
        assert(parts.flatten() =~= parts[0] + rest.flatten());
    }
}

/// An ideograph ends what stands before it.
proof fn lemma_split_at_ideograph(x: Seq<char>, c: char, y: Seq<char>)
    requires
        is_cjk(c),
    ensures
        ideograph_split(x + seq![c] + y) == ideograph_split(x) + seq![seq![c]] + ideograph_split(y),
    decreases x.len(),
{
    let s = x + seq![c] + y;
    if x.len() == 0 {
        assert(s[0] == c);
        assert(s.take(1) =~= seq![c]);
        assert(s.skip(1) =~= y);
        assert(ideograph_split(s) =~= ideograph_split(x) + seq![seq![c]] + ideograph_split(y));
    } else {
        assert(s[0] == x[0]);
        lemma_plain_len(x);
        let n = if is_cjk(x[0]) {
            1
        } else {
            plain_len(x) as int
        };
        if !is_cjk(x[0]) {
            lemma_plain_ends_at_ideograph(x, c, y);
        }
        assert(s.take(n) =~= x.take(n));
        assert(s.skip(n) =~= x.skip(n) + seq![c] + y);
        lemma_split_at_ideograph(x.skip(n), c, y);
        assert(ideograph_split(s) =~= ideograph_split(x) + seq![seq![c]] + ideograph_split(y));
    }
}

proof fn lemma_plain_ends_at_ideograph(x: Seq<char>, c: char, y: Seq<char>)
    requires
        is_cjk(c),
    ensures
        plain_len(x + seq![c] + y) == plain_len(x),
    decreases x.len(),
{
    let s = x + seq![c] + y;
    if x.len() == 0 {
        assert(s[0] == c);
    } else {
        assert(s[0] == x[0]);
        assert(s.skip(1) =~= x.skip(1) + seq![c] + y);
        lemma_plain_ends_at_ideograph(x.skip(1), c, y);
    }
}

proof fn lemma_word_len_of_parts(a: Seq<char>, b: Seq<char>)
    ensures
        word_len(a) < a.len() ==> word_len(a + b) == word_len(a),
        word_len(a) == a.len() ==> word_len(a + b) == a.len() + word_len(b),
    decreases a.len(),
{
    let s = a + b;
    if a.len() == 0 {
        assert(s =~= b);
    } else {
        assert(s[0] == a[0]);
        assert(s.skip(1) =~= a.skip(1) + b);
        lemma_word_len_of_parts(a.skip(1), b);
    }
}

/// An ideograph that stands in a segment ends the words before it and starts those after
/// it.
proof fn lemma_ideograph_ends_segment(a: Seq<char>, c: char, b: Seq<char>)
    requires
        is_cjk(c) && is_kept(c) && !is_whitespace(c),
        word_len(a) == a.len(),
    ensures
        spaced_words(a + seq![c] + b) == spaced_words(a) + seq![seq![c]] + spaced_words(b),
{
    let s = a + seq![c] + b;
    let n = a.len() as int;
    let m = word_len(b) as int;
    let v = b.take(m);
    lemma_word_len(b);
    lemma_segment_with_ideograph(a, c, b);
    assert(spaced_words(s) == ideograph_split(cleaned(a + seq![c] + v)) + spaced_words(b.skip(m)));
    assert(ideograph_split(cleaned(a + seq![c] + v)) == ideograph_split(cleaned(a)) + seq![seq![c]]
        + ideograph_split(cleaned(v))) by {
        let p = |x: char| is_kept(x);
        Seq::filter_distributes_over_add(a + seq![c], v, p);
        Seq::filter_distributes_over_add(a, seq![c], p);
        lemma_filter_all(seq![c], p);
        assert(cleaned(a + seq![c] + v) =~= cleaned(a) + seq![c] + cleaned(v));
        lemma_split_at_ideograph(cleaned(a), c, cleaned(v));
    }
    assert(spaced_words(a) =~= ideograph_split(cleaned(a))) by {
        lemma_whole_segment(a);
    }
    assert(spaced_words(b) =~= ideograph_split(cleaned(v)) + spaced_words(b.skip(m))) by {
        lemma_first_segment(b);
    }
    let (x, y, z) = (ideograph_split(cleaned(a)), ideograph_split(cleaned(v)), spaced_words(b.skip(m)));
    assert(x + seq![seq![c]] + y + z =~= x + seq![seq![c]] + (y + z));
}

proof fn lemma_segment_with_ideograph(a: Seq<char>, c: char, b: Seq<char>)
    requires
        !is_whitespace(c),
        word_len(a) == a.len(),
    ensures
        ({
            let m = word_len(b) as int;
            spaced_words(a + seq![c] + b) == ideograph_split(cleaned(a + seq![c] + b.take(m)))
                + spaced_words(b.skip(m))
        }),
{
    let s = a + seq![c] + b;
    let n = a.len() as int;
    let m = word_len(b) as int;
    lemma_word_len(b);
    let cb = seq![c] + b;
    assert(s =~= a + cb);
    lemma_word_len_of_parts(a, cb);
    assert(cb[0] == c);
    assert(cb.skip(1) =~= b);
    assert(word_len(cb) == 1 + m);
    assert(!is_whitespace(s[0])) by {
        assert(n > 0 ==> s[0] == a[0]);
        assert(n == 0 ==> s[0] == c);
    }
    assert(s.take(n + 1 + m) =~= a + seq![c] + b.take(m));
    assert(s.skip(n + 1 + m) =~= b.skip(m));
    lemma_spaced_words_unfold(s);
}

proof fn lemma_first_segment(b: Seq<char>)
    ensures
        spaced_words(b) == ideograph_split(cleaned(b.take(word_len(b) as int))) + spaced_words(
            b.skip(word_len(b) as int),
        ),
{
    let m = word_len(b) as int;
    lemma_word_len(b);
    lemma_spaced_words_unfold(b);
    if m == 0 {
        lemma_filter_of_empty(b.take(m), |x: char| is_kept(x));
        assert(b.skip(m) =~= b);
        assert(ideograph_split(cleaned(b.take(m))) =~= Seq::empty());
        assert(Seq::<Seq<char>>::empty() + spaced_words(b) =~= spaced_words(b));
    }
}

proof fn lemma_whole_segment(a: Seq<char>)
    requires
        word_len(a) == a.len(),
    ensures
        spaced_words(a) == ideograph_split(cleaned(a)),
{
    let n = a.len() as int;
    lemma_first_segment(a);
    lemma_spaced_words_unfold(a.skip(n));
    assert(a.take(n) =~= a);
    assert(spaced_words(a) =~= ideograph_split(cleaned(a)));
}

/// A letter that is an ideograph, of the blocks CJK Unified Ideographs (U+4E00 to
/// U+9FFF), its extensions A to E and the compatibility ideographs, is a word, and the
/// texts before and after it have the words that they have alone.
pub proof fn lemma_ideograph_separates(a: Seq<char>, c: char, b: Seq<char>)
    requires
        is_alphanumeric(c),
        0x3400 <= c as int <= 0x4dbf || 0x4e00 <= c as int <= 0x9fff || 0xf900 <= c as int <= 0xfaff
            || 0x20000 <= c as int <= 0x2a6df || 0x2a700 <= c as int <= 0x2ceaf,
    ensures
        spaced_words(a + seq![c] + b) == spaced_words(a) + seq![seq![c]] + spaced_words(b),
    decreases a.len(),
{
    let s = a + seq![c] + b;
    let target = spaced_words(a) + seq![seq![c]] + spaced_words(b);
    assert(is_cjk(c) && is_kept(c) && !is_whitespace(c));
    lemma_spaced_words_unfold(a);
    lemma_spaced_words_unfold(b);
    lemma_spaced_words_unfold(s);
    lemma_word_len(a);
    lemma_word_len(b);
    let n = word_len(a) as int;
    if n < a.len() && n == 0 {
        assert(s[0] == a[0]);
        assert(s.skip(1) =~= a.skip(1) + seq![c] + b);
        lemma_ideograph_separates(a.skip(1), c, b);
    } else if n < a.len() {
        assert(s =~= a + (seq![c] + b));
        lemma_word_len_of_parts(a, seq![c] + b);
        assert(s[0] == a[0]);
        assert(s.take(n) =~= a.take(n));
        assert(s.skip(n) =~= a.skip(n) + seq![c] + b);
        lemma_ideograph_separates(a.skip(n), c, b);
        assert(spaced_words(s) =~= target);
    } else {
        lemma_ideograph_ends_segment(a, c, b);
    }
}

proof fn lemma_filter_of_empty(s: Seq<char>, p: spec_fn(char) -> bool)
    ensures
        s.len() == 0 ==> s.filter(p).len() == 0,
{
    reveal(Seq::filter);
}

/// A text without white space and without ideographs is one word: its letters, digits
/// and apostrophes, in order. Where it has none of these, it is no word.
pub proof fn lemma_plain_text_is_one_word(s: Seq<char>)
    requires
        forall|i: int|
            0 <= i < s.len() ==> {
                let u = #[trigger] s[i] as int;
                &&& !(0x9 <= u <= 0xd || u == 0x20 || u == 0x85 || u == 0xa0 || u == 0x1680
                    || 0x2000 <= u <= 0x200a || u == 0x2028 || u == 0x2029 || u == 0x202f || u
                    == 0x205f || u == 0x3000)
                &&& !(0x3400 <= u <= 0x4dbf || 0x4e00 <= u <= 0x9fff || 0xf900 <= u <= 0xfaff
                    || 0x20000 <= u <= 0x2a6df || 0x2a700 <= u <= 0x2ceaf)
            },
    ensures
        ({
            let w = s.filter(|c: char| c == '\'' || is_alphanumeric(c));
            spaced_words(s) == if w.len() == 0 {
                Seq::<Seq<char>>::empty()
            } else {
                seq![w]
            }
        }),
{
    lemma_kept_characters(s);
    let w = cleaned(s);
    lemma_spaced_words_unfold(s);
    if s.len() == 0 {
        lemma_filter_of_empty(s, |c: char| is_kept(c));
    } else {
        assert forall|i: int| 0 <= i < s.len() implies !is_whitespace(#[trigger] s[i]) by {}
        lemma_no_space_is_one_word(s);
        assert(s.take(s.len() as int) =~= s);
        lemma_spaced_words_unfold(s.skip(s.len() as int));
        assert(spaced_words(s) =~= ideograph_split(w));
        assert forall|i: int| 0 <= i < w.len() implies !is_cjk(#[trigger] w[i]) by {
            let p = |c: char| is_kept(c);
            s.lemma_filter_pred(p, i);
            s.lemma_filter_contains_rev(p, w[i]);
            let k = choose|k: int| 0 <= k < s.len() && s[k] == w[i];
            assert(!is_cjk(s[k]));
        }
        if w.len() > 0 {
            lemma_no_ideograph_is_plain(w);
            assert(w.take(w.len() as int) =~= w);
            assert(ideograph_split(w.skip(w.len() as int)) =~= Seq::empty());
            assert(ideograph_split(w) =~= seq![w]);
        }
    }
}

/// White space of any kind stands between words: the texts before and after it have
/// the words that they have alone.
pub proof fn lemma_white_space_separates(
    a: Seq<char>,
    c: char,
    b: Seq<char>,
    dict: Set<Seq<char>>,
)
    requires
        ({
            let u = c as int;
            0x9 <= u <= 0xd || u == 0x20 || u == 0x85 || u == 0xa0 || u == 0x1680 || 0x2000 <= u
                <= 0x200a || u == 0x2028 || u == 0x2029 || u == 0x202f || u == 0x205f || u == 0x3000
        }),
    ensures
        words_of(a + seq![c] + b) == words_of(a) + words_of(b),
        spaced_words(a + seq![c] + b) == spaced_words(a) + spaced_words(b),
        korean_words(a + seq![c] + b, dict) == korean_words(a, dict) + korean_words(b, dict),
{
    lemma_space_separates(a, c, b);
    let (x, y) = (words_of(a), words_of(b));
    let f = |seg: Seq<char>| spaced_segment_words(seg);
    assert((x + y).map_values(f) =~= x.map_values(f) + y.map_values(f));
    vstd::seq_lib::lemma_flatten_concat(x.map_values(f), y.map_values(f));
    let g = |token: Seq<char>| korean_token_words(token, dict);
    assert((x + y).map_values(g) =~= x.map_values(g) + y.map_values(g));
    vstd::seq_lib::lemma_flatten_concat(x.map_values(g), y.map_values(g));
}

/// A text that is not empty and has no white space is one token.
pub proof fn lemma_text_without_space(s: Seq<char>)
    requires
        s.len() > 0,
        forall|i: int|
            0 <= i < s.len() ==> {
                let u = #[trigger] s[i] as int;
                !(0x9 <= u <= 0xd || u == 0x20 || u == 0x85 || u == 0xa0 || u == 0x1680 || 0x2000
                    <= u <= 0x200a || u == 0x2028 || u == 0x2029 || u == 0x202f || u == 0x205f || u
                    == 0x3000)
            },
    ensures
        words_of(s) == seq![s],
{
    assert forall|i: int| 0 <= i < s.len() implies !is_whitespace(#[trigger] s[i]) by {}
    lemma_no_space_is_one_word(s);
    assert(s.take(s.len() as int) =~= s);
    assert(words_of(s.skip(s.len() as int)) =~= Seq::empty());
    assert(words_of(s) =~= seq![s]);
}

/// A Korean token is split in two after its longest start of at least two characters
/// that is in the dictionary, and the letters, digits and apostrophes of each part are
/// a word, unless there are none. A token with no such start is not split.
pub proof fn lemma_korean_token_is_split(left: Seq<char>, right: Seq<char>, dict: Set<Seq<char>>)
    requires
        left.len() > 0,
        forall|i: int| 0 <= i < left.len() ==> !is_whitespace(#[trigger] left[i]),
        forall|i: int| 0 <= i < right.len() ==> !is_whitespace(#[trigger] right[i]),
        right.len() > 0 ==> left.len() >= 2 && dict.contains(left) && forall|n: int|
            left.len() < n <= left.len() + right.len() ==> !dict.contains(
                #[trigger] (left + right).take(n),
            ),
        right.len() == 0 ==> dict.contains(left) || forall|n: int|
            2 <= n <= left.len() ==> !dict.contains(#[trigger] left.take(n)),
    ensures
        ({
            let l = left.filter(|c: char| c == '\'' || is_alphanumeric(c));
            let r = right.filter(|c: char| c == '\'' || is_alphanumeric(c));
            korean_words(left + right, dict) == if l.len() > 0 && r.len() > 0 {
                seq![l, r]
            } else if l.len() > 0 {
                seq![l]
            } else if r.len() > 0 {
                seq![r]
            } else {
                Seq::<Seq<char>>::empty()
            }
        }),
{
    let token = left + right;
    let at = korean_split(token, dict, token.len() as int);
    lemma_left_part_is_longest(token, dict);
    assert(token.take(left.len() as int) =~= left);
    assert(at == left.len()) by {
        if right.len() == 0 {
            assert(token =~= left);
        } else if at == token.len() {
            assert(token.take(token.len() as int) =~= token);
            assert(!dict.contains(token.take(left.len() as int)));
        } else if at < left.len() {
            assert(!dict.contains(token.take(left.len() as int)));
        } else if at > left.len() {
            assert(!dict.contains(token.take(at)));
        }
    }
    assert(token.skip(at) =~= right);
    assert(token.take(at) =~= left);
    lemma_kept_characters(left);
    lemma_kept_characters(right);
    assert forall|i: int| 0 <= i < token.len() implies !is_whitespace(#[trigger] token[i]) by {
        if i < left.len() {
            assert(token[i] == left[i]);
        } else {
            assert(token[i] == right[i - left.len()]);
        }
    }
    lemma_text_without_space(token);
    let parts = words_of(token).map_values(|t: Seq<char>| korean_token_words(t, dict));
    assert(parts =~= seq![korean_token_words(token, dict)]);
    assert(parts.drop_first() =~= Seq::empty());
    assert(parts.drop_first().flatten() =~= Seq::empty());
    assert(parts.flatten() =~= korean_token_words(token, dict));
    lemma_filter_of_empty(right, |c: char| is_kept(c));
}

/// The words among surface forms are found form by form: the letters, digits and
/// apostrophes of a form are a word, unless there are none.
pub proof fn lemma_surface_words_by_form(forms: Seq<Seq<char>>, more: Seq<Seq<char>>, form: Seq<char>)
    ensures
        surface_words(forms + more) == surface_words(forms) + surface_words(more),
        ({
            let w = form.filter(|c: char| c == '\'' || is_alphanumeric(c));
            surface_words(seq![form]) == if w.len() > 0 {
                seq![w]
            } else {
                Seq::<Seq<char>>::empty()
            }
        }),
        surface_words(Seq::empty()) == Seq::<Seq<char>>::empty(),
{
    let f = |form: Seq<char>| unless_empty(cleaned(form));
    assert((forms + more).map_values(f) =~= forms.map_values(f) + more.map_values(f));
    vstd::seq_lib::lemma_flatten_concat(forms.map_values(f), more.map_values(f));
    lemma_kept_characters(form);
    let parts = seq![form].map_values(f);
    assert(parts =~= seq![unless_empty(cleaned(form))]);
    assert(parts.drop_first() =~= Seq::empty());
    assert(parts.drop_first().flatten() =~= Seq::empty());
    assert(parts.flatten() =~= unless_empty(cleaned(form)));
    let none = Seq::<Seq<char>>::empty().map_values(f);
    assert(none =~= Seq::empty());
    assert(none.flatten() =~= Seq::empty());
}

/// The input of the aligner holds the words one after another behind the place of the
/// audio: every word adds itself and the places of its two times, and nothing else.
pub proof fn lemma_input_word_by_word(words: Seq<Seq<char>>, more: Seq<Seq<char>>, w: Seq<char>)
    ensures
        aligner_input(Seq::empty()) == "<|audio_start|><|audio_pad|><|audio_end|>"@,
        aligner_input(seq![w]) == "<|audio_start|><|audio_pad|><|audio_end|>"@ + w
            + "<timestamp><timestamp>"@,
        aligner_input(words + more) == aligner_input(words) + aligner_input(more).skip(
            aligner_input(Seq::empty()).len() as int,
        ),
    decreases more.len(),
{
    let start = aligner_input(Seq::<Seq<char>>::empty());
    assert(seq![w].drop_last() =~= Seq::empty());
    if more.len() == 0 {
        assert(words + more =~= words);
        assert(aligner_input(more) == start);
        assert(aligner_input(words) + start.skip(start.len() as int) =~= aligner_input(words));
    } else {
        let shorter = more.drop_last();
        lemma_input_word_by_word(words, shorter, w);
        lemma_input_is_longer(shorter);
        assert((words + more).drop_last() =~= words + shorter);
        assert((words + more).last() == more.last());
        let n = start.len() as int;
        assert(aligner_input(words + more) =~= aligner_input(words) + aligner_input(more).skip(n));
    }
}

proof fn lemma_input_is_longer(words: Seq<Seq<char>>)
    ensures
        aligner_input(words).len() >= aligner_input(Seq::empty()).len(),
    decreases words.len(),
{
    if words.len() > 0 {
        lemma_input_is_longer(words.drop_last());
    }
}

/// A line of a dictionary adds its first word to the entries, and nothing else; a line
/// without words adds nothing.
pub proof fn lemma_entry_of_line(w: Seq<char>, tail: Seq<char>, rest: Seq<char>)
    requires
        !w.contains('\n') && !tail.contains('\n'),
        forall|i: int| 0 <= i < w.len() ==> !is_whitespace(#[trigger] w[i]),
        tail.len() > 0 ==> is_whitespace(tail[0]),
        w.len() == 0 ==> forall|i: int| 0 <= i < tail.len() ==> is_whitespace(#[trigger] tail[i]),
    ensures
        w.len() > 0 ==> dictionary_words(w + tail + seq!['\n'] + rest) == dictionary_words(
            rest,
        ).insert(w),
        w.len() == 0 ==> dictionary_words(w + tail + seq!['\n'] + rest) == dictionary_words(rest),
        dictionary_words(Seq::empty()) == Set::<Seq<char>>::empty(),
{
    assert(dictionary_words(Seq::empty()) =~= Set::<Seq<char>>::empty());
    let line = w + tail;
    let s = line + seq!['\n'] + rest;
    assert(!line.contains('\n')) by {
        assert forall|i: int| 0 <= i < line.len() implies line[i] != '\n' by {
            if i < w.len() {
                assert(w.contains(w[i]));
            } else {
                assert(tail.contains(tail[i - w.len()]));
            }
        }
    }
    lemma_lines_of_text(line, rest);
    let n = line.len() as int;
    let first = if n > 0 && line.last() == '\r' {
        line.drop_last()
    } else {
        line
    };
    let short = if tail.len() > 0 && tail.last() == '\r' {
        tail.drop_last()
    } else {
        tail
    };
    assert(first =~= w + short) by {
        if n > 0 && line[n - 1] == '\r' {
            assert(tail.len() > 0) by {
                if tail.len() == 0 {
                    assert(is_whitespace(w[n - 1]));
                }
            }
            assert(line.drop_last() =~= w + short);
        }
    }
    if w.len() > 0 {
        lemma_no_space_is_one_word(w);
        lemma_word_len_of_parts(w, short);
        assert(short.len() > 0 ==> short[0] == tail[0]);
        assert(first[0] == w[0]);
        assert(word_len(first) == w.len());
        assert(first.take(w.len() as int) =~= w);
        assert(words_of(first)[0] == w);
        assert(words_of(first).len() > 0);
    } else {
        assert forall|i: int| 0 <= i < first.len() implies is_whitespace(#[trigger] first[i]) by {
            assert(first[i] == tail[i]);
        }
        lemma_blank_has_no_words(first);
    }
    let (all, fewer) = (dictionary_words(s), dictionary_words(rest));
    let ls = lines_of(s);
    assert forall|x: Seq<char>| #[trigger]
        all.contains(x) == (fewer.contains(x) || (w.len() > 0 && x == w)) by {
        if all.contains(x) {
            let i = choose|i: int|
                0 <= i < ls.len() && words_of(#[trigger] ls[i]).len() > 0 && words_of(ls[i])[0]
                    == x;
            if i > 0 {
                assert(lines_of(rest)[i - 1] == ls[i]);
            } else {
                assert(ls[0] == first);
            }
        }
        if fewer.contains(x) {
            let i = choose|i: int|
                0 <= i < lines_of(rest).len() && words_of(#[trigger] lines_of(rest)[i]).len() > 0
                    && words_of(lines_of(rest)[i])[0] == x;
            assert(ls[i + 1] == lines_of(rest)[i]);
        }
        if w.len() > 0 && x == w {
            assert(ls[0] == first);
        }
    }
    if w.len() > 0 {
        assert(all =~= fewer.insert(w));
    } else {
        assert(all =~= fewer);
    }
}

proof fn lemma_blank_has_no_words(s: Seq<char>)
    requires
        forall|i: int| 0 <= i < s.len() ==> is_whitespace(#[trigger] s[i]),
    ensures
        words_of(s).len() == 0,
    decreases s.len(),
{
    if s.len() > 0 {
        assert forall|i: int| 0 <= i < s.skip(1).len() implies is_whitespace(
            #[trigger] s.skip(1)[i],
        ) by {
            assert(s.skip(1)[i] == s[i + 1]);
        }
        lemma_blank_has_no_words(s.skip(1));
    }
}

/// A text of fewer than `2^30` characters is never too long for the segmenter.
pub proof fn lemma_short_texts_fit(s: Seq<char>)
    requires
        s.len() < 0x4000_0000,
    ensures
        sentences_fit(s),
{
    assert forall|n: int| 0 <= n <= s.len() implies sentence_len(#[trigger] s.take(n))
        < SENTENCE_LIMIT by {
        lemma_sentence_is_bounded(s.take(n));
    }
}

proof fn lemma_sentence_is_bounded(s: Seq<char>)
    ensures
        0 <= sentence_len(s) <= 4 * s.len(),
    decreases s.len(),
{
    if s.len() > 0 {
        lemma_sentence_is_bounded(s.drop_last());
    }
}

/// Marks pick characters one by one: a part of a text and its marks give the same
/// characters alone as in the whole, a marked character is picked, and another one is not.
pub proof fn lemma_marks_pick(a: Seq<char>, ma: Seq<bool>, b: Seq<char>, mb: Seq<bool>, c: char)
    requires
        a.len() == ma.len(),
        b.len() == mb.len(),
    ensures
        marked(a + b, ma + mb) == marked(a, ma) + marked(b, mb),
        marked(seq![c], seq![true]) == seq![c],
        marked(seq![c], seq![false]) == Seq::<char>::empty(),
    decreases b.len(),
{
    assert(seq![c].drop_last() =~= Seq::empty());
    assert(marked(seq![c].drop_last(), seq![true].drop_last()) =~= Seq::empty());
    assert(marked(seq![c].drop_last(), seq![false].drop_last()) =~= Seq::empty());
    assert(marked(seq![c], seq![true]) =~= seq![c]);
    if b.len() == 0 {
        assert(a + b =~= a);
        assert(ma + mb =~= ma);
        assert(marked(a, ma) + marked(b, mb) =~= marked(a, ma));
    } else {
        lemma_marks_pick(a, ma, b.drop_last(), mb.drop_last(), c);
        assert((a + b).drop_last() =~= a + b.drop_last());
        assert((ma + mb).drop_last() =~= ma + mb.drop_last());
        assert((a + b).last() == b.last() && (ma + mb).last() == mb.last());
        assert(marked(a + b, ma + mb) =~= marked(a, ma) + marked(b, mb));
    }
}

/// The words of a Japanese text of fewer than `2^30` characters are those among its surface
/// forms, and there is an error only where the text could not be segmented.
pub proof fn lemma_words_of_short_japanese_text(text: Seq<char>, tokenizer: JapaneseTokenizer)
    requires
        text.len() < 0x4000_0000,
    ensures
        match surface_forms(tokenizer.segmenter(), text) {
            Some(forms) => japanese_words(text, tokenizer) == Ok::<_, TextError>(
                surface_words(forms),
            ),
            None => japanese_words(text, tokenizer) == Err::<Seq<Seq<char>>, _>(
                TextError::SegmentationFailed,
            ),
        },
{
    lemma_short_texts_fit(text);
}

/// Only Japanese text needs a segmenter, and only Korean text the dictionary: other words
/// do not change with what is loaded, and every Korean or other text can be split.
pub proof fn lemma_resources_that_count(text: Seq<char>, a: TextResources, b: TextResources)
    ensures
        words_in(text, Splitting::Spaces, a) is Ok && words_in(text, Splitting::Korean, a) is Ok,
        words_in(text, Splitting::Spaces, a) == words_in(text, Splitting::Spaces, b),
        a.korean@ == b.korean@ ==> words_in(text, Splitting::Korean, a) == words_in(
            text,
            Splitting::Korean,
            b,
        ),
        a.japanese == b.japanese ==> words_in(text, Splitting::Japanese, a) == words_in(
            text,
            Splitting::Japanese,
            b,
        ),
        a.japanese is None ==> words_in(text, Splitting::Japanese, a) == Err::<Seq<Seq<char>>, _>(
            TextError::DictionaryUnavailable,
        ),
{
}

} // verus!

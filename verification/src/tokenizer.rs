//! From text to token ids.
//!
//! A byte-level pair encoding splits the text. The ids of added tokens come from the
//! configuration of the model.

use crate::chars::{copy_text, is_whitespace, texts, to_chars, whitespace};
use crate::decimal::{number_of, parse_number};
use vstd::hash_map::StringHashMap;
use vstd::prelude::*;

verus! {

/// A tokenizer of the `tokenizers` crate.
#[verifier::external_type_specification]
#[verifier::external_body]
pub struct ExTokenizer(tokenizers::Tokenizer);

/// An added token, as the configuration of a tokenizer describes it.
#[derive(Debug, Clone)]
pub struct AddedTokenConfig {
    pub content: String,
    pub lstrip: bool,
    pub normalized: bool,
    pub rstrip: bool,
    pub single_word: bool,
    pub special: bool,
}

/// What an added token says: its content, whether white space left and right of it
/// belongs to it, whether it must be a single word, whether it is normalized, and
/// whether it is special.
pub open spec fn token_facts(t: AddedTokenConfig) -> (Seq<char>, bool, bool, bool, bool, bool) {
    (t.content@, t.lstrip, t.rstrip, t.single_word, t.normalized, t.special)
}

/// What every added token of a list says.
pub open spec fn all_facts(v: Seq<AddedTokenConfig>) -> Seq<
    (Seq<char>, bool, bool, bool, bool, bool),
> {
    v.map_values(|t: AddedTokenConfig| token_facts(t))
}

/// The ids of a list of tokens. Of two entries for a token the later counts.
pub open spec fn vocabulary_of(v: Seq<(String, u32)>) -> Map<Seq<char>, u32>
    decreases v.len(),
{
    if v.len() == 0 {
        Map::empty()
    } else {
        vocabulary_of(v.drop_last()).insert(v.last().0@, v.last().1)
    }
}

/// The two sides of every merge.
pub open spec fn merge_sides(v: Seq<(String, String)>) -> Seq<(Seq<char>, Seq<char>)> {
    v.map_values(|m: (String, String)| (m.0@, m.1@))
}

/// Whether every merge joins tokens of the vocabulary to a token of the vocabulary.
pub open spec fn merges_are_known(
    vocabulary: Map<Seq<char>, u32>,
    merges: Seq<(Seq<char>, Seq<char>)>,
) -> bool {
    forall|i: int|
        0 <= i < merges.len() ==> vocabulary.contains_key((#[trigger] merges[i]).0)
            && vocabulary.contains_key(merges[i].1) && vocabulary.contains_key(
            merges[i].0 + merges[i].1,
        )
}

/// Whether no two tokens have the same id.
pub open spec fn ids_are_distinct(vocabulary: Map<Seq<char>, u32>) -> bool {
    forall|a: Seq<char>, b: Seq<char>|
        vocabulary.contains_key(a) && vocabulary.contains_key(b) && #[trigger] vocabulary[a]
            == #[trigger] vocabulary[b] ==> a == b
}

/// Whether the size of a vocabulary does not exceed `n`, and no id reaches it.
pub open spec fn ids_lie_below(v: Seq<(String, u32)>, n: int) -> bool {
    v.len() <= n && forall|i: int| 0 <= i < v.len() ==> (#[trigger] v[i]).1 < n
}

/// The value for a key, if there is one.
pub open spec fn entry(m: Map<Seq<char>, u32>, key: Seq<char>) -> Option<u32> {
    if m.contains_key(key) {
        Some(m[key])
    } else {
        None
    }
}

/// A tokenizer for a vocabulary with distinct ids and a list of merges, which may put a
/// space in front of a text.
pub uninterp spec fn byte_level_tokenizer(
    vocabulary: Map<Seq<char>, u32>,
    merges: Seq<(Seq<char>, Seq<char>)>,
    prefix_space: bool,
) -> tokenizers::Tokenizer;

/// A tokenizer to which special tokens were added.
pub uninterp spec fn with_special_tokens(
    tokenizer: tokenizers::Tokenizer,
    tokens: Seq<(Seq<char>, bool, bool, bool, bool, bool)>,
) -> tokenizers::Tokenizer;

/// A tokenizer to which tokens were added.
pub uninterp spec fn with_tokens(
    tokenizer: tokenizers::Tokenizer,
    tokens: Seq<(Seq<char>, bool, bool, bool, bool, bool)>,
) -> tokenizers::Tokenizer;

/// The id that a tokenizer has for a token.
pub uninterp spec fn token_id(tokenizer: tokenizers::Tokenizer, token: Seq<char>) -> Option<u32>;

/// The tokens of a text and their ids, with or without the tokens that a tokenizer may put
/// around a text, or nothing where it fails.
pub uninterp spec fn encoding(
    tokenizer: tokenizers::Tokenizer,
    text: Seq<char>,
    special_around: bool,
) -> Option<(Seq<Seq<char>>, Seq<u32>)>;

/// A number that the next new id of a tokenizer does not exceed.
pub uninterp spec fn id_limit(tokenizer: tokenizers::Tokenizer) -> int;

/// Whether the model of a tokenizer applies every merge that it can, and so leaves
/// nothing to chance.
pub uninterp spec fn drops_no_merges(tokenizer: tokenizers::Tokenizer) -> bool;

/// What is said of the tokens that were added to a tokenizer.
pub uninterp spec fn added_to(tokenizer: tokenizers::Tokenizer) -> Set<
    (Seq<char>, bool, bool, bool, bool, bool),
>;

/// A number that the number of characters of the tokens that were added to a tokenizer
/// does not exceed.
pub uninterp spec fn added_len(tokenizer: tokenizers::Tokenizer) -> int;

/// The number of characters of added tokens for which there is room: those of all tokens
/// together are found by one automaton, whose states are numbered.
pub const ADDED_TEXT_LIMIT: usize = 0x100_0000;

/// The number of characters of added tokens.
pub open spec fn text_len(tokens: Seq<(Seq<char>, bool, bool, bool, bool, bool)>) -> int
    decreases tokens.len(),
{
    if tokens.len() == 0 {
        0
    } else {
        text_len(tokens.drop_last()) + tokens.last().0.len()
    }
}

/// Whether a text is white space and nothing else.
pub open spec fn is_blank(s: Seq<char>) -> bool {
    s.len() > 0 && forall|i: int| 0 <= i < s.len() ==> is_whitespace(#[trigger] s[i])
}

/// Whether added tokens split a text from front to back: none is white space alone, or
/// none takes the white space left of it. Otherwise a token can start behind its end,
/// where a token before it took all of its white space. It is not enough that the same
/// token is not both: of tokens that share an id, one counts for all.
pub open spec fn splits_forward(tokens: Set<(Seq<char>, bool, bool, bool, bool, bool)>) -> bool {
    ||| forall|t: (Seq<char>, bool, bool, bool, bool, bool)| #[trigger]
        tokens.contains(t) ==> !t.1
    ||| forall|t: (Seq<char>, bool, bool, bool, bool, bool)| #[trigger]
        tokens.contains(t) ==> !is_blank(t.0)
}

/// `tokenizers::models::bpe::BpeBuilder::build` makes a model of a vocabulary and
/// merges. It fails where a side of a merge, or the two sides joined, are no tokens.
/// Without further options the model drops no merges. `tokenizers::Tokenizer::new`
/// and `with_pre_tokenizer` put the model behind a split into bytes that may add a space
/// at the front, without added tokens. What comes of it depends on vocabulary, merges and
/// that choice alone where no two tokens share an id; of tokens that share an id, a hash
/// order decides which one is the name of the id, and nothing is said.
#[verifier::external_body]
fn new_byte_level_tokenizer(
    vocabulary: Vec<(String, u32)>,
    merges: Vec<(String, String)>,
    prefix_space: bool,
) -> (r: Result<tokenizers::Tokenizer, String>)
    ensures
        match r {
            Ok(t) => {
                &&& merges_are_known(vocabulary_of(vocabulary@), merge_sides(merges@))
                &&& ids_are_distinct(vocabulary_of(vocabulary@)) ==> t == byte_level_tokenizer(
                    vocabulary_of(vocabulary@),
                    merge_sides(merges@),
                    prefix_space,
                )
                &&& forall|s: Seq<char>| #[trigger]
                    token_id(t, s) == entry(vocabulary_of(vocabulary@), s)
                &&& forall|n: int| #[trigger] ids_lie_below(vocabulary@, n) ==> id_limit(t) <= n
                &&& drops_no_merges(t)
                &&& added_len(t) <= 0
                &&& added_to(t) == Set::<(Seq<char>, bool, bool, bool, bool, bool)>::empty()
            },
            Err(_) => !merges_are_known(vocabulary_of(vocabulary@), merge_sides(merges@)),
        },
{
    let vocabulary: tokenizers::models::bpe::Vocab = vocabulary.into_iter().collect();
    let bpe = tokenizers::models::bpe::BPE::builder()
        .vocab_and_merges(vocabulary, merges)
        .build()
        .map_err(|err| err.to_string())?;
    let mut tokenizer = tokenizers::Tokenizer::new(bpe);
    let bytes = tokenizers::pre_tokenizers::byte_level::ByteLevel::default();
    tokenizer.with_pre_tokenizer(Some(bytes.add_prefix_space(prefix_space)));
    Ok(tokenizer)
}

/// `tokenizers::TokenizerImpl::add_special_tokens` adds tokens. A token that the
/// tokenizer knows keeps its id; of the others each gets one, in order from the next
/// new id on. No other tokens are added. It stops with a panic where the automaton that
/// finds the tokens has more states than can be numbered.
#[verifier::external_body]
fn add_special_tokens(tokenizer: &mut tokenizers::Tokenizer, tokens: &[AddedTokenConfig])
    requires
        id_limit(*old(tokenizer)) + tokens@.len() < u32::MAX,
        added_len(*old(tokenizer)) + text_len(all_facts(tokens@)) <= ADDED_TEXT_LIMIT,
    ensures
        *final(tokenizer) == with_special_tokens(*old(tokenizer), all_facts(tokens@)),
        forall|s: Seq<char>|
            token_id(*old(tokenizer), s) is Some ==> #[trigger] token_id(*final(tokenizer), s)
                == token_id(*old(tokenizer), s),
        forall|i: int|
            0 <= i < tokens@.len() && (#[trigger] tokens@[i]).content@.len() > 0 ==> token_id(
                *final(tokenizer),
                tokens@[i].content@,
            ) is Some,
        id_limit(*final(tokenizer)) <= id_limit(*old(tokenizer)) + tokens@.len(),
        drops_no_merges(*final(tokenizer)) == drops_no_merges(*old(tokenizer)),
        added_len(*final(tokenizer)) <= added_len(*old(tokenizer)) + text_len(all_facts(tokens@)),
        added_to(*final(tokenizer)).subset_of(
            added_to(*old(tokenizer)).union(all_facts(tokens@).to_set()),
        ),
{
    let tokens: Vec<tokenizers::AddedToken> = tokens.iter().map(|t| {
        tokenizers::AddedToken::from(t.content.clone(), t.special)
            .lstrip(t.lstrip)
            .rstrip(t.rstrip)
            .single_word(t.single_word)
            .normalized(t.normalized)
    }).collect();
    tokenizer.add_special_tokens(&tokens);
}

/// `tokenizers::TokenizerImpl::add_tokens` adds tokens. A token that the tokenizer
/// knows keeps its id; of the others each gets one, in order from the next new id on.
/// No other tokens are added. It stops with a panic where the automaton that finds the
/// tokens has more states than can be numbered.
#[verifier::external_body]
fn add_tokens(tokenizer: &mut tokenizers::Tokenizer, tokens: &[AddedTokenConfig])
    requires
        id_limit(*old(tokenizer)) + tokens@.len() < u32::MAX,
        added_len(*old(tokenizer)) + text_len(all_facts(tokens@)) <= ADDED_TEXT_LIMIT,
    ensures
        *final(tokenizer) == with_tokens(*old(tokenizer), all_facts(tokens@)),
        forall|s: Seq<char>|
            token_id(*old(tokenizer), s) is Some ==> #[trigger] token_id(*final(tokenizer), s)
                == token_id(*old(tokenizer), s),
        forall|i: int|
            0 <= i < tokens@.len() && (#[trigger] tokens@[i]).content@.len() > 0 ==> token_id(
                *final(tokenizer),
                tokens@[i].content@,
            ) is Some,
        id_limit(*final(tokenizer)) <= id_limit(*old(tokenizer)) + tokens@.len(),
        drops_no_merges(*final(tokenizer)) == drops_no_merges(*old(tokenizer)),
        added_len(*final(tokenizer)) <= added_len(*old(tokenizer)) + text_len(all_facts(tokens@)),
        added_to(*final(tokenizer)).subset_of(
            added_to(*old(tokenizer)).union(all_facts(tokens@).to_set()),
        ),
{
    let tokens: Vec<tokenizers::AddedToken> = tokens.iter().map(|t| {
        tokenizers::AddedToken::from(t.content.clone(), t.special)
            .lstrip(t.lstrip)
            .rstrip(t.rstrip)
            .single_word(t.single_word)
            .normalized(t.normalized)
    }).collect();
    tokenizer.add_tokens(&tokens);
}

/// `tokenizers::TokenizerImpl::token_to_id` gives the id that the tokenizer has for a
/// token.
#[verifier::external_body]
fn id_of(tokenizer: &tokenizers::Tokenizer, token: &str) -> (r: Option<u32>)
    ensures
        r == token_id(*tokenizer, token@),
{
    tokenizer.token_to_id(token)
}

/// Whether two characters of white space stand side by side.
pub open spec fn has_space_run(s: Seq<char>) -> bool {
    exists|i: int|
        0 <= i < s.len() - 1 && #[trigger] is_whitespace(s[i]) && is_whitespace(s[i + 1])
}

/// `tokenizers::TokenizerImpl::encode`, with or without special tokens around the text,
/// gives tokens and ids that its arguments decide, as long as the model drops no merges.
/// It stops with a panic where an added token starts behind its end. For that a token
/// that is white space alone has to lie within white space that another token took.
#[verifier::external_body]
fn encode(tokenizer: &tokenizers::Tokenizer, text: &str, special_around: bool) -> (r: Result<
    (Vec<String>, Vec<u32>),
    String,
>)
    requires
        drops_no_merges(*tokenizer),
        splits_forward(added_to(*tokenizer)) || !has_space_run(text@),
    ensures
        match r {
            Ok((tokens, ids)) => encoding(*tokenizer, text@, special_around) == Some(
                (texts(tokens@), ids@),
            ),
            Err(_) => encoding(*tokenizer, text@, special_around) is None,
        },
{
    let found = tokenizer.encode(text, special_around).map_err(|err| err.to_string())?;
    Ok((found.get_tokens().to_vec(), found.get_ids().to_vec()))
}

/// Why there is no tokenizer, or no encoding.
#[derive(Debug, Clone)]
pub enum TokenizerError {
    /// Vocabulary and merges do not fit.
    ModelRejected(String),
    /// The id of an added token is no number.
    InvalidTokenId(String),
    /// The text could not be encoded.
    EncodingFailed(String),
}

/// Whether a text is an id.
pub open spec fn is_id(text: Seq<char>) -> bool {
    number_of(text) is Some && number_of(text)->0 <= u32::MAX
}

/// The ids of added tokens by content. Of two entries for a content the later counts.
pub open spec fn configured_ids(added: Seq<(String, AddedTokenConfig)>) -> Map<Seq<char>, u32>
    decreases added.len(),
{
    if added.len() == 0 {
        Map::empty()
    } else {
        configured_ids(added.drop_last()).insert(
            added.last().1.content@,
            number_of(added.last().0@)->0 as u32,
        )
    }
}

/// The added tokens that are special, or those that are not.
pub open spec fn tokens_that_are(
    added: Seq<(String, AddedTokenConfig)>,
    special: bool,
) -> Seq<AddedTokenConfig>
    decreases added.len(),
{
    if added.len() == 0 {
        Seq::empty()
    } else {
        let rest = tokens_that_are(added.drop_last(), special);
        if added.last().1.special == special {
            rest.push(added.last().1)
        } else {
            rest
        }
    }
}

proof fn lemma_tokens_that_are_len(added: Seq<(String, AddedTokenConfig)>)
    ensures
        tokens_that_are(added, true).len() + tokens_that_are(added, false).len() == added.len(),
    decreases added.len(),
{
    if added.len() > 0 {
        lemma_tokens_that_are_len(added.drop_last());
    }
}

/// The number of characters of the added tokens of a configuration.
pub open spec fn config_text_len(added: Seq<(String, AddedTokenConfig)>) -> int
    decreases added.len(),
{
    if added.len() == 0 {
        0
    } else {
        config_text_len(added.drop_last()) + added.last().1.content@.len()
    }
}

proof fn lemma_text_of_lists(added: Seq<(String, AddedTokenConfig)>)
    ensures
        text_len(all_facts(tokens_that_are(added, true))) + text_len(
            all_facts(tokens_that_are(added, false)),
        ) == config_text_len(added),
        0 <= text_len(all_facts(tokens_that_are(added, true))),
        0 <= text_len(all_facts(tokens_that_are(added, false))),
    decreases added.len(),
{
    if added.len() > 0 {
        let last = added.last().1;
        let rest = tokens_that_are(added.drop_last(), last.special);
        lemma_text_of_lists(added.drop_last());
        assert(all_facts(rest.push(last)).drop_last() =~= all_facts(rest));
        assert(all_facts(rest.push(last)).last() == token_facts(last));
    } else {
        assert(all_facts(Seq::empty()) =~= Seq::empty());
    }
}

proof fn lemma_tokens_are_added(added: Seq<(String, AddedTokenConfig)>, special: bool, k: int) -> (i:
    int)
    requires
        0 <= k < tokens_that_are(added, special).len(),
    ensures
        0 <= i < added.len(),
        tokens_that_are(added, special)[k] == added[i].1,
    decreases added.len(),
{
    let rest = tokens_that_are(added.drop_last(), special);
    if k < rest.len() {
        lemma_tokens_are_added(added.drop_last(), special, k)
    } else {
        added.len() - 1
    }
}

/// Whether the added tokens of a configuration split a text from front to back.
pub open spec fn config_splits_forward(added: Seq<(String, AddedTokenConfig)>) -> bool {
    ||| forall|i: int| 0 <= i < added.len() ==> !(#[trigger] added[i]).1.lstrip
    ||| forall|i: int| 0 <= i < added.len() ==> !is_blank((#[trigger] added[i]).1.content@)
}

proof fn lemma_added_split_forward(
    added: Seq<(String, AddedTokenConfig)>,
    tokens: Set<(Seq<char>, bool, bool, bool, bool, bool)>,
)
    requires
        config_splits_forward(added),
        tokens.subset_of(
            all_facts(tokens_that_are(added, true)).to_set().union(
                all_facts(tokens_that_are(added, false)).to_set(),
            ),
        ),
    ensures
        splits_forward(tokens),
{
    let found = |t: (Seq<char>, bool, bool, bool, bool, bool)|
        exists|i: int| 0 <= i < added.len() && token_facts(#[trigger] added[i].1) == t;
    assert forall|t: (Seq<char>, bool, bool, bool, bool, bool)| #[trigger]
        tokens.contains(t) implies found(t) by {
        let special = all_facts(tokens_that_are(added, true)).contains(t);
        let list = tokens_that_are(added, special);
        assert(all_facts(list).contains(t));
        let k = choose|k: int| 0 <= k < list.len() && all_facts(list)[k] == t;
        let i = lemma_tokens_are_added(added, special, k);
        assert(token_facts(added[i].1) == t);
    }
}

fn is_blank_text(s: &str) -> (r: bool)
    ensures
        r == is_blank(s@),
{
    let v: Vec<char> = to_chars(s);
    let n: usize = v.len();
    for i in 0..n
        invariant
            n == v@.len(),
            v@ == s@,
            forall|k: int| 0 <= k < i ==> is_whitespace(#[trigger] v@[k]),
    {
        if !whitespace(v[i]) {
            return false;
        }
    }
    n > 0
}

/// Tells whether the added tokens of a configuration split a text from front to back.
pub fn added_tokens_split_forward(added: &[(String, AddedTokenConfig)]) -> (r: bool)
    ensures
        r == config_splits_forward(added@),
{
    let mut strips: bool = false;
    let mut blank: bool = false;
    for i in 0..added.len()
        invariant
            strips <==> exists|k: int| 0 <= k < i && (#[trigger] added@[k]).1.lstrip,
            blank <==> exists|k: int| 0 <= k < i && is_blank((#[trigger] added@[k]).1.content@),
    {
        let token: &AddedTokenConfig = &added[i].1;
        if token.lstrip {
            strips = true;
        }
        if is_blank_text(token.content.as_str()) {
            blank = true;
        }
        assert(token == added@[i as int].1);
    }
    !strips || !blank
}

fn copy_token(t: &AddedTokenConfig) -> (r: AddedTokenConfig)
    ensures
        token_facts(r) == token_facts(*t),
{
    AddedTokenConfig {
        content: copy_text(t.content.as_str()),
        lstrip: t.lstrip,
        normalized: t.normalized,
        rstrip: t.rstrip,
        single_word: t.single_word,
        special: t.special,
    }
}

/// What the configuration says of added tokens: their ids, the special ones, and the
/// others.
struct Configured {
    ids: StringHashMap<u32>,
    special: Vec<AddedTokenConfig>,
    normal: Vec<AddedTokenConfig>,
}

fn read_added_tokens(added: &[(String, AddedTokenConfig)]) -> (r: Result<Configured, TokenizerError>)
    ensures
        match r {
            Ok(c) => {
                &&& forall|i: int| 0 <= i < added@.len() ==> is_id((#[trigger] added@[i]).0@)
                &&& c.ids@ == configured_ids(added@)
                &&& all_facts(c.special@) == all_facts(tokens_that_are(added@, true))
                &&& all_facts(c.normal@) == all_facts(tokens_that_are(added@, false))
            },
            Err(e) => exists|i: int|
                0 <= i < added@.len() && !is_id((#[trigger] added@[i]).0@) && (forall|j: int|
                    0 <= j < i ==> is_id((#[trigger] added@[j]).0@)) && (e matches TokenizerError::InvalidTokenId(
                    text,
                ) && text@ == added@[i].0@),
        },
{
    let mut c = Configured {
        ids: StringHashMap::new(),
        special: Vec::new(),
        normal: Vec::new(),
    };
    assert(added@.take(0) =~= Seq::empty());
    assert(all_facts(Seq::empty()) =~= Seq::empty());
    for i in 0..added.len()
        invariant
            forall|j: int| 0 <= j < i ==> is_id((#[trigger] added@[j]).0@),
            c.ids@ == configured_ids(added@.take(i as int)),
            all_facts(c.special@) == all_facts(tokens_that_are(added@.take(i as int), true)),
            all_facts(c.normal@) == all_facts(tokens_that_are(added@.take(i as int), false)),
    {
        let entry: &(String, AddedTokenConfig) = &added[i];
        let id: u32 = match parse_number(entry.0.as_str()) {
            Some(n) => {
                if n > u32::MAX as u64 {
                    return Err(TokenizerError::InvalidTokenId(copy_text(entry.0.as_str())));
                }
                n as u32
            },
            None => {
                return Err(TokenizerError::InvalidTokenId(copy_text(entry.0.as_str())));
            },
        };
        let token = copy_token(&entry.1);
        proof {
            let longer = added@.take(i + 1);
            assert(longer.drop_last() =~= added@.take(i as int));
            assert(longer.last() == added@[i as int]);
        }
        c.ids.insert(copy_text(entry.1.content.as_str()), id);
        let ghost before = c;
        if entry.1.special {
            c.special.push(token);
            proof {
                let old_list = tokens_that_are(added@.take(i as int), true);
                assert(all_facts(c.special@) =~= all_facts(before.special@).push(
                    token_facts(token),
                ));
                assert(all_facts(old_list.push(entry.1)) =~= all_facts(old_list).push(
                    token_facts(entry.1),
                ));
            }
        } else {
            c.normal.push(token);
            proof {
                let old_list = tokens_that_are(added@.take(i as int), false);
                assert(all_facts(c.normal@) =~= all_facts(before.normal@).push(token_facts(token)));
                assert(all_facts(old_list.push(entry.1)) =~= all_facts(old_list).push(
                    token_facts(entry.1),
                ));
            }
        }
    }
    assert(added@.take(added@.len() as int) =~= added@);
    Ok(c)
}

/// The tokenizer of the model.
pub struct QwenTokenizer {
    tokenizer: tokenizers::Tokenizer,
    configured_added_token_ids: StringHashMap<u32>,
    forward: bool,
}

impl QwenTokenizer {
    /// The tokenizer that splits texts.
    pub closed spec fn splitter(self) -> tokenizers::Tokenizer {
        self.tokenizer
    }

    /// The ids of added tokens.
    pub closed spec fn configured(self) -> Map<Seq<char>, u32> {
        self.configured_added_token_ids@
    }

    #[verifier::type_invariant]
    spec fn well_formed(self) -> bool {
        drops_no_merges(self.tokenizer) && (self.forward ==> splits_forward(
            added_to(self.tokenizer),
        ))
    }

    /// Whether its added tokens split every text from front to back.
    pub closed spec fn is_forward(self) -> bool {
        self.forward
    }

    /// Whether its added tokens split a text from front to back.
    pub open spec fn can_encode(self, text: Seq<char>) -> bool {
        self.is_forward() || !has_space_run(text)
    }

    /// Tells whether the added tokens split a text from front to back.
    pub fn encodes(&self, text: &str) -> (r: bool)
        ensures
            r == self.can_encode(text@),
    {
        if self.forward {
            return true;
        }
        let v: Vec<char> = to_chars(text);
        let n: usize = v.len();
        let mut i: usize = 1;
        while i < n
            invariant
                1 <= i,
                n == v@.len(),
                v@ == text@,
                !self.is_forward(),
                forall|k: int|
                    0 <= k < i - 1 && k < n - 1 ==> !(#[trigger] is_whitespace(v@[k])
                        && is_whitespace(v@[k + 1])),
            decreases n - i,
        {
            if whitespace(v[i - 1]) && whitespace(v[i]) {
                assert(is_whitespace(text@[i - 1]) && is_whitespace(text@[i - 1 + 1]));
                return false;
            }
            i = i + 1;
        }
        true
    }

    /// The id of a token: the configured one, or else the one of the vocabulary.
    pub fn token_to_id(&self, token: &str) -> (r: Option<u32>)
        ensures
            r == (if self.configured().contains_key(token@) {
                Some(self.configured()[token@])
            } else {
                token_id(self.splitter(), token@)
            }),
    {
        match self.configured_added_token_ids.get(token) {
            Some(id) => Some(*id),
            None => id_of(&self.tokenizer, token),
        }
    }
}

/// Makes the tokenizer of a model out of its vocabulary, its merges and its added
/// tokens, each with its id.
pub fn load_qwen_tokenizer(
    vocabulary: Vec<(String, u32)>,
    merges: Vec<(String, String)>,
    added: &[(String, AddedTokenConfig)],
) -> (r: Result<QwenTokenizer, TokenizerError>)
    requires
        vocabulary@.len() + added@.len() < u32::MAX,
        forall|i: int|
            0 <= i < vocabulary@.len() ==> (#[trigger] vocabulary@[i]).1 + 1 + added@.len()
                < u32::MAX,
        config_text_len(added@) <= ADDED_TEXT_LIMIT,
    ensures
        ({
            let words = vocabulary_of(vocabulary@);
            match r {
                Ok(t) => {
                    &&& merges_are_known(words, merge_sides(merges@))
                    &&& forall|i: int| 0 <= i < added@.len() ==> is_id((#[trigger] added@[i]).0@)
                    &&& t.configured() == configured_ids(added@)
                    &&& t.is_forward() == config_splits_forward(added@)
                    &&& ids_are_distinct(words) ==> t.splitter() == with_tokens(
                        with_special_tokens(
                            byte_level_tokenizer(words, merge_sides(merges@), false),
                            all_facts(tokens_that_are(added@, true)),
                        ),
                        all_facts(tokens_that_are(added@, false)),
                    )
                    &&& forall|s: Seq<char>|
                        words.contains_key(s) ==> #[trigger] token_id(t.splitter(), s) == Some(
                            words[s],
                        )
                },
                Err(TokenizerError::ModelRejected(_)) => !merges_are_known(
                    words,
                    merge_sides(merges@),
                ),
                Err(TokenizerError::InvalidTokenId(text)) => merges_are_known(
                    words,
                    merge_sides(merges@),
                ) && exists|i: int|
                    0 <= i < added@.len() && !is_id((#[trigger] added@[i]).0@) && (forall|j: int|
                        0 <= j < i ==> is_id((#[trigger] added@[j]).0@)) && text@ == added@[i].0@,
                Err(TokenizerError::EncodingFailed(_)) => false,
            }
        }),
{
    let ghost limit: int = u32::MAX - added@.len() - 1;
    let mut tokenizer = match new_byte_level_tokenizer(vocabulary, merges, false) {
        Ok(t) => t,
        Err(text) => {
            return Err(TokenizerError::ModelRejected(text));
        },
    };
    let ghost base = tokenizer;
    assert(ids_lie_below(vocabulary@, limit));
    let c = match read_added_tokens(added) {
        Ok(c) => c,
        Err(e) => {
            return Err(e);
        },
    };
    proof {
        lemma_tokens_that_are_len(added@);
        lemma_text_of_lists(added@);
        assert(all_facts(c.special@).len() == c.special@.len());
        assert(all_facts(c.normal@).len() == c.normal@.len());
        assert(c.special@.len() == tokens_that_are(added@, true).len());
        assert(c.normal@.len() == tokens_that_are(added@, false).len());
    }
    let forward: bool = added_tokens_split_forward(added);
    add_special_tokens(&mut tokenizer, &c.special);
    let ghost middle = tokenizer;
    add_tokens(&mut tokenizer, &c.normal);
    proof {
        if forward {
            lemma_added_split_forward(added@, added_to(tokenizer));
        }
        let words = vocabulary_of(vocabulary@);
        assert forall|s: Seq<char>| words.contains_key(s) implies #[trigger] token_id(tokenizer, s)
            == Some(words[s]) by {
            assert(token_id(base, s) == entry(words, s));
            assert(token_id(middle, s) == token_id(base, s));
        }
    }
    Ok(QwenTokenizer { tokenizer, configured_added_token_ids: c.ids, forward })
}

/// The id of a token that the tokenizer found: the configured one, if there is one.
pub open spec fn settled_id(configured: Map<Seq<char>, u32>, token: Seq<char>, id: u32) -> u32 {
    if configured.contains_key(token) {
        configured[token]
    } else {
        id
    }
}

/// The ids of the tokens that the tokenizer found. Where there are more tokens than
/// ids, or more ids than tokens, the surplus does not count.
pub open spec fn settled_ids(
    configured: Map<Seq<char>, u32>,
    tokens: Seq<Seq<char>>,
    ids: Seq<u32>,
) -> Seq<u32> {
    Seq::new(
        (if tokens.len() <= ids.len() {
            tokens.len()
        } else {
            ids.len()
        }),
        |i: int| settled_id(configured, tokens[i], ids[i]),
    )
}

impl QwenTokenizer {
    /// Settles the ids of the tokens that the tokenizer found.
    pub fn settle_ids(&self, tokens: &[String], ids: &[u32]) -> (out: Vec<u32>)
        ensures
            out@ == settled_ids(self.configured(), texts(tokens@), ids@),
    {
        let n: usize = if tokens.len() <= ids.len() {
            tokens.len()
        } else {
            ids.len()
        };
        let ghost all = settled_ids(self.configured(), texts(tokens@), ids@);
        let mut out: Vec<u32> = Vec::new();
        for i in 0..n
            invariant
                n == all.len(),
                n <= tokens@.len(),
                n <= ids@.len(),
                all == settled_ids(self.configured(), texts(tokens@), ids@),
                out@ == all.take(i as int),
        {
            let id: u32 = match self.configured_added_token_ids.get(tokens[i].as_str()) {
                Some(id) => *id,
                None => ids[i],
            };
            assert(texts(tokens@)[i as int] == tokens@[i as int]@);
            assert(all.take(i + 1) =~= all.take(i as int).push(all[i as int]));
            out.push(id);
        }
        assert(all.take(n as int) =~= all);
        out
    }
}

/// The token ids of a text.
pub fn encode_to_ids(tokenizer: &QwenTokenizer, text: &str) -> (r: Result<Vec<u32>, TokenizerError>)
    requires
        tokenizer.can_encode(text@),
    ensures
        match r {
            Ok(out) => encoding(tokenizer.splitter(), text@, false) matches Some(found) && out@
                == settled_ids(tokenizer.configured(), found.0, found.1),
            Err(e) => e is EncodingFailed && encoding(tokenizer.splitter(), text@, false) is None,
        },
{
    proof {
        use_type_invariant(tokenizer);
    }
    match encode(&tokenizer.tokenizer, text, false) {
        Ok((tokens, ids)) => Ok(tokenizer.settle_ids(&tokens, &ids)),
        Err(text) => Err(TokenizerError::EncodingFailed(text)),
    }
}

/// The configured ids of added tokens are kept: an added token has the id of its last
/// entry, whatever the vocabulary says, and where the tokenizer finds the token in a
/// text, the text has that id there.
pub proof fn lemma_configured_ids_are_kept(
    added: Seq<(String, AddedTokenConfig)>,
    i: int,
    tokens: Seq<Seq<char>>,
    ids: Seq<u32>,
    k: int,
)
    requires
        0 <= i < added.len(),
        forall|j: int|
            i < j < added.len() ==> (#[trigger] added[j]).1.content@ != added[i].1.content@,
    ensures
        configured_ids(added).contains_key(added[i].1.content@),
        configured_ids(added)[added[i].1.content@] == number_of(added[i].0@)->0 as u32,
        0 <= k < tokens.len() && k < ids.len() && tokens[k] == added[i].1.content@ ==> settled_ids(
            configured_ids(added),
            tokens,
            ids,
        )[k] == number_of(added[i].0@)->0 as u32,
    decreases added.len(),
{
    if i < added.len() - 1 {
        let shorter = added.drop_last();
        assert(added.last() == added[added.len() - 1]);
        assert(shorter[i] == added[i]);
        assert forall|j: int| i < j < shorter.len() implies (#[trigger] shorter[j]).1.content@
            != shorter[i].1.content@ by {
            assert(shorter[j] == added[j]);
        }
        lemma_configured_ids_are_kept(shorter, i, tokens, ids, k);
    }
}

/// A text has a configured id only where an added token has it as its content, and every
/// id of another token stays as it is.
pub proof fn lemma_other_ids_stay(
    added: Seq<(String, AddedTokenConfig)>,
    tokens: Seq<Seq<char>>,
    ids: Seq<u32>,
    k: int,
)
    requires
        0 <= k < tokens.len(),
        k < ids.len(),
        forall|i: int| 0 <= i < added.len() ==> (#[trigger] added[i]).1.content@ != tokens[k],
    ensures
        !configured_ids(added).contains_key(tokens[k]),
        settled_ids(configured_ids(added), tokens, ids)[k] == ids[k],
        settled_ids(configured_ids(added), tokens, ids).len() <= tokens.len(),
        tokens.len() == ids.len() ==> settled_ids(configured_ids(added), tokens, ids).len()
            == ids.len(),
    decreases added.len(),
{
    if added.len() > 0 {
        let shorter = added.drop_last();
        assert(added.last() == added[added.len() - 1]);
        assert forall|i: int| 0 <= i < shorter.len() implies (#[trigger] shorter[i]).1.content@
            != tokens[k] by {
            assert(shorter[i] == added[i]);
        }
        lemma_other_ids_stay(shorter, tokens, ids, k);
    }
}

/// A word has the id that its last entry gives it.
pub proof fn lemma_last_entry_counts(v: Seq<(String, u32)>, i: int)
    requires
        0 <= i < v.len(),
        forall|j: int| i < j < v.len() ==> (#[trigger] v[j]).0@ != v[i].0@,
    ensures
        vocabulary_of(v).contains_key(v[i].0@),
        vocabulary_of(v)[v[i].0@] == v[i].1,
    decreases v.len(),
{
    if i < v.len() - 1 {
        let shorter = v.drop_last();
        assert(v.last() == v[v.len() - 1]);
        assert(shorter[i] == v[i]);
        assert forall|j: int| i < j < shorter.len() implies (#[trigger] shorter[j]).0@
            != shorter[i].0@ by {
            assert(shorter[j] == v[j]);
        }
        lemma_last_entry_counts(shorter, i);
    }
}

/// A word without an entry has no id.
pub proof fn lemma_no_entry_no_id(v: Seq<(String, u32)>, word: Seq<char>)
    requires
        forall|i: int| 0 <= i < v.len() ==> (#[trigger] v[i]).0@ != word,
    ensures
        !vocabulary_of(v).contains_key(word),
    decreases v.len(),
{
    if v.len() > 0 {
        let shorter = v.drop_last();
        assert(v.last() == v[v.len() - 1]);
        assert forall|i: int| 0 <= i < shorter.len() implies (#[trigger] shorter[i]).0@ != word by {
            assert(shorter[i] == v[i]);
        }
        lemma_no_entry_no_id(shorter, word);
    }
}

/// The special tokens and the others are each handed on in the order of the configuration,
/// and none is lost.
pub proof fn lemma_tokens_keep_their_order(added: Seq<(String, AddedTokenConfig)>, special: bool)
    ensures
        tokens_that_are(added, special) == added.map_values(
            |t: (String, AddedTokenConfig)| t.1,
        ).filter(|t: AddedTokenConfig| t.special == special),
        tokens_that_are(added, true).len() + tokens_that_are(added, false).len() == added.len(),
    decreases added.len(),
{
    reveal(Seq::filter);
    let f = |t: (String, AddedTokenConfig)| t.1;
    if added.len() > 0 {
        lemma_tokens_keep_their_order(added.drop_last(), special);
        assert(added.map_values(f).drop_last() =~= added.drop_last().map_values(f));
        assert(added.map_values(f).last() == added.last().1);
    }
}

} // verus!

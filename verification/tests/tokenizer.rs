use qwen_forced_aligner::tokenizer::{
    added_tokens_split_forward, encode_to_ids, load_qwen_tokenizer, AddedTokenConfig,
    QwenTokenizer, TokenizerError,
};

fn added(id: &str, content: &str, special: bool) -> (String, AddedTokenConfig) {
    let token = AddedTokenConfig {
        content: content.to_string(),
        lstrip: false,
        normalized: false,
        rstrip: false,
        single_word: false,
        special,
    };
    (id.to_string(), token)
}

fn vocabulary() -> Vec<(String, u32)> {
    vec![("a".to_string(), 0), ("b".to_string(), 1), ("ab".to_string(), 2), ("Ġ".to_string(), 3)]
}

fn pair(a: &str, b: &str) -> (String, String) {
    (a.to_string(), b.to_string())
}

fn qwen() -> QwenTokenizer {
    let tokens = [
        added("151669", "<|audio_start|>", true),
        added("151670", "<|audio_end|>", true),
        added("151676", "<|audio_pad|>", true),
        added("151705", "<timestamp>", false),
    ];
    load_qwen_tokenizer(vocabulary(), vec![pair("a", "b")], &tokens).unwrap()
}

#[test]
fn special_token_ids_are_preserved() {
    let tokenizer = qwen();
    assert_eq!(tokenizer.token_to_id("<|audio_start|>"), Some(151669));
    assert_eq!(tokenizer.token_to_id("<|audio_end|>"), Some(151670));
    assert_eq!(tokenizer.token_to_id("<|audio_pad|>"), Some(151676));
    assert_eq!(tokenizer.token_to_id("<timestamp>"), Some(151705));
}

#[test]
fn tokens_of_the_vocabulary_have_ids() {
    let tokenizer = qwen();
    assert_eq!(tokenizer.token_to_id("ab"), Some(2));
    assert_eq!(tokenizer.token_to_id("ba"), None);
}

#[test]
fn texts_become_ids() {
    let tokenizer = qwen();
    assert_eq!(encode_to_ids(&tokenizer, "abba").unwrap(), vec![2, 1, 0]);
    assert_eq!(
        encode_to_ids(&tokenizer, "<|audio_start|><|audio_pad|><|audio_end|>ab<timestamp>b").unwrap(),
        vec![151669, 151676, 151670, 2, 151705, 1]
    );
    // A space in front of a word is a character of its own; none is added in front.
    assert_eq!(encode_to_ids(&tokenizer, "ab ab").unwrap(), vec![2, 3, 2]);
    assert_eq!(encode_to_ids(&tokenizer, "").unwrap(), Vec::<u32>::new());
}

#[test]
fn configured_ids_count_before_those_of_the_vocabulary() {
    let tokens = [added("7", "ab", false), added("9", "<x>", true), added("8", "ab", false)];
    let tokenizer = load_qwen_tokenizer(vocabulary(), vec![], &tokens).unwrap();
    assert_eq!(tokenizer.token_to_id("ab"), Some(8));
    assert_eq!(encode_to_ids(&tokenizer, "<x>aab").unwrap(), vec![9, 0, 8]);
}

#[test]
fn surplus_tokens_or_ids_do_not_count() {
    let tokenizer = qwen();
    let tokens = ["a".to_string(), "<timestamp>".to_string()];
    assert_eq!(tokenizer.settle_ids(&tokens, &[0, 4, 5]), vec![0, 151705]);
    assert_eq!(tokenizer.settle_ids(&tokens, &[3]), vec![3]);
}

#[test]
fn merges_of_unknown_tokens_are_rejected() {
    let merges = vec![pair("a", "c")];
    let r = load_qwen_tokenizer(vocabulary(), merges, &[]);
    assert!(matches!(r, Err(TokenizerError::ModelRejected(_))));
    let r = load_qwen_tokenizer(vocabulary(), vec![pair("b", "a")], &[added("x", "y", true)]);
    assert!(matches!(r, Err(TokenizerError::ModelRejected(_))));
}

#[test]
fn ids_must_be_numbers() {
    for id in ["", "x1", "1.5", "-1", "4294967296"] {
        let tokens = [added("5", "<a>", true), added(id, "<b>", true), added("y", "<c>", true)];
        match load_qwen_tokenizer(vocabulary(), vec![], &tokens) {
            Err(TokenizerError::InvalidTokenId(text)) => assert_eq!(text, id),
            _ => panic!("{} is no id", id),
        }
    }
    let tokens = [added("4294967295", "<a>", true)];
    let tokenizer = load_qwen_tokenizer(vocabulary(), vec![], &tokens).unwrap();
    assert_eq!(tokenizer.token_to_id("<a>"), Some(4294967295));
}

#[test]
fn tokens_take_white_space_beside_them() {
    let mut wide = added("9", "<x>", true);
    wide.1.lstrip = true;
    wide.1.rstrip = true;
    let tokens = [wide];
    assert!(added_tokens_split_forward(&tokens));
    let tokenizer = load_qwen_tokenizer(vocabulary(), vec![], &tokens).unwrap();
    // With white space around it, the token is not the configured one.
    assert_eq!(encode_to_ids(&tokenizer, "a<x>b").unwrap(), vec![0, 9, 1]);
    assert_eq!(encode_to_ids(&tokenizer, "a  <x>  b").unwrap(), vec![0, 4, 1]);

    let mut right = added("9", "a", true);
    right.1.rstrip = true;
    let tokens = [right, added("10", " ", true)];
    assert!(added_tokens_split_forward(&tokens));
    let tokenizer = load_qwen_tokenizer(vocabulary(), vec![], &tokens).unwrap();
    assert!(encode_to_ids(&tokenizer, "a   b").is_ok());
}

#[test]
fn white_space_that_takes_white_space_splits_backwards() {
    let mut left = added("9", "<x>", true);
    left.1.lstrip = true;
    let space = added("10", " \t", true);
    assert!(added_tokens_split_forward(&[left.clone()]));
    assert!(added_tokens_split_forward(&[space.clone(), added("11", "", true)]));
    assert!(!added_tokens_split_forward(&[left, space.clone()]));
    let mut both = space;
    both.1.lstrip = true;
    assert!(!added_tokens_split_forward(&[both]));
    assert!(added_tokens_split_forward(&[]));
}

#[test]
fn texts_without_runs_of_white_space_are_encoded() {
    let mut right = added("9", "a", true);
    right.1.rstrip = true;
    let mut space = added("10", " ", true);
    space.1.lstrip = true;
    let tokens = [right, space];
    assert!(!added_tokens_split_forward(&tokens));
    let tokenizer = load_qwen_tokenizer(vocabulary(), vec![], &tokens).unwrap();
    assert!(tokenizer.encodes("a b") && tokenizer.encodes("") && tokenizer.encodes(" "));
    assert!(!tokenizer.encodes("a   b"));
    for text in ["a b", " a", "a ", "b b", "a a a", ""] {
        assert!(encode_to_ids(&tokenizer, text).is_ok());
    }
    assert!(qwen().encodes("a   b"));
}

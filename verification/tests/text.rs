use lindera::dictionary::{Dictionary, Metadata};
use lindera_dictionary::dictionary::character_definition::{
    CategoryData, CategoryId, CharacterDefinition, LookupTable,
};
use lindera_dictionary::dictionary::connection_cost_matrix::ConnectionCostMatrix;
use lindera_dictionary::dictionary::prefix_dictionary::PrefixDictionary;
use lindera_dictionary::dictionary::unknown_dictionary::UnknownDictionary;
use lindera_dictionary::viterbi::{LexType, WordEntry, WordId};
use qwen_forced_aligner::text::{
    build_aligner_input, clean_surfaces, clean_token, encode_timestamp, encode_words, is_cjk_char,
    japanese_dictionary_uri, japanese_tokenizer_from, korean_scores, load_japanese_tokenizer,
    split_korean_lr, split_segment_with_chinese, splitting, tokenize_japanese, tokenize_korean,
    tokenize_space_lang, JapaneseTokenizer, Splitting, TextError, TextResources,
};

/// A segmenter for a list of words, each with its cost. A character outside of the
/// words costs more than any of them.
fn segmenter(words: &[(&str, i16)]) -> JapaneseTokenizer {
    JapaneseTokenizer::new(dictionary(words))
}

fn dictionary(words: &[(&str, i16)]) -> Dictionary {
    let mut words = words.to_vec();
    words.sort();
    let mut keys: Vec<(String, u32)> = Vec::new();
    let mut values: Vec<u8> = Vec::new();
    let mut places: Vec<u8> = Vec::new();
    let mut details: Vec<u8> = Vec::new();
    for (i, (word, cost)) in words.iter().enumerate() {
        keys.push((word.to_string(), (i as u32) << 5 | 1));
        values.extend((i as u32).to_le_bytes());
        values.extend(cost.to_le_bytes());
        values.extend([0u8; 4]);
        places.extend((details.len() as u32).to_le_bytes());
        details.extend([0u8; 4]);
    }
    let automaton: daachorse::DoubleArrayAhoCorasick<u32> =
        daachorse::DoubleArrayAhoCorasickBuilder::new().build_with_values(keys).unwrap();
    let unknown = WordEntry {
        word_id: WordId::new(LexType::Unknown, 0),
        word_cost: 20000,
        left_id: 0,
        right_id: 0,
    };
    Dictionary {
        prefix_dictionary: PrefixDictionary::load(
            automaton.serialize(),
            values,
            places,
            details,
            true,
        ),
        connection_cost_matrix: ConnectionCostMatrix {
            costs_data: vec![0],
            backward_size: 1,
            forward_size: 1,
        },
        character_definition: CharacterDefinition {
            category_definitions: vec![CategoryData { invoke: false, group: false, length: 0 }],
            category_names: vec!["DEFAULT".to_string()],
            mapping: LookupTable::from_fn(vec![0], &|_, out| out.push(CategoryId(0))),
        },
        unknown_dictionary: UnknownDictionary {
            category_references: vec![vec![0]],
            costs: vec![unknown],
            words_idx_data: vec![0],
            words_data: vec![0; 4],
        },
        metadata: Metadata::default(),
    }
}

fn resources() -> TextResources {
    let japanese = segmenter(&[
        ("女", 900),
        ("女子", 500),
        ("アナ", 500),
        ("の", 100),
        ("仕", 900),
        ("仕事", 500),
        ("に", 100),
        ("耐える", 500),
        ("辛抱", 500),
        ("大", 900),
        ("大工", 500),
        ("で", 300),
        ("です", 100),
        ("本日", 500),
        ("は", 100),
        ("島", 900),
        ("島根", 500),
        ("県", 400),
        ("ある", 300),
        ("有名", 500),
        ("な", 100),
        ("人気", 500),
        ("人", 900),
        ("ラーメン", 500),
        ("店", 400),
        ("やってき", 500),
        ("まし", 200),
        ("た", 100),
    ]);
    TextResources { korean: korean_scores("안녕 1\n학교 1\n"), japanese: Some(japanese) }
}

fn without_japanese() -> TextResources {
    TextResources { korean: korean_scores(""), japanese: None }
}

#[test]
fn english_timestamp_text_matches_python_shape() {
    let (words, input) =
        encode_timestamp("All right, we purse.", "English", &resources()).unwrap();
    assert_eq!(words, vec!["All", "right", "we", "purse"]);
    assert_eq!(
        input,
        "<|audio_start|><|audio_pad|><|audio_end|>All<timestamp><timestamp>right<timestamp><timestamp>we<timestamp><timestamp>purse<timestamp><timestamp>"
    );
}

#[test]
fn keeps_apostrophe_and_splits_cjk_inside_space_language() {
    let (words, _) = encode_timestamp("don't ABC中国 123.", "English", &resources()).unwrap();
    assert_eq!(words, vec!["don't", "ABC", "中", "国", "123"]);
}

#[test]
fn japanese_timestamp_text_handles_basic_lindera_tokens() {
    let (words, _) =
        encode_timestamp("女子アナの仕事に耐える。辛抱大工です。", "Japanese", &resources())
            .unwrap();
    assert_eq!(
        words,
        vec!["女子", "アナ", "の", "仕事", "に", "耐える", "辛抱", "大工", "です"]
    );
}

#[test]
fn japanese_timestamp_text_uses_lindera_ipadic_boundaries() {
    let (words, _) = encode_timestamp(
        "本日は島根県にある有名な人気ラーメン店にやってきました。",
        "Japanese",
        &resources(),
    )
    .unwrap();
    assert_eq!(
        words,
        vec![
            "本日",
            "は",
            "島根",
            "県",
            "に",
            "ある",
            "有名",
            "な",
            "人気",
            "ラーメン",
            "店",
            "に",
            "やってき",
            "まし",
            "た"
        ]
    );
}

#[test]
fn korean_timestamp_text_matches_soynlp_ltokenizer_reference() {
    let (words, _) =
        encode_timestamp("안녕하세요 여러분 나는 학교에 간다", "Korean", &resources()).unwrap();
    assert_eq!(words, vec!["안녕", "하세요", "여러분", "나는", "학교", "에", "간다"]);
}

#[test]
fn names_of_languages_in_any_case() {
    assert_eq!(splitting("japanese"), Splitting::Japanese);
    assert_eq!(splitting("korean"), Splitting::Korean);
    assert_eq!(splitting("english"), Splitting::Spaces);
    assert_eq!(splitting("Japanese"), Splitting::Spaces);
    let (words, _) = encode_timestamp("안녕하세요", "KOREAN", &resources()).unwrap();
    assert_eq!(words, vec!["안녕", "하세요"]);
    let (words, _) = encode_timestamp("안녕하세요", "Chinese", &resources()).unwrap();
    assert_eq!(words, vec!["안녕하세요"]);
}

#[test]
fn japanese_needs_a_dictionary() {
    let found = encode_timestamp("女子", "Japanese", &without_japanese());
    assert_eq!(found.err(), Some(TextError::DictionaryUnavailable));
    match load_japanese_tokenizer() {
        Ok(tokenizer) => assert_eq!(tokenize_japanese("大工です。", &tokenizer).unwrap().len(), 2),
        Err(e) => assert_eq!(e, TextError::DictionaryUnavailable),
    }
}

#[test]
fn dictionaries_make_segmenters() {
    assert_eq!(japanese_dictionary_uri(), "embedded://ipadic");
    let found = Ok(dictionary(&[("です", 100), ("大工", 500)]));
    let tokenizer = japanese_tokenizer_from(found).ok().unwrap();
    assert_eq!(tokenize_japanese("大工です", &tokenizer).unwrap(), vec!["大工", "です"]);
    let missing = lindera::dictionary::load_dictionary("nowhere://ipadic");
    assert_eq!(japanese_tokenizer_from(missing).err(), Some(TextError::DictionaryUnavailable));
}

#[test]
fn japanese_words_without_punctuation() {
    let tokenizer = segmenter(&[("です", 100), ("大工", 500)]);
    let words = tokenize_japanese("大工です、大工。", &tokenizer).unwrap();
    assert_eq!(words, vec!["大工", "です", "大工"]);
    let forms = vec!["、".to_string(), "a-b".to_string(), String::new()];
    assert_eq!(clean_surfaces(&forms), vec!["ab"]);
}

#[test]
fn words_of_an_empty_text() {
    let (words, input) = encode_words(" .!? ", Splitting::Spaces, &without_japanese()).unwrap();
    assert!(words.is_empty());
    assert_eq!(input, "<|audio_start|><|audio_pad|><|audio_end|>");
    assert_eq!(build_aligner_input(&words), input);
}

#[test]
fn cleaning_keeps_letters_digits_and_apostrophes() {
    assert_eq!(clean_token("\"it's\" 5%—é"), "it's5é");
    assert_eq!(clean_token("..."), "");
}

#[test]
fn ideographs_stand_alone() {
    assert!(is_cjk_char('中'));
    assert!(is_cjk_char('\u{3400}'));
    assert!(is_cjk_char('\u{f900}'));
    assert!(!is_cjk_char('あ'));
    assert!(!is_cjk_char('a'));
    assert_eq!(split_segment_with_chinese("a中国bc"), vec!["a", "中", "国", "bc"]);
    assert!(split_segment_with_chinese("").is_empty());
}

#[test]
fn spaces_of_any_kind_separate_words() {
    assert_eq!(
        tokenize_space_lang("one\ttwo\u{3000}three\n four"),
        vec!["one", "two", "three", "four"]
    );
}

#[test]
fn spaced_words_keep_the_text() {
    let text = "It's 3中 o'clock — 国家, d'accord?";
    let joined: String = tokenize_space_lang(text).concat();
    let kept: String = text.chars().filter(|c| c.is_alphanumeric() || *c == '\'').collect();
    assert_eq!(joined, kept);
}

#[test]
fn texts_split_apart_at_a_space() {
    let scores = korean_scores("학교 1\n");
    for (a, b) in [("don't", "ABC中国 1."), ("", "x"), ("a ", ""), ("!", "학교에"), ("학교에", " 간다")] {
        let whole = format!("{} {}", a, b);
        let parts = [tokenize_space_lang(a), tokenize_space_lang(b)].concat();
        assert_eq!(tokenize_space_lang(&whole), parts);
        let parts = [tokenize_korean(a, &scores), tokenize_korean(b, &scores)].concat();
        assert_eq!(tokenize_korean(&whole, &scores), parts);
    }
}

#[test]
fn inputs_have_no_white_space() {
    for language in ["English", "Korean"] {
        let text = "one  two\t학교에\u{3000}中 国";
        let (_, input) = encode_timestamp(text, language, &resources()).unwrap();
        assert!(!input.chars().any(char::is_whitespace));
    }
}

#[test]
fn joined_words_split_into_themselves() {
    for text in ["All right, we purse.", "don't ABC中国 123.", "", "—", "中国a中"] {
        let words = tokenize_space_lang(text);
        assert_eq!(tokenize_space_lang(&words.join(" ")), words);
    }
}

#[test]
fn korean_words_keep_the_text() {
    let scores = korean_scores("학교 1\n학 2\n");
    let text = "학교에 간다, 학생!";
    let words = tokenize_korean(text, &scores);
    assert_eq!(words, vec!["학교", "에", "간다", "학생"]);
    let kept: String = text.chars().filter(|c| c.is_alphanumeric()).collect();
    assert_eq!(words.concat(), kept);
}

#[test]
fn korean_prefers_the_longest_known_start() {
    let scores = korean_scores("학 1\n학교 1\n\n  \n");
    assert_eq!(split_korean_lr("학교에", &scores), ("학교".to_string(), "에".to_string()));
    assert_eq!(split_korean_lr("하늘", &scores), ("하늘".to_string(), String::new()));
    assert_eq!(split_korean_lr("", &scores), (String::new(), String::new()));
}

#[test]
fn white_space_is_what_the_standard_library_says() {
    for u in 0..=0x10ffffu32 {
        if let Some(c) = char::from_u32(u) {
            assert_eq!(qwen_forced_aligner::chars::whitespace(c), c.is_whitespace(), "{:x}", u);
        }
    }
}

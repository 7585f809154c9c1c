use qwen_forced_aligner::backend::DeviceRequest;
use qwen_forced_aligner::config::{AlignerConfig, AudioConfig, TextConfig, ThinkerConfig};
use qwen_forced_aligner::inference::{
    argmax_rows, check_audio_tokens, merge_embeddings, plan_audio, text_positions,
    timestamp_ids_to_run, AlignError, ModelOptions, Qwen3ForcedAligner, CACHE_MARGIN,
};
use qwen_forced_aligner::prompt::PromptError;
use qwen_forced_aligner::tensor::CpuWeight;
use qwen_forced_aligner::text::{korean_scores, TextError, TextResources};
use qwen_forced_aligner::tokenizer::{load_qwen_tokenizer, AddedTokenConfig};

fn bits(values: &[f32]) -> Vec<u32> {
    values.iter().map(|v| v.to_bits()).collect()
}

fn config() -> AlignerConfig {
    AlignerConfig {
        timestamp_token_id: 151705,
        timestamp_segment_time: 80.0f32.to_bits(),
        thinker_config: ThinkerConfig {
            classify_num: 4,
            audio_start_token_id: 151669,
            audio_end_token_id: 151670,
            audio_token_id: 151676,
            audio_config: AudioConfig {
                d_model: 4,
                downsample_hidden_size: 2,
                encoder_attention_heads: 2,
                encoder_ffn_dim: 6,
                encoder_layers: 0,
                num_mel_bins: 128,
                max_source_positions: 1500,
                n_window: 50,
                n_window_infer: 400,
                output_dim: 4,
            },
            text_config: TextConfig {
                vocab_size: 5,
                hidden_size: 4,
                intermediate_size: 3,
                num_hidden_layers: 0,
                num_attention_heads: 2,
                num_key_value_heads: 1,
                head_dim: 2,
                rms_norm_eps: 1e-6f64.to_bits(),
                rope_theta: 1e6f64.to_bits(),
                max_position_embeddings: 64,
                rope_scaling: None,
            },
        },
    }
}

fn aligner() -> Qwen3ForcedAligner {
    let token = |content: &str| AddedTokenConfig {
        content: content.to_string(),
        lstrip: false,
        normalized: false,
        rstrip: false,
        single_word: false,
        special: true,
    };
    let added = [
        ("151669".to_string(), token("<|audio_start|>")),
        ("151670".to_string(), token("<|audio_end|>")),
        ("151676".to_string(), token("<|audio_pad|>")),
        ("151705".to_string(), token("<timestamp>")),
    ];
    let vocabulary: Vec<(String, u32)> =
        ["a", "b", "c"].iter().enumerate().map(|(i, s)| (s.to_string(), i as u32)).collect();
    Qwen3ForcedAligner {
        config: config(),
        tokenizer: load_qwen_tokenizer(vocabulary, vec![], &added).unwrap(),
        resources: TextResources { korean: korean_scores(""), japanese: None },
    }
}

#[test]
fn best_scores_of_rows() {
    let values = bits(&[0.5, 2.0, -1.0, 3.0, 3.0, 1.0, 7.0]);
    assert_eq!(argmax_rows(&values, 3), vec![1, 0, 0]);
    assert_eq!(argmax_rows(&[], 3), Vec::<i64>::new());
}

#[test]
fn steps_become_times() {
    let words = ["one".to_string(), "two".to_string()];
    let run = timestamp_ids_to_run(&words, &[1, 5, 4, 10], 80.0f32.to_bits()).unwrap();
    assert_eq!((run.len(), run.is_empty()), (2, false));
    assert_eq!(run.output_ids, vec![1, 5, 4, 10]);
    assert_eq!(run.raw_timestamp_ms, vec![80, 400, 320, 800]);
    assert!(run.fixed_timestamp_ms.windows(2).all(|w| w[0] <= w[1]));
    let times: Vec<(f64, f64)> = run
        .items
        .iter()
        .map(|i| (f64::from_bits(i.start_time), f64::from_bits(i.end_time)))
        .collect();
    let expected: Vec<f64> = run.fixed_timestamp_ms.iter().map(|t| *t as f64 / 1000.0).collect();
    assert_eq!(times, vec![(expected[0], expected[1]), (expected[2], expected[3])]);
    assert_eq!(run.items[1].text, "two");
    assert_eq!(times[0].0, 0.08);
}

#[test]
fn words_come_in_order_at_any_step() {
    let words: Vec<String> = ["a", "b", "c"].iter().map(|w| w.to_string()).collect();
    for step in [80.0f32, 0.1, 3.7e13, 9.0e17, 1.0e30, f32::INFINITY, 0.0, f32::NAN] {
        for ids in [[0, 9, 1, 2, 3, 10], [7, 3, 2, 1, 0, 7], [1, 8, 7, 6, 5, 9]] {
            let run = timestamp_ids_to_run(&words, &ids, step.to_bits()).unwrap();
            assert!(run.fixed_timestamp_ms.windows(2).all(|w| w[0] <= w[1]));
            let times: Vec<f64> = run
                .items
                .iter()
                .flat_map(|i| [f64::from_bits(i.start_time), f64::from_bits(i.end_time)])
                .collect();
            assert!(times.windows(2).all(|w| w[0] <= w[1]));
        }
    }
}

#[test]
fn every_word_has_a_start_and_an_end() {
    let words = ["one".to_string()];
    match timestamp_ids_to_run(&words, &[1, 2, 3], 80.0f32.to_bits()) {
        Err(AlignError::TimestampMismatch { words, timestamps }) => {
            assert_eq!((words, timestamps), (1, 3));
        },
        _ => panic!("three timestamps are too many"),
    }
}

#[test]
fn frames_are_cut_into_chunks() {
    let plan = plan_audio(&config().thinker_config.audio_config, 250);
    assert_eq!((plan.chunk_size, plan.chunks, plan.tokens), (100, 3, 33));
    assert_eq!(plan.chunk_tokens, vec![13, 13, 7]);
    assert!(check_audio_tokens(33, 33).is_ok());
    match check_audio_tokens(32, 33) {
        Err(AlignError::AudioTokenMismatch { features, placeholders }) => {
            assert_eq!((features, placeholders), (32, 33));
        },
        _ => panic!("a token is missing"),
    }
}

#[test]
fn texts_are_aligned_with_scores() {
    let aligner = aligner();
    let (words, input) = aligner.split_text("a, bc.", "English").unwrap();
    assert_eq!(words, vec!["a", "bc"]);
    let p = aligner.prepare(words, &input, 9).unwrap();
    let t = 151705;
    assert_eq!(p.input_ids, vec![151669, 151676, 151676, 151670, 0, t, t, 1, 2, t, t]);
    assert_eq!(p.timestamp_positions, vec![5, 6, 9, 10]);
    assert_eq!(p.placeholders, 2);
    let mut scores = vec![0u32; 11 * 4];
    for (position, best) in [(5, 0), (6, 1), (9, 2), (10, 3)] {
        scores[position * 4 + best] = 9.0f32.to_bits();
    }
    let run = aligner.finish(&p, &scores, 4).unwrap();
    assert_eq!(run.output_ids, vec![0, 1, 2, 3]);
    assert_eq!(run.fixed_timestamp_ms, vec![0, 80, 160, 240]);
    assert_eq!(f64::from_bits(run.items[1].end_time), 0.24);
}

#[test]
fn scores_change_times_but_no_words() {
    let aligner = aligner();
    let (words, input) = aligner.split_text("a, bc.", "English").unwrap();
    let p = aligner.prepare(words.clone(), &input, 9).unwrap();
    for best in [[0, 1, 2, 3], [3, 2, 1, 0], [2, 2, 0, 3]] {
        let mut scores = vec![0u32; 11 * 4];
        for (position, k) in p.timestamp_positions.iter().zip(best) {
            scores[position * 4 + k] = 9.0f32.to_bits();
        }
        let run = aligner.finish(&p, &scores, 4).unwrap();
        let texts: Vec<String> = run.items.iter().map(|item| item.text.clone()).collect();
        assert_eq!(texts, words);
        assert_eq!(run.output_ids.len(), 2 * words.len());
        let times: Vec<f64> = run
            .items
            .iter()
            .flat_map(|i| [f64::from_bits(i.start_time), f64::from_bits(i.end_time)])
            .collect();
        assert!(times.windows(2).all(|w| w[0] <= w[1]));
    }
}

#[test]
fn every_text_has_a_place_for_audio() {
    let aligner = aligner();
    for text in ["", "a", "a b c"] {
        let (words, input) = aligner.split_text(text, "English").unwrap();
        assert_eq!(input.find("<|audio_pad|>"), Some(15));
        for frames in [1, 2, 100] {
            assert!(aligner.prepare(words.clone(), &input, frames).unwrap().placeholders > 0);
        }
    }
}

#[test]
fn timestamps_are_found_among_token_ids() {
    let p = aligner().prepare_tokens(vec!["a".to_string()], &[151676, 0, 151705, 151705], 1);
    assert_eq!(p.input_ids, vec![151676, 0, 151705, 151705]);
    assert_eq!(p.timestamp_positions, vec![2, 3]);
    assert_eq!((p.words, p.placeholders), (vec!["a".to_string()], 1));
}

#[test]
fn timestamps_must_match_the_words() {
    let aligner = aligner();
    let input = "<|audio_pad|>a<timestamp>";
    let p = aligner.prepare(vec!["a".to_string()], input, 1).unwrap();
    let r = aligner.finish(&p, &vec![0; 3 * 4], 4);
    assert!(matches!(r, Err(AlignError::TimestampMismatch { words: 1, timestamps: 1 })));
    let p = aligner.prepare_tokens(vec![], &[151705], 1);
    let r = aligner.finish(&p, &vec![0; 4], 4);
    assert!(matches!(r, Err(AlignError::TimestampMismatch { words: 0, timestamps: 1 })));
}

#[test]
fn audio_needs_frames_and_a_place() {
    let aligner = aligner();
    let r = aligner.prepare(vec![], "<|audio_pad|>", 0);
    assert!(matches!(r, Err(AlignError::Prompt(PromptError::CountNotPositive))));
    let r = aligner.prepare(vec![], "a", 100);
    assert!(matches!(r, Err(AlignError::Prompt(PromptError::NoAudioPad))));
    let r = aligner.split_text("本日", "Japanese");
    assert!(matches!(r, Err(AlignError::Text(TextError::DictionaryUnavailable))));
}

#[test]
fn audio_takes_the_places_of_its_token() {
    let table = CpuWeight { data: vec![0, 1, 10, 11, 20, 21], rows: 3, cols: 2 };
    let out = merge_embeddings(&table, &[1, 2, 0, 2], 2, &[70, 71, 80, 81]);
    assert_eq!(out.shape, vec![1, 4, 2]);
    assert_eq!(out.data, vec![10, 11, 70, 71, 0, 1, 80, 81]);
}

#[test]
fn positions_in_three_dimensions() {
    assert_eq!(text_positions(3), vec![vec![0, 1, 2]; 3]);
    assert_eq!(CACHE_MARGIN, 64);
}

#[test]
fn models_load_on_any_device() {
    assert_eq!(ModelOptions::default().device, DeviceRequest::Auto);
}

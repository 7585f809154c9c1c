use qwen_forced_aligner::prompt::{
    expand_audio_pad_once, feature_extract_output_len, PromptError,
};

#[test]
fn feature_len_matches_python_processor_formula() {
    assert_eq!(feature_extract_output_len(0), 0);
    assert_eq!(feature_extract_output_len(1), 1);
    assert_eq!(feature_extract_output_len(100), 13);
    assert_eq!(feature_extract_output_len(1500), 195);
}

#[test]
fn expands_first_audio_pad_only() {
    let input = "<|audio_start|><|audio_pad|><|audio_end|> <|audio_pad|>";
    let output = expand_audio_pad_once(input, 3).unwrap();
    assert_eq!(
        output,
        "<|audio_start|><|audio_pad|><|audio_pad|><|audio_pad|><|audio_end|> <|audio_pad|>"
    );
}

#[test]
fn a_hundred_frames_more_are_thirteen_tokens_more() {
    for frames in 0..1000 {
        assert_eq!(
            feature_extract_output_len(frames + 100),
            feature_extract_output_len(frames) + 13
        );
    }
}

#[test]
fn lengths_below_zero_round_down() {
    assert_eq!(feature_extract_output_len(-1), 0);
    assert_eq!(feature_extract_output_len(-3), 0);
    assert_eq!(feature_extract_output_len(-100), -13);
}

#[test]
fn one_place_changes_nothing() {
    let input = "<|audio_start|><|audio_pad|><|audio_end|>";
    assert_eq!(expand_audio_pad_once(input, 1).unwrap(), input);
}

#[test]
fn inputs_that_cannot_be_expanded() {
    assert_eq!(expand_audio_pad_once("<|audio_pad|>", 0), Err(PromptError::CountNotPositive));
    assert_eq!(expand_audio_pad_once("<|audio_pad>", 2), Err(PromptError::NoAudioPad));
    assert_eq!(expand_audio_pad_once("", 2), Err(PromptError::NoAudioPad));
}

use qwen_forced_aligner::audio::{
    decoding, downmix, floor_div, AudioError, Decoding, SampleFormat, SAMPLE_RATE,
};
use qwen_forced_aligner::mel::{
    features_from_frames, frame_count, reflect_pad, MelError, FREQ_BINS, HOP_LENGTH, MEL_BINS,
    N_FFT,
};
use qwen_forced_aligner::resampler::{
    align_half, align_taps, decimated_len, decimated_tap, gcd, odd_length, rational_len,
    rational_ratio, rational_tap, resampling, Resampling,
};

#[test]
fn quotients_round_down() {
    for value in -20i64..=20 {
        for divisor in [-7i64, -3, -1, 1, 2, 5] {
            let expected = (value as f64 / divisor as f64).floor() as i64;
            assert_eq!(floor_div(value, divisor), expected);
        }
    }
}

#[test]
fn channels_are_averaged() {
    assert_eq!(downmix(&[3, -5, 7], 1), vec![3, -5, 7]);
    assert_eq!(downmix(&[1, 2, -1, -2, 9], 2), vec![1, -2]);
    assert_eq!(downmix(&[i32::MAX, i32::MAX], 2), vec![i32::MAX as i64]);
    assert_eq!(downmix(&[1], 2), Vec::<i64>::new());
}

#[test]
fn formats_of_samples() {
    assert_eq!(decoding(0, SampleFormat::Float, 32), Err(AudioError::NoChannels));
    assert_eq!(decoding(2, SampleFormat::Float, 32), Ok(Decoding::Float));
    assert_eq!(decoding(1, SampleFormat::Int, 8), Ok(Decoding::Short));
    assert_eq!(decoding(1, SampleFormat::Int, 16), Ok(Decoding::Short));
    assert_eq!(decoding(1, SampleFormat::Int, 24), Ok(Decoding::Long { shift: 23 }));
    assert_eq!(decoding(1, SampleFormat::Int, 32), Ok(Decoding::Long { shift: 31 }));
    assert_eq!(
        decoding(1, SampleFormat::Int, 33),
        Err(AudioError::UnsupportedFormat { format: SampleFormat::Int, bits: 33 })
    );
    assert_eq!(SAMPLE_RATE, 16000);
}

#[test]
fn feature_frame_count_matches_whisper_mask_rescale() {
    let frames = frame_count(240000).unwrap();
    let features = features_from_frames(&vec![0u32; 128 * 1500], frames);
    assert_eq!(features.mel_bins, 128);
    assert_eq!(features.frames, 1500);
    assert_eq!(features.attention_mask.len(), 1500);
    assert_eq!(features.values.len(), 128 * 1500);
    assert_eq!((N_FFT, HOP_LENGTH, MEL_BINS, FREQ_BINS), (400, 160, 128, 201));
}

#[test]
fn waveforms_need_more_than_a_window() {
    assert_eq!(frame_count(401), Ok(2));
    assert_eq!(frame_count(400), Err(MelError::TooShort { samples: 400 }));
}

#[test]
fn ends_are_reflected() {
    assert_eq!(reflect_pad(&[1, 2, 3, 4], 2), Ok(vec![3, 2, 1, 2, 3, 4, 3, 2]));
    assert_eq!(reflect_pad(&[1, 2], 0), Ok(vec![1, 2]));
    assert_eq!(reflect_pad(&[1, 2], 2), Err(MelError::PadTooLong { samples: 2, pad: 2 }));
}

#[test]
fn features_by_bin() {
    let by_frame: Vec<usize> = (0..2 * MEL_BINS).collect();
    let f = features_from_frames(&by_frame, 2);
    assert_eq!(f.frames, 2);
    assert_eq!(f.values.len(), 2 * MEL_BINS);
    assert_eq!(&f.values[..4], &[0, 128, 1, 129]);
}

#[test]
fn greatest_common_divisors() {
    assert_eq!(gcd(48000, 16000), 16000);
    assert_eq!(gcd(44100, 16000), 100);
    assert_eq!(gcd(0, 7), 7);
    assert_eq!(gcd(0, 0), 0);
    assert_eq!(rational_ratio(24000, 16000), Some((2, 3)));
    assert_eq!(rational_ratio(0, 16000), None);
}

#[test]
fn ways_to_change_the_rate() {
    assert_eq!(resampling(9000, 16000, 16000), Resampling::Keep);
    assert_eq!(resampling(0, 48000, 16000), Resampling::Keep);
    assert_eq!(resampling(9000, 48000, 16000), Resampling::Decimate { m: 3 });
    assert_eq!(resampling(9000, 24000, 16000), Resampling::Rational { l: 2, m: 3 });
    assert_eq!(resampling(9000, 44100, 16000), Resampling::Arbitrary);
    assert_eq!(resampling(9000, 8000, 16000), Resampling::Arbitrary);
}

#[test]
fn decimate_by_three_produces_expected_length() {
    assert_eq!(resampling(9000, 48000, 16000), Resampling::Decimate { m: 3 });
    assert_eq!(decimated_len(9000, 3), 3000);
}

#[test]
fn rational_24k_to_16k_produces_expected_length() {
    assert_eq!(resampling(24000, 24000, 16000), Resampling::Rational { l: 2, m: 3 });
    assert_eq!(rational_len(24000, 2, 3), 16000);
}

#[test]
fn taps_of_the_filters() {
    assert_eq!(odd_length(4), 5);
    assert_eq!(odd_length(5), 5);
    assert_eq!(align_half(10, 3), 12);
    assert_eq!(align_half(12, 3), 12);
    assert_eq!(align_taps(6), 9);
    assert_eq!(align_taps(9), 9);
    // Output 0 of a change by 2/3 lies at sample 0, in the middle of the filter.
    assert_eq!(rational_tap(0, 4, 4, 2, 3, 10), Some(0));
    assert_eq!(rational_tap(0, 0, 4, 2, 3, 10), None);
    assert_eq!(rational_tap(0, 5, 4, 2, 3, 10), None);
    assert_eq!(decimated_tap(5, 0, 2, 2, 3, 30), Some(15));
    assert_eq!(decimated_tap(0, 1, 0, 2, 3, 30), Some(5));
    assert_eq!(decimated_tap(0, 0, 4, 2, 3, 30), None);
    assert_eq!(decimated_tap(9, 0, 0, 2, 3, 30), None);
}

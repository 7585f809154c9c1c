use qwen_forced_aligner::config::{
    default_audio_end_token_id, default_audio_start_token_id, default_audio_token_id,
    default_classify_num, default_d_model, default_downsample_hidden_size,
    default_encoder_attention_heads, default_encoder_ffn_dim, default_encoder_layers,
    default_head_dim, default_hidden_size, default_intermediate_size,
    default_max_position_embeddings, default_max_source_positions, default_mrope_section,
    default_n_window, default_n_window_infer, default_num_attention_heads,
    default_num_hidden_layers, default_num_key_value_heads, default_num_mel_bins,
    default_output_dim, default_rms_norm_eps, default_rope_theta, default_timestamp_segment_time,
    default_vocab_size, RopeScaling, TextConfig,
};

fn text_config(rope_scaling: Option<RopeScaling>) -> TextConfig {
    TextConfig {
        vocab_size: default_vocab_size(),
        hidden_size: default_hidden_size(),
        intermediate_size: default_intermediate_size(),
        num_hidden_layers: default_num_hidden_layers(),
        num_attention_heads: default_num_attention_heads(),
        num_key_value_heads: default_num_key_value_heads(),
        head_dim: default_head_dim(),
        rms_norm_eps: default_rms_norm_eps(),
        rope_theta: default_rope_theta(),
        max_position_embeddings: default_max_position_embeddings(),
        rope_scaling,
    }
}

#[test]
fn defaults_of_the_configuration() {
    assert_eq!(f32::from_bits(default_timestamp_segment_time()), 80.0);
    assert_eq!(default_classify_num(), 5000);
    assert_eq!(default_audio_start_token_id(), 151669);
    assert_eq!(default_audio_end_token_id(), 151670);
    assert_eq!(default_audio_token_id(), 151676);
    assert_eq!(default_d_model(), 1024);
    assert_eq!(default_downsample_hidden_size(), 480);
    assert_eq!(default_encoder_attention_heads(), 16);
    assert_eq!(default_encoder_ffn_dim(), 4096);
    assert_eq!(default_encoder_layers(), 24);
    assert_eq!(default_num_mel_bins(), 128);
    assert_eq!(default_max_source_positions(), 1500);
    assert_eq!(default_n_window(), 50);
    assert_eq!(default_n_window_infer(), 800);
    assert_eq!(default_output_dim(), 1024);
    assert_eq!(default_vocab_size(), 152064);
    assert_eq!(default_hidden_size(), 1024);
    assert_eq!(default_intermediate_size(), 3072);
    assert_eq!(default_num_hidden_layers(), 28);
    assert_eq!(default_num_attention_heads(), 16);
    assert_eq!(default_num_key_value_heads(), 8);
    assert_eq!(default_head_dim(), 128);
    assert_eq!(f64::from_bits(default_rms_norm_eps()), 1e-6);
    assert_eq!(f64::from_bits(default_rope_theta()), 1_000_000.0);
    assert_eq!(default_max_position_embeddings(), 8192);
    assert_eq!(default_mrope_section(), vec![24, 20, 20]);
}

#[test]
fn sections_of_the_rotary_dimensions() {
    let none = text_config(None);
    assert_eq!(none.mrope_section(), vec![24, 20, 20]);
    assert!(none.mrope_interleaved());
    for (a, b) in [(false, false), (true, false), (false, true)] {
        let some = text_config(Some(RopeScaling {
            rope_type: String::new(),
            mrope_section: vec![1, 2],
            interleaved: a,
            mrope_interleaved: b,
        }));
        assert_eq!(some.mrope_section(), vec![1, 2]);
        assert_eq!(some.mrope_interleaved(), a || b);
    }
}

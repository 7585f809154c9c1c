//! The model configuration.
//!
//! Floating-point settings are held as bit patterns.

use crate::binary32::EIGHTY;
use vstd::prelude::*;

verus! {

/// The configuration of the aligner.
#[derive(Debug, Clone)]
pub struct AlignerConfig {
    /// The token that stands for a start or an end.
    pub timestamp_token_id: u32,
    /// The duration of a timestamp step in milliseconds, in single precision.
    pub timestamp_segment_time: u32,
    pub thinker_config: ThinkerConfig,
}

#[derive(Debug, Clone)]
pub struct ThinkerConfig {
    pub classify_num: usize,
    pub audio_start_token_id: i64,
    pub audio_end_token_id: i64,
    /// The token that stands for one audio token.
    pub audio_token_id: i64,
    pub audio_config: AudioConfig,
    pub text_config: TextConfig,
}

/// The configuration of the audio encoder.
#[derive(Debug, Clone)]
pub struct AudioConfig {
    pub d_model: usize,
    pub downsample_hidden_size: usize,
    pub encoder_attention_heads: usize,
    pub encoder_ffn_dim: usize,
    pub encoder_layers: usize,
    pub num_mel_bins: usize,
    pub max_source_positions: usize,
    /// Half the number of frames of a chunk.
    pub n_window: usize,
    pub n_window_infer: usize,
    pub output_dim: usize,
}

/// The configuration of the text decoder.
#[derive(Debug, Clone)]
pub struct TextConfig {
    pub vocab_size: usize,
    pub hidden_size: usize,
    pub intermediate_size: usize,
    pub num_hidden_layers: usize,
    pub num_attention_heads: usize,
    pub num_key_value_heads: usize,
    pub head_dim: usize,
    /// In double precision.
    pub rms_norm_eps: u64,
    /// In double precision.
    pub rope_theta: u64,
    pub max_position_embeddings: usize,
    pub rope_scaling: Option<RopeScaling>,
}

#[derive(Debug, Clone)]
pub struct RopeScaling {
    pub rope_type: String,
    pub mrope_section: Vec<usize>,
    pub interleaved: bool,
    pub mrope_interleaved: bool,
}

/// 80 milliseconds.
pub fn default_timestamp_segment_time() -> (r: u32)
    ensures
        r == EIGHTY,
{
    EIGHTY
}

pub fn default_classify_num() -> (r: usize)
    ensures
        r == 5000,
{
    5000
}

pub fn default_audio_start_token_id() -> (r: i64)
    ensures
        r == 151669,
{
    151669
}

pub fn default_audio_end_token_id() -> (r: i64)
    ensures
        r == 151670,
{
    151670
}

pub fn default_audio_token_id() -> (r: i64)
    ensures
        r == 151676,
{
    151676
}

pub fn default_d_model() -> (r: usize)
    ensures
        r == 1024,
{
    1024
}

pub fn default_downsample_hidden_size() -> (r: usize)
    ensures
        r == 480,
{
    480
}

pub fn default_encoder_attention_heads() -> (r: usize)
    ensures
        r == 16,
{
    16
}

pub fn default_encoder_ffn_dim() -> (r: usize)
    ensures
        r == 4096,
{
    4096
}

pub fn default_encoder_layers() -> (r: usize)
    ensures
        r == 24,
{
    24
}

pub fn default_num_mel_bins() -> (r: usize)
    ensures
        r == 128,
{
    128
}

pub fn default_max_source_positions() -> (r: usize)
    ensures
        r == 1500,
{
    1500
}

pub fn default_n_window() -> (r: usize)
    ensures
        r == 50,
{
    50
}

pub fn default_n_window_infer() -> (r: usize)
    ensures
        r == 800,
{
    800
}

pub fn default_output_dim() -> (r: usize)
    ensures
        r == 1024,
{
    1024
}

pub fn default_vocab_size() -> (r: usize)
    ensures
        r == 152064,
{
    152064
}

pub fn default_hidden_size() -> (r: usize)
    ensures
        r == 1024,
{
    1024
}

pub fn default_intermediate_size() -> (r: usize)
    ensures
        r == 3072,
{
    3072
}

pub fn default_num_hidden_layers() -> (r: usize)
    ensures
        r == 28,
{
    28
}

pub fn default_num_attention_heads() -> (r: usize)
    ensures
        r == 16,
{
    16
}

pub fn default_num_key_value_heads() -> (r: usize)
    ensures
        r == 8,
{
    8
}

pub fn default_head_dim() -> (r: usize)
    ensures
        r == 128,
{
    128
}

/// A millionth, in double precision.
pub fn default_rms_norm_eps() -> (r: u64)
    ensures
        r == 0x3eb0_c6f7_a0b5_ed8d,
{
    0x3eb0_c6f7_a0b5_ed8d
}

/// A million, in double precision.
pub fn default_rope_theta() -> (r: u64)
    ensures
        r == 0x412e_8480_0000_0000,
{
    0x412e_8480_0000_0000
}

pub fn default_max_position_embeddings() -> (r: usize)
    ensures
        r == 8192,
{
    8192
}

/// The rotary dimensions of the three position streams.
pub fn default_mrope_section() -> (r: Vec<usize>)
    ensures
        r@ == seq![24usize, 20, 20],
{
    vec![24, 20, 20]
}

impl TextConfig {
    /// The rotary dimensions of the position streams: those configured, or the usual
    /// ones.
    pub fn mrope_section(&self) -> (r: Vec<usize>)
        ensures
            r@ == match self.rope_scaling {
                Some(rs) => rs.mrope_section@,
                None => seq![24usize, 20, 20],
            },
    {
        match &self.rope_scaling {
            Some(rs) => {
                let r: Vec<usize> = rs.mrope_section.clone();
                assert(r@ =~= rs.mrope_section@);
                r
            },
            None => default_mrope_section(),
        }
    }

    /// Whether the position streams take turns: where either setting says so, and
    /// where nothing is configured.
    pub fn mrope_interleaved(&self) -> (r: bool)
        ensures
            r == match self.rope_scaling {
                Some(rs) => rs.mrope_interleaved || rs.interleaved,
                None => true,
            },
    {
        match &self.rope_scaling {
            Some(rs) => rs.mrope_interleaved || rs.interleaved,
            None => true,
        }
    }
}

} // verus!

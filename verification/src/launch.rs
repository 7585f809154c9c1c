//! How the work of the decoder is laid out on a graphics device: which kernel runs,
//! with how many blocks and threads, and on which part of every buffer.

use crate::chars::push_text;
use crate::conv::conv_output_len;
use crate::product::{Gemm, linear_product, maps_rows};
use crate::prompt::halved;
use vstd::prelude::*;

verus! {

/// The kernels of the device.
#[derive(Debug, Clone, Copy, PartialEq, Eq)]
pub enum Kernel {
    RmsNorm,
    AddResidualRmsNorm,
    Add,
    AddInplace,
    SiluMul,
    SiluMulSplit,
    SoftmaxCausal,
    SoftmaxCausalOnline,
    RotaryEmb,
    RmsNormRotary,
    RepeatKvFromCache,
    EmbedLookup,
    EmbedLookupSingle,
    Argmax,
    ArgmaxIntoSlot,
    LmHeadGemvArgmax,
    SwapDims12,
    QkvSplit,
    QkvExtractQNormRotary,
    QkvExtractKvNormRotaryCache,
    QkvExtractQkvNormRotaryCache,
    KvCacheWrite,
    KvCacheWritePair,
    Gelu,
    GeluInplace,
    LayerNorm,
    AddBiasInplace,
    SliceDim2,
    ConcatDim2Write,
    Im2col,
    ConvPostprocess,
    FusedGqaDecode,
    FusedGqaDecodeSplitP1,
    FusedGqaDecodeSplitP2,
    ScatterAudioRows,
}

/// The name under which a kernel is compiled.
pub open spec fn symbol_of(kernel: Kernel) -> Seq<char> {
    match kernel {
        Kernel::RmsNorm => "rms_norm_f16"@,
        Kernel::AddResidualRmsNorm => "add_residual_rms_norm_f16"@,
        Kernel::Add => "add_f16"@,
        Kernel::AddInplace => "add_inplace_f16"@,
        Kernel::SiluMul => "silu_mul_f16"@,
        Kernel::SiluMulSplit => "silu_mul_split_f16"@,
        Kernel::SoftmaxCausal => "softmax_scaled_causal_f16"@,
        Kernel::SoftmaxCausalOnline => "softmax_scaled_causal_online_f16"@,
        Kernel::RotaryEmb => "rotary_emb_f16"@,
        Kernel::RmsNormRotary => "rms_norm_rotary_f16"@,
        Kernel::RepeatKvFromCache => "repeat_kv_from_cache_f16"@,
        Kernel::EmbedLookup => "embed_lookup_f16"@,
        Kernel::EmbedLookupSingle => "embed_lookup_single_i32_f16"@,
        Kernel::Argmax => "argmax_f16"@,
        Kernel::ArgmaxIntoSlot => "argmax_into_slot_f16"@,
        Kernel::LmHeadGemvArgmax => "lm_head_gemv_argmax_f16"@,
        Kernel::SwapDims12 => "swap_dims_12_f16"@,
        Kernel::QkvSplit => "qkv_split_f16"@,
        Kernel::QkvExtractQNormRotary => "qkv_extract_q_norm_rotary_f16"@,
        Kernel::QkvExtractKvNormRotaryCache => "qkv_extract_kv_norm_rotary_cache_f16"@,
        Kernel::QkvExtractQkvNormRotaryCache => "qkv_extract_qkv_norm_rotary_cache_f16"@,
        Kernel::KvCacheWrite => "kv_cache_write_f16"@,
        Kernel::KvCacheWritePair => "kv_cache_write_pair_f16"@,
        Kernel::Gelu => "gelu_f16"@,
        Kernel::GeluInplace => "gelu_inplace_f16"@,
        Kernel::LayerNorm => "layer_norm_f16"@,
        Kernel::AddBiasInplace => "add_bias_inplace_f16"@,
        Kernel::SliceDim2 => "slice_dim2_f16"@,
        Kernel::ConcatDim2Write => "concat_dim2_write_f16"@,
        Kernel::Im2col => "im2col_3x3_s2p1_f16"@,
        Kernel::ConvPostprocess => "conv_postprocess_f16"@,
        Kernel::FusedGqaDecode => "fused_gqa_decode_f16"@,
        Kernel::FusedGqaDecodeSplitP1 => "fused_gqa_decode_split_p1_f16"@,
        Kernel::FusedGqaDecodeSplitP2 => "fused_gqa_decode_split_p2_f16"@,
        Kernel::ScatterAudioRows => "scatter_audio_rows_f16"@,
    }
}

impl Kernel {
    /// The name under which the kernel is compiled.
    pub fn symbol(&self) -> (r: &'static str)
        ensures
            r@ == symbol_of(*self),
    {
        match self {
            Kernel::RmsNorm => "rms_norm_f16",
            Kernel::AddResidualRmsNorm => "add_residual_rms_norm_f16",
            Kernel::Add => "add_f16",
            Kernel::AddInplace => "add_inplace_f16",
            Kernel::SiluMul => "silu_mul_f16",
            Kernel::SiluMulSplit => "silu_mul_split_f16",
            Kernel::SoftmaxCausal => "softmax_scaled_causal_f16",
            Kernel::SoftmaxCausalOnline => "softmax_scaled_causal_online_f16",
            Kernel::RotaryEmb => "rotary_emb_f16",
            Kernel::RmsNormRotary => "rms_norm_rotary_f16",
            Kernel::RepeatKvFromCache => "repeat_kv_from_cache_f16",
            Kernel::EmbedLookup => "embed_lookup_f16",
            Kernel::EmbedLookupSingle => "embed_lookup_single_i32_f16",
            Kernel::Argmax => "argmax_f16",
            Kernel::ArgmaxIntoSlot => "argmax_into_slot_f16",
            Kernel::LmHeadGemvArgmax => "lm_head_gemv_argmax_f16",
            Kernel::SwapDims12 => "swap_dims_12_f16",
            Kernel::QkvSplit => "qkv_split_f16",
            Kernel::QkvExtractQNormRotary => "qkv_extract_q_norm_rotary_f16",
            Kernel::QkvExtractKvNormRotaryCache => "qkv_extract_kv_norm_rotary_cache_f16",
            Kernel::QkvExtractQkvNormRotaryCache => "qkv_extract_qkv_norm_rotary_cache_f16",
            Kernel::KvCacheWrite => "kv_cache_write_f16",
            Kernel::KvCacheWritePair => "kv_cache_write_pair_f16",
            Kernel::Gelu => "gelu_f16",
            Kernel::GeluInplace => "gelu_inplace_f16",
            Kernel::LayerNorm => "layer_norm_f16",
            Kernel::AddBiasInplace => "add_bias_inplace_f16",
            Kernel::SliceDim2 => "slice_dim2_f16",
            Kernel::ConcatDim2Write => "concat_dim2_write_f16",
            Kernel::Im2col => "im2col_3x3_s2p1_f16",
            Kernel::ConvPostprocess => "conv_postprocess_f16",
            Kernel::FusedGqaDecode => "fused_gqa_decode_f16",
            Kernel::FusedGqaDecodeSplitP1 => "fused_gqa_decode_split_p1_f16",
            Kernel::FusedGqaDecodeSplitP2 => "fused_gqa_decode_split_p2_f16",
            Kernel::ScatterAudioRows => "scatter_audio_rows_f16",
        }
    }
}

/// Where the headers of the toolkit are, from the value of `CUDA_PATH`.
pub fn header_directory(cuda_path: Option<&str>) -> (r: String)
    ensures
        r@ == match cuda_path {
            Some(p) => p@ + "/include"@,
            None => "/usr/local/cuda/include"@,
        },
{
    match cuda_path {
        Some(p) => {
            let mut r: String = p.to_string();
            push_text(&mut r, "/include");
            r
        },
        None => "/usr/local/cuda/include".to_string(),
    }
}

/// The launch of a kernel: blocks in two dimensions, threads per block, and bytes of
/// memory that a block shares.
#[derive(Debug, Clone, Copy, PartialEq, Eq)]
pub struct Launch {
    pub kernel: Kernel,
    pub grid: (u32, u32),
    pub block: u32,
    pub shared_bytes: u32,
}

/// A block size for which a reduction over `target` values works: the least power of
/// two from 32 to 1024 that is not below `target`, or 1024.
pub open spec fn is_reduction_block(block: u32, target: u32) -> bool {
    &&& block == 32 || block == 64 || block == 128 || block == 256 || block == 512 || block == 1024
    &&& block < 1024 ==> block >= target
    &&& block > 32 ==> block / 2 < target
}

/// The block size of a reduction over the last dimension.
pub fn block_for_reduction(last: usize) -> (bs: u32)
    ensures
        is_reduction_block(bs, last as u32),
{
    let target: u32 = #[verifier::truncate]
    (last as u32);
    let mut bs: u32 = 32;
    while bs < target && bs < 1024
        invariant
            bs == 32 || bs == 64 || bs == 128 || bs == 256 || bs == 512 || bs == 1024,
            bs > 32 ==> bs / 2 < target,
        decreases 1024 - bs,
    {
        bs = bs * 2;
    }
    bs
}

/// For every length there is one block size.
pub proof fn lemma_reduction_block_is_unique(a: u32, b: u32, target: u32)
    requires
        is_reduction_block(a, target),
        is_reduction_block(b, target),
    ensures
        a == b,
{
}

/// Whether the launch reduces rows of `last` values, a block for every row, with
/// `sums` running values of four bytes per thread.
pub open spec fn reduces_rows(l: Launch, rows: int, last: usize, sums: int) -> bool {
    &&& l.grid.0 == rows
    &&& l.grid.1 == 1
    &&& is_reduction_block(l.block, last as u32)
    &&& l.shared_bytes == l.block * 4 * sums
}

fn row_launch(kernel: Kernel, rows: usize, last: usize, sums: u32) -> (l: Launch)
    requires
        rows <= u32::MAX,
        sums <= 2,
    ensures
        l.kernel == kernel,
        reduces_rows(l, rows as int, last, sums as int),
{
    let block: u32 = block_for_reduction(last);
    assert(block * 4 * sums <= 1024 * 4 * 2) by (nonlinear_arith)
        requires
            block <= 1024,
            sums <= 2,
    ;
    Launch { kernel, grid: (rows as u32, 1), block, shared_bytes: block * 4 * sums }
}

/// The launch of a root-mean-square norm.
pub fn rms_norm(rows: usize, last: usize) -> (l: Launch)
    requires
        rows <= u32::MAX,
    ensures
        l.kernel == Kernel::RmsNorm,
        reduces_rows(l, rows as int, last, 1),
{
    row_launch(Kernel::RmsNorm, rows, last, 1)
}

/// The launch of a residual sum with a root-mean-square norm.
pub fn add_residual_rms_norm(rows: usize, last: usize) -> (l: Launch)
    requires
        rows <= u32::MAX,
    ensures
        l.kernel == Kernel::AddResidualRmsNorm,
        reduces_rows(l, rows as int, last, 1),
{
    row_launch(Kernel::AddResidualRmsNorm, rows, last, 1)
}

/// The launch of a layer norm, which keeps a sum and a sum of squares.
pub fn layer_norm(rows: usize, last: usize) -> (l: Launch)
    requires
        rows <= u32::MAX,
    ensures
        l.kernel == Kernel::LayerNorm,
        reduces_rows(l, rows as int, last, 2),
{
    row_launch(Kernel::LayerNorm, rows, last, 2)
}

/// The launch of a softmax over rows of scores. The kernel for a causal mask keeps a
/// greatest value and a sum.
pub fn softmax_scaled_causal(rows: usize, last: usize, causal: bool) -> (l: Launch)
    requires
        rows <= u32::MAX,
    ensures
        causal ==> l.kernel == Kernel::SoftmaxCausalOnline && reduces_rows(
            l,
            rows as int,
            last,
            2,
        ),
        !causal ==> l.kernel == Kernel::SoftmaxCausal && reduces_rows(l, rows as int, last, 1),
{
    if causal {
        row_launch(Kernel::SoftmaxCausalOnline, rows, last, 2)
    } else {
        row_launch(Kernel::SoftmaxCausal, rows, last, 1)
    }
}

/// The launch that takes queries, keys and values out of a fused projection: a block
/// for every token and every head.
pub fn qkv_extract(tokens: usize, heads: usize, kv_heads: usize, dim: usize) -> (l: Launch)
    requires
        tokens <= u32::MAX,
        heads + kv_heads <= u32::MAX,
    ensures
        l.kernel == Kernel::QkvExtractQkvNormRotaryCache,
        l.grid.0 == tokens,
        l.grid.1 == heads + kv_heads,
        is_reduction_block(l.block, dim as u32),
        l.shared_bytes == l.block * 4,
{
    let block: u32 = block_for_reduction(dim);
    Launch {
        kernel: Kernel::QkvExtractQkvNormRotaryCache,
        grid: (tokens as u32, (heads + kv_heads) as u32),
        block,
        shared_bytes: block * 4,
    }
}

/// The launch of a root-mean-square norm with a rotation: a row for every text, head and
/// position.
pub fn rms_norm_rotary(rows: usize, dim: usize) -> (l: Launch)
    requires
        rows <= u32::MAX,
    ensures
        l.kernel == Kernel::RmsNormRotary,
        reduces_rows(l, rows as int, dim, 1),
{
    row_launch(Kernel::RmsNormRotary, rows, dim, 1)
}

/// The launch that takes the queries alone out of a fused projection: a row for every
/// text, query head and position.
pub fn qkv_extract_q_norm_rotary(rows: usize, dim: usize) -> (l: Launch)
    requires
        rows <= u32::MAX,
    ensures
        l.kernel == Kernel::QkvExtractQNormRotary,
        reduces_rows(l, rows as int, dim, 1),
{
    row_launch(Kernel::QkvExtractQNormRotary, rows, dim, 1)
}

/// The launch that takes keys and values out of a fused projection into the cache: a row
/// for every text, key-value head and position.
pub fn qkv_extract_kv_norm_rotary_cache(rows: usize, dim: usize) -> (l: Launch)
    requires
        rows <= u32::MAX,
    ensures
        l.kernel == Kernel::QkvExtractKvNormRotaryCache,
        reduces_rows(l, rows as int, dim, 1),
{
    row_launch(Kernel::QkvExtractKvNormRotaryCache, rows, dim, 1)
}

/// The launch that copies rows of audio to their places.
pub fn scatter_audio_rows(rows: usize, hidden: usize) -> (l: Launch)
    requires
        rows <= u32::MAX,
        hidden <= u32::MAX,
    ensures
        l == (Launch {
            kernel: Kernel::ScatterAudioRows,
            grid: (rows as u32, 1),
            block: (if hidden <= 1024 {
                hidden as u32
            } else {
                1024
            }),
            shared_bytes: 0,
        }),
{
    let block: u32 = if hidden <= 1024 {
        hidden as u32
    } else {
        1024
    };
    Launch {
        kernel: Kernel::ScatterAudioRows,
        grid: (rows as u32, 1),
        block,
        shared_bytes: 0,
    }
}

/// The launch that copies rows of a table.
pub fn embed_lookup(rows: usize) -> (l: Launch)
    requires
        rows <= u32::MAX,
    ensures
        l == (Launch {
            kernel: Kernel::EmbedLookup,
            grid: (rows as u32, 1),
            block: 256,
            shared_bytes: 0,
        }),
{
    Launch { kernel: Kernel::EmbedLookup, grid: (rows as u32, 1), block: 256, shared_bytes: 0 }
}

/// The threads of a block that attends from one position to `context` positions.
pub open spec fn decode_block(context: int) -> u32 {
    if context > 1024 {
        1024
    } else if context > 512 {
        512
    } else {
        256
    }
}

/// The number of positions that the threads of a block take at the same time.
pub open spec fn time_lanes(block: int, dim: int) -> int {
    if block / dim > 1 {
        block / dim
    } else {
        1
    }
}

fn lanes(block: u32, dim: usize) -> (n: usize)
    requires
        dim > 0,
    ensures
        n == time_lanes(block as int, dim as int),
        dim * n <= block || n == 1,
{
    let n: usize = block as usize / dim;
    if n > 1 {
        proof {
            vstd::arithmetic::div_mod::lemma_fundamental_div_mod(block as int, dim as int);
            assert(dim * n <= block) by (nonlinear_arith)
                requires
                    block as int == dim as int * (block as int / dim as int) + block as int
                        % dim as int,
                    block as int % dim as int >= 0,
                    n == block as int / dim as int,
            ;
        }
        n
    } else {
        1
    }
}

/// The launch that attends from one position to `context` cached ones with a block
/// for every query head. A block shares the scores and a partial output per lane, in
/// four bytes each.
pub fn fused_gqa_decode(heads: usize, dim: usize, context: usize) -> (l: Launch)
    requires
        heads <= u32::MAX,
        dim > 0,
        (context + dim + 1024) * 4 <= u32::MAX,
    ensures
        l.kernel == Kernel::FusedGqaDecode,
        l.grid == (heads as u32, 1u32),
        l.block == decode_block(context as int),
        l.shared_bytes == (context + dim * time_lanes(l.block as int, dim as int)) * 4,
        context <= 512 ==> l.block == 256,
        512 < context <= 1024 ==> l.block == 512,
        context > 1024 ==> l.block == 1024,
        dim > l.block ==> l.shared_bytes == (context + dim) * 4,
        dim <= l.block ==> l.shared_bytes == (context + dim * (l.block as int / dim as int)) * 4,
{
    let block: u32 = if context > 1024 {
        1024
    } else if context > 512 {
        512
    } else {
        256
    };
    let n: usize = lanes(block, dim);
    assert(n == 1 ==> dim * n == dim) by (nonlinear_arith);
    let shared: usize = (context + dim * n) * 4;
    proof {
        let (b, d) = (block as int, dim as int);
        let q = b / d;
        vstd::arithmetic::div_mod::lemma_fundamental_div_mod(b, d);
        if d > b {
            assert(q == 0) by (nonlinear_arith)
                requires
                    b == d * q + b % d,
                    0 <= b % d < d,
                    0 <= b < d,
            ;
            assert(d * 1 == d);
        } else {
            assert(q >= 1) by (nonlinear_arith)
                requires
                    b == d * q + b % d,
                    0 <= b % d < d,
                    0 < d <= b,
            ;
        }
    }
    Launch {
        kernel: Kernel::FusedGqaDecode,
        grid: (heads as u32, 1),
        block,
        shared_bytes: shared as u32,
    }
}

/// How attention over a long context is split: chunks of positions, a block for
/// every head and chunk, and a merge of the parts.
#[derive(Debug, Clone, Copy, PartialEq, Eq)]
pub struct SplitDecode {
    pub chunk: usize,
    pub chunks: usize,
    pub parts: Launch,
    pub merge: Launch,
}

/// The plan of attention in chunks.
pub fn fused_gqa_decode_split(heads: usize, dim: usize, context: usize, chunk: usize) -> (s:
    SplitDecode)
    requires
        heads <= u32::MAX,
        dim > 0,
        chunk > 0,
        (chunk + dim + 256) * 4 <= u32::MAX,
        context + chunk <= u32::MAX,
    ensures
        s.chunk == chunk,
        s.chunks * chunk >= context,
        s.chunks > 0 ==> (s.chunks - 1) * chunk < context,
        s.parts.kernel == Kernel::FusedGqaDecodeSplitP1,
        s.parts.grid == (heads as u32, s.chunks as u32),
        s.parts.block == 256,
        s.parts.shared_bytes == (chunk + dim * time_lanes(256, dim as int)) * 4,
        s.merge == (Launch {
            kernel: Kernel::FusedGqaDecodeSplitP2,
            grid: (heads as u32, 1),
            block: dim as u32,
            shared_bytes: 0,
        }),
{
    let chunks: usize = (context + chunk - 1) / chunk;
    proof {
        let total = context + chunk - 1;
        vstd::arithmetic::div_mod::lemma_fundamental_div_mod(total, chunk as int);
        let q = total / (chunk as int);
        let r = total % (chunk as int);
        assert(q * chunk >= context && (q > 0 ==> (q - 1) * chunk < context)) by (nonlinear_arith)
            requires
                total == chunk * q + r,
                0 <= r < chunk,
                total == context + chunk - 1,
        ;
        assert(q <= total) by (nonlinear_arith)
            requires
                total == chunk * q + r,
                0 <= r,
                chunk > 0,
                total >= 0,
        ;
    }
    let n: usize = lanes(256, dim);
    assert(n == 1 ==> dim * n == dim) by (nonlinear_arith);
    let shared: usize = (chunk + dim * n) * 4;
    SplitDecode {
        chunk,
        chunks,
        parts: Launch {
            kernel: Kernel::FusedGqaDecodeSplitP1,
            grid: (heads as u32, chunks as u32),
            block: 256,
            shared_bytes: shared as u32,
        },
        merge: Launch {
            kernel: Kernel::FusedGqaDecodeSplitP2,
            grid: (heads as u32, 1),
            block: dim as u32,
            shared_bytes: 0,
        },
    }
}

/// How a decoder layer attends.
#[derive(Debug, Clone, Copy, PartialEq, Eq)]
pub enum AttentionPath {
    /// Many new positions: groups of query heads share a key-value head.
    Prefill { causal: bool },
    /// One new position, in one block per head.
    Decode,
    /// One new position, in chunks of the context.
    DecodeSplit { chunk: usize },
}

/// The way in which `count` new positions attend to `context` positions, their own
/// among them.
pub open spec fn attention_path_of(count: int, context: int, use_causal: bool) -> AttentionPath {
    if count == 1 {
        if context > 1024 {
            AttentionPath::DecodeSplit {
                chunk: (if context >= 2048 {
                    512
                } else {
                    256
                }),
            }
        } else {
            AttentionPath::Decode
        }
    } else {
        AttentionPath::Prefill { causal: use_causal && count > 1 }
    }
}

/// Chooses how a decoder layer attends.
pub fn attention_path(count: usize, context: usize, use_causal: bool) -> (p: AttentionPath)
    ensures
        p == attention_path_of(count as int, context as int, use_causal),
        count == 1 && context <= 1024 ==> p == AttentionPath::Decode,
        count == 1 && 1024 < context < 2048 ==> p == (AttentionPath::DecodeSplit { chunk: 256 }),
        count == 1 && context >= 2048 ==> p == (AttentionPath::DecodeSplit { chunk: 512 }),
        count != 1 ==> p == (AttentionPath::Prefill { causal: use_causal && count > 1 }),
{
    if count == 1 {
        if context > 1024 {
            let chunk: usize = if context >= 2048 {
                512
            } else {
                256
            };
            AttentionPath::DecodeSplit { chunk }
        } else {
            AttentionPath::Decode
        }
    } else {
        AttentionPath::Prefill { causal: use_causal && count > 1 }
    }
}

/// A part of a buffer.
#[derive(Debug, Clone, Copy, PartialEq, Eq)]
pub struct Span {
    pub start: usize,
    pub len: usize,
}

/// What one group of query heads reads and writes.
#[derive(Debug, Clone, Copy, PartialEq, Eq)]
pub struct GroupSpans {
    /// The queries, and in the same places of another buffer the outputs.
    pub queries: Span,
    /// The keys, and in the same places of another buffer the values.
    pub cache: Span,
    /// The scores, and in the same places of another buffer the weights.
    pub scores: Span,
}

/// The part `i` of a buffer that is cut into parts of one length.
pub open spec fn part(i: int, len: int) -> (int, int) {
    (i * len, len)
}

/// Parts of one length lie apart, and `count` of them lie within and fill a buffer of
/// `count * len` elements: every element lies in one of them.
pub proof fn lemma_parts_tile(count: int, len: int)
    requires
        count >= 0,
        len >= 0,
    ensures
        forall|i: int| 0 <= i < count ==> 0 <= #[trigger] part(i, len).0 <= count * len - len,
        forall|i: int, j: int|
            0 <= i < j < count ==> (#[trigger] part(i, len)).0 + len <= (#[trigger] part(j, len)).0,
        forall|k: int|
            0 <= k < count * len ==> {
                let i = #[trigger] (k / len);
                0 <= i < count && part(i, len).0 <= k < part(i, len).0 + len
            },
{
    assert forall|i: int| 0 <= i < count implies 0 <= #[trigger] part(i, len).0 <= count * len
        - len by {
        assert(0 <= i * len <= count * len - len) by (nonlinear_arith)
            requires
                0 <= i < count,
                len >= 0,
        ;
    }
    assert forall|i: int, j: int| 0 <= i < j < count implies (#[trigger] part(i, len)).0 + len <= (
    #[trigger] part(j, len)).0 by {
        assert(i * len + len <= j * len) by (nonlinear_arith)
            requires
                i < j,
                len >= 0,
        ;
    }
    assert forall|k: int| 0 <= k < count * len implies ({
        let i = #[trigger] (k / len);
        0 <= i < count && part(i, len).0 <= k < part(i, len).0 + len
    }) by {
        assert(len > 0) by (nonlinear_arith)
            requires
                0 <= k < count * len,
                len >= 0,
                count >= 0,
        ;
        vstd::arithmetic::div_mod::lemma_fundamental_div_mod(k, len);
        let i = k / len;
        let r = k % len;
        assert(0 <= i < count && i * len <= k < i * len + len) by (nonlinear_arith)
            requires
                k == len * i + r,
                0 <= r < len,
                0 <= k < count * len,
        ;
    }
}

/// Where the part of group `group` of text `text` starts, in a buffer with `cols` elements
/// for each of `rows` rows of every head. A text has `heads` heads, a group `shared`.
pub open spec fn group_start(
    text: int,
    group: int,
    heads: int,
    shared: int,
    rows: int,
    cols: int,
) -> int {
    part(text, heads * rows * cols).0 + part(group, shared * rows * cols).0
}

/// Where the rows of key-value head `head` of text `text` start in a cache.
pub open spec fn head_start(text: int, head: int, heads: int, max_seq: int, dim: int) -> int {
    part(text, heads * max_seq * dim).0 + part(head, max_seq * dim).0
}

/// What the group of query heads of text `text` that share the key-value head `group`
/// reads and writes. There are `texts` texts, each with `heads` query heads of `count`
/// positions and `dim` components, and the cache holds `max_seq` positions per
/// key-value head of a text. Every text has its own part of every buffer, and in it
/// every group has its own.
pub fn group_spans(
    text: usize,
    texts: usize,
    group: usize,
    heads: usize,
    kv_heads: usize,
    count: usize,
    dim: usize,
    max_seq: usize,
) -> (s: GroupSpans)
    requires
        text < texts,
        group < kv_heads,
        texts * (heads * count * dim) <= usize::MAX,
        texts * (heads * count * count) <= usize::MAX,
        texts * (kv_heads * max_seq * dim) <= usize::MAX,
    ensures
        ({
            let shared = heads as int / kv_heads as int;
            let (t, g) = (text as int, group as int);
            let (kv, n, d) = (kv_heads as int, count as int, dim as int);
            &&& s.queries.start == group_start(t, g, heads as int, shared, n, d)
            &&& s.queries.len == shared * count * dim
            &&& s.cache.start == head_start(t, g, kv, max_seq as int, d)
            &&& s.cache.len == max_seq * dim
            &&& s.scores.start == group_start(t, g, heads as int, shared, n, n)
            &&& s.scores.len == shared * count * count
            &&& s.queries.start + s.queries.len <= part(t, heads * count * dim).0 + heads * count
                * dim
            &&& s.cache.start + s.cache.len <= part(t, kv_heads * max_seq * dim).0 + kv_heads
                * max_seq * dim
            &&& s.scores.start + s.scores.len <= part(t, heads * count * count).0 + heads * count
                * count
        }),
{
    let shared: usize = heads / kv_heads;
    proof {
        vstd::arithmetic::div_mod::lemma_fundamental_div_mod(heads as int, kv_heads as int);
        assert(kv_heads * shared <= heads);
        let (g, n, kv) = (group as int, count as int, kv_heads as int);
        lemma_group_part(g, kv, shared as int, heads as int, n, dim as int);
        lemma_group_part(g, kv, shared as int, heads as int, n, n);
        lemma_group_part(g, kv, 1, kv, max_seq as int, dim as int);
        lemma_whole_part(kv, shared as int, heads as int, n, dim as int);
        lemma_whole_part(kv, shared as int, heads as int, n, n);
        lemma_whole_part(kv, 1, kv, max_seq as int, dim as int);
        assert(1 * max_seq * dim == max_seq * dim) by (nonlinear_arith);
        assert(kv_heads * (max_seq * dim) == kv_heads * max_seq * dim) by (nonlinear_arith);
        assert(count == 0 ==> heads * count == 0) by (nonlinear_arith);
        lemma_text_part(text as int, texts as int, heads * count * dim);
        lemma_text_part(text as int, texts as int, heads * count * count);
        lemma_text_part(text as int, texts as int, kv_heads * max_seq * dim);
    }
    let query_len: usize = shared * count * dim;
    let cache_len: usize = max_seq * dim;
    let score_len: usize = shared * count * count;
    let queries: usize = text * (heads * count * dim);
    let cache: usize = text * (kv_heads * cache_len);
    let scores: usize = text * (heads * count * count);
    GroupSpans {
        queries: Span { start: queries + group * query_len, len: query_len },
        cache: Span { start: cache + group * cache_len, len: cache_len },
        scores: Span { start: scores + group * score_len, len: score_len },
    }
}

/// Before its columns count, a part is no longer than with them, unless there are none.
proof fn lemma_whole_part(groups: int, shared: int, heads: int, rows: int, cols: int)
    requires
        0 < groups,
        0 <= shared,
        groups * shared <= heads,
        0 <= rows,
        0 <= cols,
    ensures
        0 <= heads * rows,
        0 <= heads * rows * cols,
        cols > 0 ==> heads * rows <= heads * rows * cols,
{
    assert(0 <= heads) by (nonlinear_arith)
        requires
            groups * shared <= heads,
            0 < groups,
            0 <= shared,
    ;
    let n = heads * rows;
    assert(0 <= n) by (nonlinear_arith)
        requires
            n == heads * rows,
            0 <= heads,
            0 <= rows,
    ;
    assert(0 <= n * cols && (cols > 0 ==> n <= n * cols)) by (nonlinear_arith)
        requires
            0 <= n,
            0 <= cols,
    ;
}

proof fn lemma_text_part(text: int, texts: int, len: int)
    requires
        0 <= text < texts,
        0 <= len,
    ensures
        0 <= text * len,
        text * len + len <= texts * len,
        len <= texts * len,
{
    assert(0 <= text * len && text * len + len <= texts * len && len <= texts * len)
        by (nonlinear_arith)
        requires
            0 <= text < texts,
            0 <= len,
    ;
}

proof fn lemma_group_part(group: int, groups: int, shared: int, heads: int, rows: int, cols: int)
    requires
        0 <= group < groups,
        0 <= shared,
        groups * shared <= heads,
        0 <= rows,
        0 <= cols,
    ensures
        0 <= shared * rows <= shared * rows * cols || cols == 0 || rows == 0,
        0 <= shared * rows * cols,
        0 <= group * (shared * rows * cols),
        group * (shared * rows * cols) + shared * rows * cols <= heads * rows * cols,
        shared * rows <= heads * rows,
        shared * rows * cols <= heads * rows * cols,
{
    let n = shared * rows;
    let len = n * cols;
    assert(n >= 0) by (nonlinear_arith)
        requires
            n == shared * rows,
            shared >= 0,
            rows >= 0,
    ;
    assert(len >= 0 && (cols > 0 ==> n <= len)) by (nonlinear_arith)
        requires
            len == n * cols,
            n >= 0,
            cols >= 0,
    ;
    assert(shared <= heads) by (nonlinear_arith)
        requires
            groups * shared <= heads,
            groups >= 1,
            shared >= 0,
    ;
    assert(n <= heads * rows) by (nonlinear_arith)
        requires
            n == shared * rows,
            shared <= heads,
            rows >= 0,
    ;
    let all = heads * rows;
    assert(len <= all * cols) by (nonlinear_arith)
        requires
            len == n * cols,
            n <= all,
            cols >= 0,
    ;
    let g = group + 1;
    assert(g * shared <= heads) by (nonlinear_arith)
        requires
            g <= groups,
            shared >= 0,
            groups * shared <= heads,
    ;
    assert(g * n <= all) by (nonlinear_arith)
        requires
            n == shared * rows,
            all == heads * rows,
            g * shared <= heads,
            rows >= 0,
    ;
    assert(g * len <= all * cols) by (nonlinear_arith)
        requires
            len == n * cols,
            g * n <= all,
            cols >= 0,
    ;
    assert(g * len == group * len + len) by (nonlinear_arith)
        requires
            g == group + 1,
    ;
    assert(0 <= group * len) by (nonlinear_arith)
        requires
            group >= 0,
            len >= 0,
    ;
}

/// Where the groups share the heads evenly, their queries and scores fill the
/// buffers, and no two groups meet.
pub proof fn lemma_groups_cover_heads(heads: int, kv_heads: int, rows: int, cols: int)
    requires
        kv_heads > 0,
        heads >= 0,
        heads % kv_heads == 0,
        rows >= 0,
        cols >= 0,
    ensures
        ({
            let len = (heads / kv_heads) * rows * cols;
            &&& kv_heads * len == heads * rows * cols
            &&& forall|i: int, j: int|
                0 <= i < j < kv_heads ==> (#[trigger] part(i, len)).0 + len <= (#[trigger] part(
                    j,
                    len,
                )).0
            &&& forall|k: int|
                0 <= k < heads * rows * cols ==> {
                    let i = #[trigger] (k / len);
                    0 <= i < kv_heads && part(i, len).0 <= k < part(i, len).0 + len
                }
        }),
{
    let shared = heads / kv_heads;
    vstd::arithmetic::div_mod::lemma_fundamental_div_mod(heads, kv_heads);
    assert(heads == kv_heads * shared);
    assert(shared >= 0) by (nonlinear_arith)
        requires
            heads == kv_heads * shared,
            heads >= 0,
            kv_heads > 0,
    ;
    let n = shared * rows;
    let len = n * cols;
    assert(kv_heads * n == heads * rows) by (nonlinear_arith)
        requires
            heads == kv_heads * shared,
            n == shared * rows,
    ;
    let all = heads * rows;
    assert(kv_heads * len == all * cols) by (nonlinear_arith)
        requires
            kv_heads * n == all,
            len == n * cols,
    ;
    assert(n >= 0) by (nonlinear_arith)
        requires
            n == shared * rows,
            shared >= 0,
            rows >= 0,
    ;
    assert(len >= 0) by (nonlinear_arith)
        requires
            len == n * cols,
            n >= 0,
            cols >= 0,
    ;
    lemma_parts_tile(kv_heads, len);
}

/// The part of the hidden states of one text that holds its last position.
pub fn last_token(count: usize, hidden: usize) -> (s: Span)
    requires
        count > 0,
        count * hidden <= usize::MAX,
    ensures
        (s.start as int, s.len as int) == part(count - 1, hidden as int),
        s.start + s.len == count * hidden,
{
    proof {
        assert((count - 1) * hidden + hidden == count * hidden && (count - 1) * hidden >= 0)
            by (nonlinear_arith)
            requires
                count > 0,
        ;
    }
    Span { start: (count - 1) * hidden, len: hidden }
}

/// `cudarc::driver::LaunchConfig::for_num_elems` plans a thread for every element:
/// blocks of 1024 threads in a row, as few as hold the elements, and no shared memory.
#[verifier::external_body]
fn element_blocks(n: u32) -> (r: ((u32, u32, u32), (u32, u32, u32), u32))
    ensures
        r.0.0 == (n + 1023) / 1024,
        r.0.1 == 1 && r.0.2 == 1,
        r.1 == (1024u32, 1u32, 1u32),
        r.2 == 0,
{
    let config = cudarc::driver::LaunchConfig::for_num_elems(n);
    (config.grid_dim, config.block_dim, config.shared_mem_bytes)
}

/// Whether the launch has a thread for every one of `n` elements, and no block without
/// an element.
pub open spec fn covers_elements(l: Launch, n: int) -> bool {
    &&& l.grid.0 * 1024 >= n
    &&& l.grid.0 > 0 ==> (l.grid.0 - 1) * 1024 < n
    &&& l.grid.1 == 1
    &&& l.block == 1024
    &&& l.shared_bytes == 0
}

/// The launch of a kernel that takes `n` elements one by one.
pub fn elementwise(kernel: Kernel, n: usize) -> (l: Launch)
    requires
        n <= u32::MAX,
    ensures
        l.kernel == kernel,
        covers_elements(l, n as int),
{
    let (grid, block, shared_bytes): ((u32, u32, u32), (u32, u32, u32), u32) = element_blocks(
        n as u32,
    );
    Launch { kernel, grid: (grid.0, grid.1), block: block.0, shared_bytes }
}

/// The launch of the gated activation of rows that hold gates and inputs side by side.
pub fn silu_mul_split(rows: usize, width: usize) -> (l: Launch)
    requires
        rows * (width as int / 2) <= u32::MAX,
    ensures
        l.kernel == Kernel::SiluMulSplit,
        covers_elements(l, rows * (width as int / 2)),
{
    elementwise(Kernel::SiluMulSplit, rows * (width / 2))
}

/// The launch that repeats the cached positions of every key-value head for the query
/// heads that share it.
pub fn repeat_kv_from_cache(
    batch: usize,
    kv_heads: usize,
    shared: usize,
    context: usize,
    dim: usize,
) -> (l: Launch)
    requires
        kv_heads * shared <= usize::MAX,
        batch * (kv_heads * shared) <= usize::MAX,
        batch * (kv_heads * shared) * context <= usize::MAX,
        batch * (kv_heads * shared) * context * dim <= u32::MAX,
    ensures
        l.kernel == Kernel::RepeatKvFromCache,
        covers_elements(l, batch * (kv_heads * shared) * context * dim),
{
    let heads: usize = kv_heads * shared;
    elementwise(Kernel::RepeatKvFromCache, batch * heads * context * dim)
}

/// The launch that takes `len` positions out of every head.
pub fn slice_dim2(batch: usize, heads: usize, len: usize, dim: usize) -> (l: Launch)
    requires
        batch * heads <= usize::MAX,
        batch * heads * len <= usize::MAX,
        batch * heads * len * dim <= u32::MAX,
    ensures
        l.kernel == Kernel::SliceDim2,
        covers_elements(l, batch * heads * len * dim),
{
    elementwise(Kernel::SliceDim2, batch * heads * len * dim)
}

/// Products of the first factors stay within the product of all.
proof fn lemma_product_fits(a: int, b: int, c: int, d: int)
    requires
        a >= 0,
        b >= 0,
        c >= 1,
        d >= 1,
    ensures
        0 <= a * b <= a * b * c <= a * b * c * d,
{
    assert(a * b >= 0) by (nonlinear_arith)
        requires
            a >= 0,
            b >= 0,
    ;
    crate::tensor::lemma_factor(a * b, c);
    crate::tensor::lemma_factor(a * b * c, d);
}

/// How a convolution with a kernel of three by three, a stride of two and a border of
/// one is done: the fields of the kernel are laid out in rows, the rows are multiplied
/// with the weights, and the products are sorted by image and channel.
#[derive(Debug, Clone, Copy, PartialEq, Eq)]
pub struct ConvPlan {
    /// The height of the result.
    pub height: usize,
    /// The width of the result.
    pub width: usize,
    pub columns: Launch,
    pub product: Gemm,
    pub finish: Launch,
}

/// The plan of a convolution.
pub fn conv2d_3x3_s2p1_gelu(
    images: usize,
    channels_out: usize,
    channels_in: usize,
    height: usize,
    width: usize,
) -> (p: ConvPlan)
    requires
        height > 0,
        width > 0,
        channels_out <= i32::MAX,
        channels_in * 9 <= i32::MAX,
        images * halved(height as int) * halved(width as int) <= i32::MAX,
        images * halved(height as int) * halved(width as int) * (channels_in * 9) <= u32::MAX,
        images * channels_out <= usize::MAX,
        images * channels_out * halved(height as int) * halved(width as int) <= u32::MAX,
    ensures
        p.height == halved(height as int),
        p.width == halved(width as int),
        p.columns.kernel == Kernel::Im2col,
        covers_elements(p.columns, images * p.height * p.width * (channels_in * 9)),
        maps_rows(
            p.product,
            images * p.height * p.width,
            channels_out as int,
            channels_in * 9,
        ),
        !p.product.accumulate,
        p.finish.kernel == Kernel::ConvPostprocess,
        covers_elements(p.finish, images * channels_out * p.height * p.width),
{
    let high: usize = conv_output_len(height);
    let wide: usize = conv_output_len(width);
    proof {
        lemma_product_fits(images as int, 1, high as int, wide as int);
        assert(images * 1 == images);
        lemma_product_fits(images as int, channels_out as int, high as int, wide as int);
    }
    let rows: usize = images * high * wide;
    let inputs: usize = channels_in * 9;
    let total: usize = images * channels_out * high * wide;
    ConvPlan {
        height: high,
        width: wide,
        columns: elementwise(Kernel::Im2col, rows * inputs),
        product: linear_product(rows, channels_out, inputs, false),
        finish: elementwise(Kernel::ConvPostprocess, total),
    }
}

/// The sizes of a decoder layer.
#[derive(Debug, Clone, Copy, PartialEq, Eq)]
pub struct LayerSizes {
    pub hidden: usize,
    pub heads: usize,
    pub kv_heads: usize,
    pub dim: usize,
    pub intermediate: usize,
}

impl LayerSizes {
    /// The number of queries of a position, over all heads.
    pub open spec fn queries(self) -> int {
        self.heads * self.dim
    }

    /// The number of queries, keys and values of a position, over all heads.
    pub open spec fn projected(self) -> int {
        self.heads * self.dim + 2 * (self.kv_heads * self.dim)
    }

    /// Whether the work of `rows` positions fits on a device.
    pub open spec fn fits(self, rows: int) -> bool {
        &&& rows <= i32::MAX
        &&& self.hidden <= i32::MAX
        &&& self.heads + self.kv_heads <= u32::MAX
        &&& self.dim <= i32::MAX
        &&& self.projected() <= i32::MAX
        &&& 2 * self.intermediate <= i32::MAX
        &&& rows * self.intermediate <= u32::MAX
        &&& rows * self.queries() <= u32::MAX
    }
}

/// How a decoder layer does its work, in this order.
#[derive(Debug, Clone, Copy, PartialEq, Eq)]
pub struct LayerPlan {
    pub norm: Launch,
    pub projection: Gemm,
    pub extraction: Launch,
    pub attention: AttentionPath,
    /// The swap of heads and positions behind the attention.
    pub swap: Option<Launch>,
    /// Adds the output of the attention to the input of the layer.
    pub output: Gemm,
    pub second_norm: Launch,
    pub gates: Gemm,
    pub activation: Launch,
    /// Adds the output of the feed-forward part.
    pub down: Gemm,
}

/// The plan of a decoder layer for `count` new positions of every text, where `start`
/// positions are cached. Heads and positions need no swap where there is one new
/// position.
pub fn decoder_layer(
    sizes: LayerSizes,
    batch: usize,
    count: usize,
    start: usize,
    use_causal: bool,
) -> (p: LayerPlan)
    requires
        batch * count <= usize::MAX,
        start + count <= usize::MAX,
        sizes.fits(batch * count),
    ensures
        ({
            let rows = batch * count;
            &&& p.norm.kernel == Kernel::RmsNorm && reduces_rows(p.norm, rows, sizes.hidden, 1)
            &&& maps_rows(p.projection, rows, sizes.projected(), sizes.hidden as int)
            &&& !p.projection.accumulate
            &&& p.extraction.kernel == Kernel::QkvExtractQkvNormRotaryCache
            &&& p.extraction.grid.0 == rows && p.extraction.grid.1 == sizes.heads + sizes.kv_heads
            &&& is_reduction_block(p.extraction.block, sizes.dim as u32)
            &&& p.extraction.shared_bytes == p.extraction.block * 4
            &&& p.attention == attention_path_of(count as int, start + count, use_causal)
            &&& match p.swap {
                None => count == 1,
                Some(l) => count != 1 && l.kernel == Kernel::SwapDims12 && covers_elements(
                    l,
                    rows * sizes.queries(),
                ),
            }
            &&& maps_rows(p.output, rows, sizes.hidden as int, sizes.queries())
            &&& p.output.accumulate
            &&& p.second_norm == p.norm
            &&& maps_rows(p.gates, rows, 2 * sizes.intermediate, sizes.hidden as int)
            &&& !p.gates.accumulate
            &&& p.activation.kernel == Kernel::SiluMulSplit && covers_elements(
                p.activation,
                rows * sizes.intermediate,
            )
            &&& maps_rows(p.down, rows, sizes.hidden as int, sizes.intermediate as int)
            &&& p.down.accumulate
        }),
{
    let rows: usize = batch * count;
    proof {
        assert(0 <= sizes.heads * sizes.dim && 0 <= sizes.kv_heads * sizes.dim) by (nonlinear_arith)
            requires
                sizes.heads >= 0,
                sizes.kv_heads >= 0,
                sizes.dim >= 0,
        ;
    }
    let queries: usize = sizes.heads * sizes.dim;
    let keys: usize = sizes.kv_heads * sizes.dim;
    let swap: Option<Launch> = if count == 1 {
        None
    } else {
        Some(elementwise(Kernel::SwapDims12, rows * queries))
    };
    let width: usize = 2 * sizes.intermediate;
    assert(width as int / 2 == sizes.intermediate);
    let norm: Launch = rms_norm(rows, sizes.hidden);
    LayerPlan {
        norm,
        projection: linear_product(rows, queries + 2 * keys, sizes.hidden, false),
        extraction: qkv_extract(rows, sizes.heads, sizes.kv_heads, sizes.dim),
        attention: attention_path(count, start + count, use_causal),
        swap,
        output: linear_product(rows, sizes.hidden, queries, true),
        second_norm: norm,
        gates: linear_product(rows, width, sizes.hidden, false),
        activation: silu_mul_split(rows, width),
        down: linear_product(rows, sizes.hidden, sizes.intermediate, true),
    }
}

/// One query at a time decodes, in parts where it looks at more than 1024 rows; more
/// queries, or none, are filled in at once. The parts hold 256 rows, and 512 from 2048 rows
/// on.
pub proof fn lemma_attention_paths(count: int, context: int, use_causal: bool)
    requires
        count >= 0,
        context >= 0,
    ensures
        match attention_path_of(count, context, use_causal) {
            AttentionPath::Decode => count == 1 && context <= 1024,
            AttentionPath::DecodeSplit { chunk } => count == 1 && context > 1024 && (chunk == 256
                <==> context < 2048) && (chunk == 512 <==> context >= 2048),
            AttentionPath::Prefill { causal } => count != 1 && causal == (use_causal && count > 1),
        },
{
}

/// A block for decoding has 256 lanes, 512 for more than 512 rows, and 1024 for more than
/// 1024; as many lanes of it work side by side as there are elements in a row, and as many
/// groups of these as fit, but at least one.
pub proof fn lemma_decode_blocks(context: int, dim: int)
    requires
        context >= 0,
        dim > 0,
    ensures
        decode_block(context) == 256 <==> context <= 512,
        decode_block(context) == 512 <==> 512 < context <= 1024,
        decode_block(context) == 1024 <==> context > 1024,
        ({
            let block = decode_block(context) as int;
            let groups = time_lanes(block, dim);
            &&& groups >= 1
            &&& dim <= block ==> groups * dim <= block < (groups + 1) * dim
            &&& dim > block ==> groups == 1
        }),
{
    let block = decode_block(context) as int;
    let q = block / dim;
    vstd::arithmetic::div_mod::lemma_fundamental_div_mod(block, dim);
    assert(dim * q == q * dim && (q + 1) * dim == q * dim + dim) by (nonlinear_arith);
    if dim <= block {
        assert(q >= 1) by (nonlinear_arith)
            requires
                block == dim * q + block % dim,
                0 <= block % dim < dim,
                0 < dim <= block,
        ;
    } else {
        assert(q == 0) by (nonlinear_arith)
            requires
                block == dim * q + block % dim,
                0 <= block % dim < dim,
                0 <= block < dim,
        ;
    }
}

} // verus!

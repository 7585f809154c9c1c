use qwen_forced_aligner::launch::{
    add_residual_rms_norm, attention_path, block_for_reduction, conv2d_3x3_s2p1_gelu,
    decoder_layer, elementwise, embed_lookup, fused_gqa_decode, fused_gqa_decode_split,
    group_spans, header_directory, last_token, layer_norm, qkv_extract,
    qkv_extract_kv_norm_rotary_cache, qkv_extract_q_norm_rotary, repeat_kv_from_cache, rms_norm,
    rms_norm_rotary, scatter_audio_rows, silu_mul_split, slice_dim2, softmax_scaled_causal,
    AttentionPath, Kernel, Launch, LayerSizes, Span,
};
use qwen_forced_aligner::product::{
    attention_av, attention_qk, group_products, linear_product, Gemm,
};

#[test]
fn blocks_are_powers_of_two() {
    let expected = [
        (0, 32), (1, 32), (32, 32), (33, 64), (64, 64), (100, 128), (513, 1024), (1024, 1024),
        (5000, 1024),
    ];
    for (last, block) in expected {
        assert_eq!(block_for_reduction(last), block);
    }
}

#[test]
fn launches_that_reduce_rows() {
    let l = rms_norm(7, 1024);
    assert_eq!(
        l,
        Launch { kernel: Kernel::RmsNorm, grid: (7, 1), block: 1024, shared_bytes: 4096 }
    );
    assert_eq!(layer_norm(7, 100).shared_bytes, 1024);
    assert_eq!(add_residual_rms_norm(3, 128).kernel, Kernel::AddResidualRmsNorm);
    let rotated = [
        (rms_norm_rotary(6, 100), Kernel::RmsNormRotary),
        (qkv_extract_q_norm_rotary(6, 100), Kernel::QkvExtractQNormRotary),
        (qkv_extract_kv_norm_rotary_cache(6, 100), Kernel::QkvExtractKvNormRotaryCache),
    ];
    for (l, kernel) in rotated {
        assert_eq!(l, Launch { kernel, grid: (6, 1), block: 128, shared_bytes: 512 });
    }
    let causal = softmax_scaled_causal(5, 200, true);
    assert_eq!((causal.kernel, causal.shared_bytes), (Kernel::SoftmaxCausalOnline, 2048));
    let full = softmax_scaled_causal(5, 200, false);
    assert_eq!((full.kernel, full.shared_bytes), (Kernel::SoftmaxCausal, 1024));
}

#[test]
fn launches_that_copy_rows() {
    assert_eq!(
        scatter_audio_rows(9, 2048),
        Launch { kernel: Kernel::ScatterAudioRows, grid: (9, 1), block: 1024, shared_bytes: 0 }
    );
    assert_eq!(scatter_audio_rows(9, 300).block, 300);
    assert_eq!(
        embed_lookup(12),
        Launch { kernel: Kernel::EmbedLookup, grid: (12, 1), block: 256, shared_bytes: 0 }
    );
    let l = qkv_extract(10, 16, 8, 128);
    assert_eq!((l.grid, l.block, l.shared_bytes), ((10, 24), 128, 512));
}

#[test]
fn attention_from_one_position() {
    assert_eq!(attention_path(1, 1024, true), AttentionPath::Decode);
    assert_eq!(attention_path(1, 1025, true), AttentionPath::DecodeSplit { chunk: 256 });
    assert_eq!(attention_path(1, 2048, false), AttentionPath::DecodeSplit { chunk: 512 });
    assert_eq!(attention_path(2, 9000, true), AttentionPath::Prefill { causal: true });
    assert_eq!(attention_path(2, 9000, false), AttentionPath::Prefill { causal: false });

    let l = fused_gqa_decode(16, 128, 600);
    assert_eq!((l.grid, l.block, l.shared_bytes), ((16, 1), 512, (600 + 128 * 4) * 4));
    assert_eq!(fused_gqa_decode(16, 128, 200).block, 256);
    assert_eq!(fused_gqa_decode(16, 2000, 1025).shared_bytes, (1025 + 2000) * 4);

    let s = fused_gqa_decode_split(16, 128, 1100, 256);
    assert_eq!((s.chunk, s.chunks), (256, 5));
    assert_eq!(s.parts.grid, (16, 5));
    assert_eq!(s.parts.shared_bytes, (256 + 128 * 2) * 4);
    assert_eq!((s.merge.grid, s.merge.block), ((16, 1), 128));
}

#[test]
fn groups_of_heads_fill_the_buffers() {
    let (texts, heads, kv_heads, count, dim, max_seq) = (2, 6, 3, 5, 4, 9);
    let (mut queries, mut cache, mut scores) = (0, 0, 0);
    for text in 0..texts {
        for g in 0..kv_heads {
            let s = group_spans(text, texts, g, heads, kv_heads, count, dim, max_seq);
            assert_eq!((s.queries.start, s.cache.start, s.scores.start), (queries, cache, scores));
            queries += s.queries.len;
            cache += s.cache.len;
            scores += s.scores.len;
        }
    }
    assert_eq!(queries, texts * heads * count * dim);
    assert_eq!(cache, texts * kv_heads * max_seq * dim);
    assert_eq!(scores, texts * heads * count * count);
}

#[test]
fn last_positions() {
    assert_eq!(last_token(5, 3), Span { start: 12, len: 3 });
}

#[test]
fn headers_of_the_toolkit() {
    assert_eq!(header_directory(Some("/opt/cuda")), "/opt/cuda/include");
    assert_eq!(header_directory(None), "/usr/local/cuda/include");
}

#[test]
fn symbols_of_kernels_differ() {
    let kernels = [
        Kernel::RmsNorm, Kernel::AddResidualRmsNorm, Kernel::Add, Kernel::AddInplace,
        Kernel::SiluMul, Kernel::SiluMulSplit, Kernel::SoftmaxCausal, Kernel::SoftmaxCausalOnline,
        Kernel::RotaryEmb, Kernel::RmsNormRotary, Kernel::RepeatKvFromCache, Kernel::EmbedLookup,
        Kernel::EmbedLookupSingle, Kernel::Argmax, Kernel::ArgmaxIntoSlot,
        Kernel::LmHeadGemvArgmax, Kernel::SwapDims12, Kernel::QkvSplit,
        Kernel::QkvExtractQNormRotary, Kernel::QkvExtractKvNormRotaryCache,
        Kernel::QkvExtractQkvNormRotaryCache, Kernel::KvCacheWrite, Kernel::KvCacheWritePair,
        Kernel::Gelu, Kernel::GeluInplace, Kernel::LayerNorm, Kernel::AddBiasInplace,
        Kernel::SliceDim2, Kernel::ConcatDim2Write, Kernel::Im2col, Kernel::ConvPostprocess,
        Kernel::FusedGqaDecode, Kernel::FusedGqaDecodeSplitP1, Kernel::FusedGqaDecodeSplitP2,
        Kernel::ScatterAudioRows,
    ];
    let mut symbols: Vec<&str> = kernels.iter().map(|k| k.symbol()).collect();
    symbols.sort();
    symbols.dedup();
    assert_eq!(symbols.len(), 35);
    assert_eq!(Kernel::Im2col.symbol(), "im2col_3x3_s2p1_f16");
}

fn blocks(kernel: Kernel, n: u32) -> Launch {
    Launch { kernel, grid: (n, 1), block: 1024, shared_bytes: 0 }
}

#[test]
fn threads_for_every_element() {
    for (n, expected) in [(0, 0), (1, 1), (1024, 1), (1025, 2), (4_000_000_000, 3_906_250)] {
        assert_eq!(elementwise(Kernel::Add, n), blocks(Kernel::Add, expected));
    }
    assert_eq!(silu_mul_split(3, 2000), blocks(Kernel::SiluMulSplit, 3));
    assert_eq!(repeat_kv_from_cache(1, 8, 2, 10, 128), blocks(Kernel::RepeatKvFromCache, 20));
    assert_eq!(slice_dim2(1, 16, 2, 64), blocks(Kernel::SliceDim2, 2));
}

/// A product as the device does it, column by column.
fn product(g: &Gemm, a: &[i64], b: &[i64], c: &mut [i64]) {
    for i in 0..g.m as usize {
        for j in 0..g.n as usize {
            let mut sum = 0;
            for l in 0..g.k as usize {
                let at = if g.transpose_a {
                    i * g.lda as usize + l
                } else {
                    l * g.lda as usize + i
                };
                sum += a[at] * b[j * g.ldb as usize + l];
            }
            let at = j * g.ldc as usize + i;
            c[at] = if g.accumulate { c[at] + sum } else { sum };
        }
    }
}

#[test]
fn rows_are_mapped_on_the_device() {
    let x: Vec<i64> = (1..=6).collect(); // two rows of three
    let w: Vec<i64> = (1..=12).map(|v| v * v).collect(); // four outputs
    let mut y = vec![100; 8];
    product(&linear_product(2, 4, 3, true), &w, &x, &mut y);
    for r in 0..2 {
        for o in 0..4 {
            let sum: i64 = (0..3).map(|l| x[r * 3 + l] * w[o * 3 + l]).sum();
            assert_eq!(y[r * 4 + o], 100 + sum);
        }
    }
}

#[test]
fn heads_attend_on_the_device() {
    let (heads, m, n, d) = (2, 3, 4, 2);
    let q: Vec<i64> = (0..heads * m * d).map(|v| v as i64 + 1).collect();
    let k: Vec<i64> = (0..heads * n * d).map(|v| 3 * v as i64 - 7).collect();
    let p = attention_qk(heads, m, n, d);
    let mut scores = vec![0; heads * m * n];
    for t in 0..p.count as usize {
        let (a, b, c) = (t * p.stride_a as usize, t * p.stride_b as usize, t * p.stride_c as usize);
        product(&p.gemm, &k[a..], &q[b..], &mut scores[c..]);
    }
    for t in 0..heads {
        for i in 0..m {
            for j in 0..n {
                let sum: i64 =
                    (0..d).map(|l| q[(t * m + i) * d + l] * k[(t * n + j) * d + l]).sum();
                assert_eq!(scores[(t * m + i) * n + j], sum);
            }
        }
    }
    let p = attention_av(heads, m, n, d);
    let mut out = vec![0; heads * m * d];
    for t in 0..p.count as usize {
        let (a, b, c) = (t * p.stride_a as usize, t * p.stride_b as usize, t * p.stride_c as usize);
        product(&p.gemm, &k[a..], &scores[b..], &mut out[c..]);
    }
    for t in 0..heads {
        for i in 0..m {
            for e in 0..d {
                let sum: i64 =
                    (0..n).map(|j| scores[(t * m + i) * n + j] * k[(t * n + j) * d + e]).sum();
                assert_eq!(out[(t * m + i) * d + e], sum);
            }
        }
    }
}

#[test]
fn groups_attend_as_single_heads_do() {
    let (texts, heads, kv_heads, count, d, max_seq) = (2, 4, 2, 3, 2, 5);
    let shared = heads / kv_heads;
    let q: Vec<i64> = (0..texts * heads * count * d).map(|v| v as i64 + 1).collect();
    let cache: Vec<i64> = (0..texts * kv_heads * max_seq * d).map(|v| 2 * v as i64 - 5).collect();
    let p = group_products(shared, count, d);
    let mut scores = vec![0; texts * heads * count * count];
    for text in 0..texts {
        for g in 0..kv_heads {
            let s = group_spans(text, texts, g, heads, kv_heads, count, d, max_seq);
            for t in 0..shared {
                let b = s.queries.start + t * p.scores.stride_b as usize;
                let c = s.scores.start + t * p.scores.stride_c as usize;
                product(&p.scores.gemm, &cache[s.cache.start..], &q[b..], &mut scores[c..]);
            }
        }
    }
    for h in 0..texts * heads {
        let kv = h / heads * kv_heads + h % heads / shared;
        for i in 0..count {
            for j in 0..count {
                let sum: i64 = (0..d)
                    .map(|l| q[(h * count + i) * d + l] * cache[(kv * max_seq + j) * d + l])
                    .sum();
                assert_eq!(scores[(h * count + i) * count + j], sum);
            }
        }
    }
    assert_eq!((p.outputs.stride_a, p.outputs.stride_b, p.outputs.stride_c), (0, 9, 6));

    // All heads at once, over a cache that is repeated for every head.
    let mut repeated = vec![0; texts * heads * count * d];
    for h in 0..texts * heads {
        let kv = h / heads * kv_heads + h % heads / shared;
        for x in 0..count * d {
            repeated[h * count * d + x] = cache[kv * max_seq * d + x];
        }
    }
    let qk = attention_qk(texts * heads, count, count, d);
    let av = attention_av(texts * heads, count, count, d);
    let mut whole = vec![0; scores.len()];
    let mut expected = vec![0; q.len()];
    for h in 0..texts * heads {
        let (keys, queries) = (&repeated[h * count * d..], &q[h * count * d..]);
        product(&qk.gemm, keys, queries, &mut whole[h * count * count..]);
        let weights = &whole[h * count * count..];
        product(&av.gemm, keys, weights, &mut expected[h * count * d..]);
    }
    assert_eq!(scores, whole);
    let mut outputs = vec![0; q.len()];
    for text in 0..texts {
        for g in 0..kv_heads {
            let s = group_spans(text, texts, g, heads, kv_heads, count, d, max_seq);
            for t in 0..shared {
                let b = s.scores.start + t * p.outputs.stride_b as usize;
                let c = s.queries.start + t * p.outputs.stride_c as usize;
                product(&p.outputs.gemm, &cache[s.cache.start..], &scores[b..], &mut outputs[c..]);
            }
        }
    }
    assert_eq!(outputs, expected);
}

#[test]
fn convolutions_on_the_device() {
    let p = conv2d_3x3_s2p1_gelu(2, 480, 1, 128, 100);
    assert_eq!((p.height, p.width), (64, 50));
    assert_eq!(p.columns, blocks(Kernel::Im2col, 57));
    assert_eq!((p.product.m, p.product.n, p.product.k), (480, 6400, 9));
    assert_eq!(p.finish, blocks(Kernel::ConvPostprocess, 3000));
}

#[test]
fn layers_on_the_device() {
    let sizes =
        LayerSizes { hidden: 1024, heads: 16, kv_heads: 8, dim: 128, intermediate: 3072 };
    let p = decoder_layer(sizes, 1, 5, 0, true);
    assert_eq!(p.norm, rms_norm(5, 1024));
    assert_eq!(p.projection, linear_product(5, 4096, 1024, false));
    assert_eq!(p.extraction, qkv_extract(5, 16, 8, 128));
    assert_eq!(p.attention, AttentionPath::Prefill { causal: true });
    assert_eq!(p.swap, Some(blocks(Kernel::SwapDims12, 10)));
    assert_eq!(p.output, linear_product(5, 1024, 2048, true));
    assert_eq!(p.gates, linear_product(5, 6144, 1024, false));
    assert_eq!(p.activation, blocks(Kernel::SiluMulSplit, 15));
    assert_eq!(p.down, linear_product(5, 1024, 3072, true));
    let one = decoder_layer(sizes, 1, 1, 1999, true);
    assert_eq!((one.attention, one.swap), (AttentionPath::DecodeSplit { chunk: 256 }, None));
}

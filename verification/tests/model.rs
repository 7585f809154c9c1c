use qwen_forced_aligner::config::{AudioConfig, TextConfig};
use qwen_forced_aligner::model::{
    load_cpu_model, load_f32, load_fused_gate_up, load_fused_qkv, load_vec, load_weight, CpuConv2d,
    CpuLayerNorm, CpuLinear, ModelError, LAYER_NORM_EPS,
};
use qwen_forced_aligner::weights::{WeightTensor, Weights};

fn audio_config() -> AudioConfig {
    AudioConfig {
        d_model: 4,
        downsample_hidden_size: 2,
        encoder_attention_heads: 2,
        encoder_ffn_dim: 6,
        encoder_layers: 2,
        num_mel_bins: 16,
        max_source_positions: 30,
        n_window: 50,
        n_window_infer: 400,
        output_dim: 4,
    }
}

fn text_config() -> TextConfig {
    TextConfig {
        vocab_size: 5,
        hidden_size: 4,
        intermediate_size: 3,
        num_hidden_layers: 1,
        num_attention_heads: 2,
        num_key_value_heads: 1,
        head_dim: 2,
        rms_norm_eps: 1e-6f64.to_bits(),
        rope_theta: 1e6f64.to_bits(),
        max_position_embeddings: 64,
        rope_scaling: None,
    }
}

fn names() -> Vec<(String, Vec<usize>)> {
    let mut out: Vec<(String, Vec<usize>)> = Vec::new();
    let mut add = |name: &str, shape: &[usize]| out.push((name.to_string(), shape.to_vec()));
    add("thinker.model.embed_tokens.weight", &[5, 4]);
    add("thinker.lm_head.weight", &[7, 4]);
    add("thinker.model.norm.weight", &[4]);
    for (part, shape) in [
        ("input_layernorm", vec![4]),
        ("post_attention_layernorm", vec![4]),
        ("self_attn.q_norm", vec![2]),
        ("self_attn.k_norm", vec![2]),
        ("self_attn.q_proj", vec![4, 4]),
        ("self_attn.k_proj", vec![2, 4]),
        ("self_attn.v_proj", vec![2, 4]),
        ("self_attn.o_proj", vec![4, 4]),
        ("mlp.gate_proj", vec![3, 4]),
        ("mlp.up_proj", vec![3, 4]),
        ("mlp.down_proj", vec![4, 3]),
    ] {
        add(&format!("thinker.model.layers.0.{}.weight", part), &shape);
    }
    for layer in 0..2 {
        for (part, shape) in [
            ("self_attn_layer_norm", vec![4]),
            ("self_attn.q_proj", vec![4, 4]),
            ("self_attn.k_proj", vec![4, 4]),
            ("self_attn.v_proj", vec![4, 4]),
            ("self_attn.out_proj", vec![4, 4]),
            ("final_layer_norm", vec![4]),
            ("fc1", vec![6, 4]),
            ("fc2", vec![4, 6]),
        ] {
            let prefix = format!("thinker.audio_tower.layers.{}.{}", layer, part);
            add(&format!("{}.weight", prefix), &shape);
            add(&format!("{}.bias", prefix), &shape[..1]);
        }
    }
    for (part, shape) in [
        ("ln_post", vec![4]),
        ("proj1", vec![4, 4]),
        ("proj2", vec![4, 4]),
        ("conv2d1", vec![2, 1, 3, 3]),
        ("conv2d2", vec![2, 2, 3, 3]),
        ("conv2d3", vec![2, 2, 3, 3]),
    ] {
        add(&format!("thinker.audio_tower.{}.weight", part), &shape);
        add(&format!("thinker.audio_tower.{}.bias", part), &shape[..1]);
    }
    add("thinker.audio_tower.conv_out.weight", &[4, 4]);
    out
}

/// A tensor whose elements count up from `from`.
fn tensor(from: u32, shape: &[usize]) -> WeightTensor {
    let n: usize = shape.iter().product();
    WeightTensor::new((0..n as u32).map(|i| from + i).collect(), shape.to_vec())
}

fn weights(without: &str) -> Weights {
    let mut w = Weights::new();
    for (i, (name, shape)) in names().into_iter().enumerate() {
        if name != without {
            w.insert(name, tensor(1000 * i as u32, &shape));
        }
    }
    w
}

#[test]
fn models_are_put_together() {
    let w = weights("");
    let m = load_cpu_model(&w, &audio_config(), &text_config()).unwrap();
    assert_eq!((m.text_decoder.lm_head.rows, m.text_decoder.lm_head.cols), (7, 4));
    assert_eq!(m.text_decoder.embed_table.data, (0..20).collect::<Vec<u32>>());
    assert_eq!(m.text_decoder.layers.len(), 1);
    let layer = &m.text_decoder.layers[0];
    assert_eq!((layer.nqh, layer.nkvh, layer.hd), (2, 1, 2));
    assert_eq!((layer.qkv_w.rows, layer.qkv_w.cols), (8, 4));
    assert_eq!((layer.gu_w.rows, layer.gu_w.cols), (6, 4));
    assert_eq!(layer.eps, 1e-6f64.to_bits());
    assert_eq!(m.audio_encoder.layers.len(), 2);
    let attention = &m.audio_encoder.layers[1].attn;
    assert_eq!((attention.num_heads, attention.head_dim), (2, 2));
    assert_eq!(
        attention.q_proj.bias.as_ref().unwrap(),
        &w.get("thinker.audio_tower.layers.1.self_attn.q_proj.bias").unwrap().data
    );
    let stem = &m.audio_encoder.conv_stem;
    assert_eq!((stem.n_mels_out, stem.c3_out, stem.max_pos, stem.d_model), (2, 2, 30, 4));
    assert!(stem.conv_out.bias.is_none());
}

#[test]
fn missing_weights_are_named() {
    for (name, _) in names() {
        let r = load_cpu_model(&weights(&name), &audio_config(), &text_config());
        if name.ends_with(".bias") && !name.contains("norm") && !name.contains("ln_post") {
            assert!(r.is_ok(), "{}", name);
        } else {
            match r {
                Err(ModelError::Missing(found)) => assert_eq!(found, name),
                _ => panic!("{} is missing", name),
            }
        }
    }
}

#[test]
fn weights_by_name() {
    let mut w = Weights::new();
    w.insert("m".to_string(), tensor(1, &[2, 3]));
    w.insert("v".to_string(), tensor(7, &[2]));
    assert_eq!(load_f32(&w, "m").unwrap(), (vec![1, 2, 3, 4, 5, 6], vec![2, 3]));
    assert_eq!(load_vec(&w, "v").unwrap(), vec![7, 8]);
    let m = load_weight(&w, "m").unwrap();
    assert_eq!((m.rows, m.cols, m.data), (2, 3, vec![1, 2, 3, 4, 5, 6]));
    assert!(matches!(load_weight(&w, "v"), Err(ModelError::UnexpectedShape(n)) if n == "v"));
    assert!(matches!(load_vec(&w, "x"), Err(ModelError::Missing(n)) if n == "x"));
}

#[test]
fn projections_are_fused() {
    let mut w = Weights::new();
    w.insert("a.q_proj.weight".to_string(), tensor(1, &[2, 2]));
    w.insert("a.k_proj.weight".to_string(), tensor(11, &[1, 2]));
    w.insert("a.v_proj.weight".to_string(), tensor(21, &[1, 2]));
    let fused = load_fused_qkv(&w, "a").unwrap();
    assert_eq!((fused.rows, fused.cols), (4, 2));
    assert_eq!(fused.data, vec![1, 2, 3, 4, 11, 12, 21, 22]);
    w.insert("a.gate_proj.weight".to_string(), tensor(1, &[2, 2]));
    w.insert("a.up_proj.weight".to_string(), tensor(11, &[2, 2]));
    let fused = load_fused_gate_up(&w, "a").unwrap();
    assert_eq!((fused.rows, fused.cols), (4, 2));
    assert_eq!(fused.data, vec![1, 2, 3, 4, 11, 12, 13, 14]);
    w.insert("a.k_proj.weight".to_string(), tensor(11, &[1, 3]));
    let r = load_fused_qkv(&w, "a");
    assert!(matches!(r, Err(ModelError::UnexpectedShape(n)) if n == "a.k_proj.weight"));
    w.insert("a.up_proj.weight".to_string(), tensor(11, &[3, 2]));
    let r = load_fused_gate_up(&w, "a");
    assert!(matches!(r, Err(ModelError::UnexpectedShape(n)) if n == "a.up_proj.weight"));
}

#[test]
fn parts_by_name() {
    let mut w = Weights::new();
    w.insert("c.weight".to_string(), tensor(0, &[2, 3, 3, 3]));
    w.insert("l.weight".to_string(), tensor(5, &[1, 2]));
    w.insert("l.bias".to_string(), tensor(9, &[1]));
    w.insert("n.weight".to_string(), tensor(5, &[2]));
    w.insert("n.bias".to_string(), tensor(8, &[2]));
    let c = CpuConv2d::load(&w, "c").unwrap();
    assert_eq!((c.weight.rows, c.weight.cols), (2, 27));
    assert_eq!((c.in_channels, c.out_channels), (3, 2));
    assert!(c.bias.is_none());
    let l = CpuLinear::load(&w, "l").unwrap();
    assert_eq!(l.bias, Some(vec![9]));
    let n = CpuLayerNorm::load(&w, "n").unwrap();
    assert_eq!((n.weight, n.bias, n.eps), (vec![5, 6], vec![8, 9], LAYER_NORM_EPS));
    assert_eq!(f32::from_bits(LAYER_NORM_EPS), 1e-5);
    w.insert("d.weight".to_string(), tensor(0, &[2, 3, 5, 5]));
    assert!(matches!(CpuConv2d::load(&w, "d"), Err(ModelError::UnexpectedShape(_))));
}

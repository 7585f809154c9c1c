//! The parts of the model, put together from weights by name.

use crate::chars::{copy_text, push_text};
use crate::config::{AudioConfig, TextConfig};
use crate::decimal::{digits, lemma_written_number_reads, write_number};
use crate::tensor::{CpuWeight, append_range, numel};
use crate::weights::{WeightTensor, Weights, copy_all};
use vstd::prelude::*;

verus! {

/// Why a part could not be put together.
#[derive(Debug, Clone)]
pub enum ModelError {
    /// There is no weight with this name.
    Missing(String),
    /// The weight with this name does not have the shape that the part needs.
    UnexpectedShape(String),
}

/// What an error says: whether a weight is missing, and its name.
pub open spec fn fault(e: ModelError) -> (bool, Seq<char>) {
    match e {
        ModelError::Missing(n) => (true, n@),
        ModelError::UnexpectedShape(n) => (false, n@),
    }
}

/// The first of two faults.
pub open spec fn first(a: Option<(bool, Seq<char>)>, b: Option<(bool, Seq<char>)>) -> Option<
    (bool, Seq<char>),
> {
    if a is Some {
        a
    } else {
        b
    }
}

/// The name of a part of a part.
fn name_of(prefix: &str, suffix: &str) -> (s: String)
    ensures
        s@ == prefix@ + suffix@,
{
    let mut s: String = copy_text(prefix);
    push_text(&mut s, suffix);
    s
}

/// The elements of a matrix are as many as its shape says.
proof fn lemma_numel2(a: usize, b: usize, shape: Seq<usize>)
    requires
        shape.len() == 2,
        shape[0] == a,
        shape[1] == b,
    ensures
        numel(shape) == a * b,
{
    assert(shape.drop_last().drop_last() =~= Seq::empty());
    assert(shape.drop_last().last() == a);
    assert(shape.last() == b);
    assert(numel(shape.drop_last().drop_last()) == 1);
    assert(numel(shape.drop_last()) == 1 * a as nat);
}

proof fn lemma_kernel_numel(shape: Seq<usize>)
    requires
        shape.len() == 4,
        shape[2] == 3,
        shape[3] == 3,
    ensures
        numel(shape) == shape[0] * (shape[1] * 9),
{
    let three = shape.drop_last();
    let two = three.drop_last();
    assert(two.len() == 2 && two[0] == shape[0] && two[1] == shape[1]);
    lemma_numel2(shape[0], shape[1], two);
    assert(three.last() == 3 && shape.last() == 3);
    let n = shape[0] as int;
    let c = shape[1] as int;
    assert(numel(two) == n * c);
    assert(numel(three) == (n * c) * 3);
    assert(numel(shape) == ((n * c) * 3) * 3);
    assert(((n * c) * 3) * 3 == n * (c * 9)) by (nonlinear_arith);
}

/// The fault in a weight that must be there.
pub open spec fn vector_fault(w: Map<Seq<char>, WeightTensor>, name: Seq<char>) -> Option<
    (bool, Seq<char>),
> {
    if w.contains_key(name) {
        None
    } else {
        Some((true, name))
    }
}

/// The elements and the shape of a weight.
pub fn load_f32(w: &Weights, name: &str) -> (r: Result<(Vec<u32>, Vec<usize>), ModelError>)
    ensures
        match r {
            Ok((data, shape)) => vector_fault(w@, name@) is None && data@ == w@[name@].data@
                && shape@ == w@[name@].shape@,
            Err(e) => vector_fault(w@, name@) == Some(fault(e)),
        },
{
    match w.get(name) {
        Some(t) => Ok((copy_all(&t.data), copy_all(&t.shape))),
        None => Err(ModelError::Missing(copy_text(name))),
    }
}

/// The elements of a weight.
pub fn load_vec(w: &Weights, name: &str) -> (r: Result<Vec<u32>, ModelError>)
    ensures
        match r {
            Ok(data) => vector_fault(w@, name@) is None && data@ == w@[name@].data@,
            Err(e) => vector_fault(w@, name@) == Some(fault(e)),
        },
{
    match load_f32(w, name) {
        Ok((data, _)) => Ok(data),
        Err(e) => Err(e),
    }
}

/// The fault in a weight that must be a matrix.
pub open spec fn matrix_fault(w: Map<Seq<char>, WeightTensor>, name: Seq<char>) -> Option<
    (bool, Seq<char>),
> {
    if !w.contains_key(name) {
        Some((true, name))
    } else if w[name].shape@.len() != 2 {
        Some((false, name))
    } else {
        None
    }
}

/// Whether a matrix is the weight `t`.
pub open spec fn is_matrix(t: WeightTensor, m: CpuWeight<u32>) -> bool {
    &&& m.well_formed()
    &&& m.data@ == t.data@
    &&& m.rows == t.shape@[0]
    &&& m.cols == t.shape@[1]
}

/// A weight that is a matrix.
pub fn load_weight(w: &Weights, name: &str) -> (r: Result<CpuWeight<u32>, ModelError>)
    requires
        w.well_formed(),
    ensures
        match r {
            Ok(m) => matrix_fault(w@, name@) is None && is_matrix(w@[name@], m),
            Err(e) => matrix_fault(w@, name@) == Some(fault(e)),
        },
{
    match load_f32(w, name) {
        Ok((data, shape)) => {
            if shape.len() != 2 {
                return Err(ModelError::UnexpectedShape(copy_text(name)));
            }
            proof {
                assert(w@[name@].well_formed());
                lemma_numel2(shape@[0], shape@[1], shape@);
            }
            Ok(CpuWeight { data, rows: shape[0], cols: shape[1] })
        },
        Err(e) => Err(e),
    }
}

/// The fault in three weights that are to be stacked: the columns must agree, and a
/// `usize` must hold the number of rows.
pub open spec fn qkv_fault(w: Map<Seq<char>, WeightTensor>, p: Seq<char>) -> Option<
    (bool, Seq<char>),
> {
    let (q, k, v) = (p + ".q_proj.weight"@, p + ".k_proj.weight"@, p + ".v_proj.weight"@);
    if !w.contains_key(q) {
        Some((true, q))
    } else if !w.contains_key(k) {
        Some((true, k))
    } else if !w.contains_key(v) {
        Some((true, v))
    } else if w[q].shape@.len() < 2 {
        Some((false, q))
    } else if w[k].shape@.len() < 2 || w[k].shape@[1] != w[q].shape@[1] {
        Some((false, k))
    } else if w[v].shape@.len() < 2 || w[v].shape@[1] != w[q].shape@[1] {
        Some((false, v))
    } else if w[q].shape@[0] + 2 * w[k].shape@[0] > usize::MAX {
        Some((false, q))
    } else {
        None
    }
}

/// Whether a matrix is the projections to queries, keys and values, one on top of the
/// other.
pub open spec fn is_qkv(w: Map<Seq<char>, WeightTensor>, p: Seq<char>, m: CpuWeight<u32>) -> bool {
    let (q, k, v) = (p + ".q_proj.weight"@, p + ".k_proj.weight"@, p + ".v_proj.weight"@);
    &&& m.data@ == w[q].data@ + w[k].data@ + w[v].data@
    &&& m.rows == w[q].shape@[0] + 2 * w[k].shape@[0]
    &&& m.cols == w[q].shape@[1]
}

/// The projections to queries, keys and values as one matrix.
pub fn load_fused_qkv(w: &Weights, prefix: &str) -> (r: Result<CpuWeight<u32>, ModelError>)
    ensures
        match r {
            Ok(m) => qkv_fault(w@, prefix@) is None && is_qkv(w@, prefix@, m),
            Err(e) => qkv_fault(w@, prefix@) == Some(fault(e)),
        },
{
    let q_name: String = name_of(prefix, ".q_proj.weight");
    let k_name: String = name_of(prefix, ".k_proj.weight");
    let v_name: String = name_of(prefix, ".v_proj.weight");
    let (q, qs) = match load_f32(w, q_name.as_str()) {
        Ok(x) => x,
        Err(e) => return Err(e),
    };
    let (k, ks) = match load_f32(w, k_name.as_str()) {
        Ok(x) => x,
        Err(e) => return Err(e),
    };
    let (v, vs) = match load_f32(w, v_name.as_str()) {
        Ok(x) => x,
        Err(e) => return Err(e),
    };
    if qs.len() < 2 {
        return Err(ModelError::UnexpectedShape(q_name));
    }
    if ks.len() < 2 || ks[1] != qs[1] {
        return Err(ModelError::UnexpectedShape(k_name));
    }
    if vs.len() < 2 || vs[1] != qs[1] {
        return Err(ModelError::UnexpectedShape(v_name));
    }
    if ks[0] > usize::MAX / 2 || qs[0] > usize::MAX - 2 * ks[0] {
        return Err(ModelError::UnexpectedShape(q_name));
    }
    let mut data: Vec<u32> = q;
    append_range(&mut data, &k, 0, k.len());
    append_range(&mut data, &v, 0, v.len());
    assert(k@.subrange(0, k@.len() as int) =~= k@);
    assert(v@.subrange(0, v@.len() as int) =~= v@);
    Ok(CpuWeight { data, rows: qs[0] + 2 * ks[0], cols: qs[1] })
}

/// The fault in two weights that are to be stacked: the shapes must agree, and a
/// `usize` must hold the number of rows.
pub open spec fn gate_up_fault(w: Map<Seq<char>, WeightTensor>, p: Seq<char>) -> Option<
    (bool, Seq<char>),
> {
    let (g, u) = (p + ".gate_proj.weight"@, p + ".up_proj.weight"@);
    if !w.contains_key(g) {
        Some((true, g))
    } else if !w.contains_key(u) {
        Some((true, u))
    } else if w[g].shape@.len() < 2 {
        Some((false, g))
    } else if w[u].shape@.len() < 2 || w[u].shape@[0] != w[g].shape@[0] || w[u].shape@[1]
        != w[g].shape@[1] {
        Some((false, u))
    } else if 2 * w[g].shape@[0] > usize::MAX {
        Some((false, g))
    } else {
        None
    }
}

/// Whether a matrix is the projections to gates and values, one on top of the other.
pub open spec fn is_gate_up(
    w: Map<Seq<char>, WeightTensor>,
    p: Seq<char>,
    m: CpuWeight<u32>,
) -> bool {
    let (g, u) = (p + ".gate_proj.weight"@, p + ".up_proj.weight"@);
    &&& m.data@ == w[g].data@ + w[u].data@
    &&& m.rows == 2 * w[g].shape@[0]
    &&& m.cols == w[g].shape@[1]
}

/// The projections to gates and values as one matrix.
pub fn load_fused_gate_up(w: &Weights, prefix: &str) -> (r: Result<CpuWeight<u32>, ModelError>)
    ensures
        match r {
            Ok(m) => gate_up_fault(w@, prefix@) is None && is_gate_up(w@, prefix@, m),
            Err(e) => gate_up_fault(w@, prefix@) == Some(fault(e)),
        },
{
    let g_name: String = name_of(prefix, ".gate_proj.weight");
    let u_name: String = name_of(prefix, ".up_proj.weight");
    let (g, gs) = match load_f32(w, g_name.as_str()) {
        Ok(x) => x,
        Err(e) => return Err(e),
    };
    let (u, us) = match load_f32(w, u_name.as_str()) {
        Ok(x) => x,
        Err(e) => return Err(e),
    };
    if gs.len() < 2 {
        return Err(ModelError::UnexpectedShape(g_name));
    }
    if us.len() < 2 || us[0] != gs[0] || us[1] != gs[1] {
        return Err(ModelError::UnexpectedShape(u_name));
    }
    if gs[0] > usize::MAX / 2 {
        return Err(ModelError::UnexpectedShape(g_name));
    }
    let mut data: Vec<u32> = g;
    append_range(&mut data, &u, 0, u.len());
    assert(u@.subrange(0, u@.len() as int) =~= u@);
    Ok(CpuWeight { data, rows: 2 * gs[0], cols: gs[1] })
}

/// Whether a bias is the weight with a name, and none where there is no such weight.
pub open spec fn is_bias(
    w: Map<Seq<char>, WeightTensor>,
    name: Seq<char>,
    bias: Option<Vec<u32>>,
) -> bool {
    match bias {
        Some(b) => w.contains_key(name) && b@ == w[name].data@,
        None => !w.contains_key(name),
    }
}

fn load_bias(w: &Weights, name: &str) -> (r: Option<Vec<u32>>)
    ensures
        is_bias(w@, name@, r),
{
    match w.get(name) {
        Some(t) => Some(copy_all(&t.data)),
        None => None,
    }
}

/// A convolution with kernels of three by three.
pub struct CpuConv2d {
    /// A row for every output channel, a column for every input channel and place in
    /// the kernel.
    pub weight: CpuWeight<u32>,
    pub bias: Option<Vec<u32>>,
    pub in_channels: usize,
    pub out_channels: usize,
}

/// The fault in the weights of a convolution.
pub open spec fn conv_fault(w: Map<Seq<char>, WeightTensor>, p: Seq<char>) -> Option<
    (bool, Seq<char>),
> {
    let name = p + ".weight"@;
    if !w.contains_key(name) {
        Some((true, name))
    } else if w[name].shape@.len() != 4 || w[name].shape@[2] != 3 || w[name].shape@[3] != 3
        || w[name].shape@[1] * 9 > usize::MAX {
        Some((false, name))
    } else {
        None
    }
}

impl CpuConv2d {
    /// Whether the convolution is the one with the given name.
    pub open spec fn is_loaded(self, w: Map<Seq<char>, WeightTensor>, p: Seq<char>) -> bool {
        let t = w[p + ".weight"@];
        &&& self.weight.well_formed()
        &&& self.weight.data@ == t.data@
        &&& self.weight.rows == t.shape@[0]
        &&& self.weight.cols == t.shape@[1] * 9
        &&& self.out_channels == t.shape@[0]
        &&& self.in_channels == t.shape@[1]
        &&& is_bias(w, p + ".bias"@, self.bias)
    }

    /// The convolution with the given name.
    pub fn load(w: &Weights, prefix: &str) -> (r: Result<Self, ModelError>)
        requires
            w.well_formed(),
        ensures
            match r {
                Ok(c) => conv_fault(w@, prefix@) is None && c.is_loaded(w@, prefix@),
                Err(e) => conv_fault(w@, prefix@) == Some(fault(e)),
            },
    {
        let name: String = name_of(prefix, ".weight");
        let (data, shape) = match load_f32(w, name.as_str()) {
            Ok(x) => x,
            Err(e) => return Err(e),
        };
        if shape.len() != 4 || shape[2] != 3 || shape[3] != 3 || shape[1] > usize::MAX / 9 {
            return Err(ModelError::UnexpectedShape(name));
        }
        proof {
            assert(w@[prefix@ + ".weight"@].well_formed());
            lemma_kernel_numel(shape@);
        }
        let bias = load_bias(w, name_of(prefix, ".bias").as_str());
        Ok(
            CpuConv2d {
                weight: CpuWeight { data, rows: shape[0], cols: shape[1] * 9 },
                bias,
                in_channels: shape[1],
                out_channels: shape[0],
            },
        )
    }
}

/// A linear map.
pub struct CpuLinear {
    pub weight: CpuWeight<u32>,
    pub bias: Option<Vec<u32>>,
}

impl CpuLinear {
    /// Whether the map is the one with the given name.
    pub open spec fn is_loaded(self, w: Map<Seq<char>, WeightTensor>, p: Seq<char>) -> bool {
        &&& is_matrix(w[p + ".weight"@], self.weight)
        &&& is_bias(w, p + ".bias"@, self.bias)
    }

    /// The linear map with the given name.
    pub fn load(w: &Weights, prefix: &str) -> (r: Result<Self, ModelError>)
        requires
            w.well_formed(),
        ensures
            match r {
                Ok(l) => matrix_fault(w@, prefix@ + ".weight"@) is None && l.is_loaded(w@, prefix@),
                Err(e) => matrix_fault(w@, prefix@ + ".weight"@) == Some(fault(e)),
            },
    {
        let weight = match load_weight(w, name_of(prefix, ".weight").as_str()) {
            Ok(x) => x,
            Err(e) => return Err(e),
        };
        let bias = load_bias(w, name_of(prefix, ".bias").as_str());
        Ok(CpuLinear { weight, bias })
    }
}

/// The fault in the weights of a linear map.
pub open spec fn linear_fault(w: Map<Seq<char>, WeightTensor>, p: Seq<char>) -> Option<
    (bool, Seq<char>),
> {
    matrix_fault(w, p + ".weight"@)
}

/// What is added to the variance in a layer norm: `1e-5`, in single precision.
pub const LAYER_NORM_EPS: u32 = 0x3727_c5ac;

/// A layer norm.
pub struct CpuLayerNorm {
    pub weight: Vec<u32>,
    pub bias: Vec<u32>,
    /// In single precision.
    pub eps: u32,
}

/// The fault in the weights of a layer norm.
pub open spec fn norm_fault(w: Map<Seq<char>, WeightTensor>, p: Seq<char>) -> Option<
    (bool, Seq<char>),
> {
    first(vector_fault(w, p + ".weight"@), vector_fault(w, p + ".bias"@))
}

impl CpuLayerNorm {
    /// Whether the norm is the one with the given name.
    pub open spec fn is_loaded(self, w: Map<Seq<char>, WeightTensor>, p: Seq<char>) -> bool {
        &&& self.weight@ == w[p + ".weight"@].data@
        &&& self.bias@ == w[p + ".bias"@].data@
        &&& self.eps == LAYER_NORM_EPS
    }

    /// The layer norm with the given name.
    pub fn load(w: &Weights, prefix: &str) -> (r: Result<Self, ModelError>)
        ensures
            match r {
                Ok(n) => norm_fault(w@, prefix@) is None && n.is_loaded(w@, prefix@),
                Err(e) => norm_fault(w@, prefix@) == Some(fault(e)),
            },
    {
        let weight = match load_vec(w, name_of(prefix, ".weight").as_str()) {
            Ok(x) => x,
            Err(e) => return Err(e),
        };
        let bias = match load_vec(w, name_of(prefix, ".bias").as_str()) {
            Ok(x) => x,
            Err(e) => return Err(e),
        };
        Ok(CpuLayerNorm { weight, bias, eps: LAYER_NORM_EPS })
    }
}

/// Self-attention of the audio encoder.
pub struct CpuAudioAttention {
    pub q_proj: CpuLinear,
    pub k_proj: CpuLinear,
    pub v_proj: CpuLinear,
    pub out_proj: CpuLinear,
    pub num_heads: usize,
    pub head_dim: usize,
}

/// The fault in the weights of self-attention.
pub open spec fn attention_fault(w: Map<Seq<char>, WeightTensor>, p: Seq<char>) -> Option<
    (bool, Seq<char>),
> {
    first(
        linear_fault(w, p + ".q_proj"@),
        first(
            linear_fault(w, p + ".k_proj"@),
            first(linear_fault(w, p + ".v_proj"@), linear_fault(w, p + ".out_proj"@)),
        ),
    )
}

impl CpuAudioAttention {
    /// Whether this is the part with the given name.
    pub open spec fn is_loaded(
        self,
        w: Map<Seq<char>, WeightTensor>,
        p: Seq<char>,
        num_heads: usize,
        d_model: usize,
    ) -> bool {
        &&& self.q_proj.is_loaded(w, p + ".q_proj"@)
        &&& self.k_proj.is_loaded(w, p + ".k_proj"@)
        &&& self.v_proj.is_loaded(w, p + ".v_proj"@)
        &&& self.out_proj.is_loaded(w, p + ".out_proj"@)
        &&& self.num_heads == num_heads
        &&& self.head_dim == d_model / num_heads
    }

    /// The part with the given name.
    pub fn load(w: &Weights, prefix: &str, num_heads: usize, d_model: usize) -> (r: Result<
        Self,
        ModelError,
    >)
        requires
            w.well_formed(),
            num_heads > 0,
        ensures
            match r {
                Ok(x) => attention_fault(w@, prefix@) is None && x.is_loaded(
                    w@,
                    prefix@,
                    num_heads,
                    d_model,
                ),
                Err(e) => attention_fault(w@, prefix@) == Some(fault(e)),
            },
    {
        let q_proj = match CpuLinear::load(w, name_of(prefix, ".q_proj").as_str()) {
            Ok(x) => x,
            Err(e) => return Err(e),
        };
        let k_proj = match CpuLinear::load(w, name_of(prefix, ".k_proj").as_str()) {
            Ok(x) => x,
            Err(e) => return Err(e),
        };
        let v_proj = match CpuLinear::load(w, name_of(prefix, ".v_proj").as_str()) {
            Ok(x) => x,
            Err(e) => return Err(e),
        };
        let out_proj = match CpuLinear::load(w, name_of(prefix, ".out_proj").as_str()) {
            Ok(x) => x,
            Err(e) => return Err(e),
        };
        let head_dim: usize = d_model / num_heads;
        Ok(CpuAudioAttention { q_proj, k_proj, v_proj, out_proj, num_heads, head_dim })
    }
}

/// The feed-forward part of a layer of the audio encoder.
pub struct CpuAudioFfn {
    pub fc1: CpuLinear,
    pub fc2: CpuLinear,
}

/// The fault in the weights of a feed-forward part.
pub open spec fn ffn_fault(w: Map<Seq<char>, WeightTensor>, p: Seq<char>) -> Option<
    (bool, Seq<char>),
> {
    first(linear_fault(w, p + ".fc1"@), linear_fault(w, p + ".fc2"@))
}

impl CpuAudioFfn {
    /// Whether this is the part with the given name.
    pub open spec fn is_loaded(self, w: Map<Seq<char>, WeightTensor>, p: Seq<char>) -> bool {
        &&& self.fc1.is_loaded(w, p + ".fc1"@)
        &&& self.fc2.is_loaded(w, p + ".fc2"@)
    }

    /// The part with the given name.
    pub fn load(w: &Weights, prefix: &str) -> (r: Result<Self, ModelError>)
        requires
            w.well_formed(),
        ensures
            match r {
                Ok(x) => ffn_fault(w@, prefix@) is None && x.is_loaded(w@, prefix@),
                Err(e) => ffn_fault(w@, prefix@) == Some(fault(e)),
            },
    {
        let fc1 = match CpuLinear::load(w, name_of(prefix, ".fc1").as_str()) {
            Ok(x) => x,
            Err(e) => return Err(e),
        };
        let fc2 = match CpuLinear::load(w, name_of(prefix, ".fc2").as_str()) {
            Ok(x) => x,
            Err(e) => return Err(e),
        };
        Ok(CpuAudioFfn { fc1, fc2 })
    }
}

/// A layer of the audio encoder.
pub struct CpuAudioLayer {
    pub sln: CpuLayerNorm,
    pub attn: CpuAudioAttention,
    pub fln: CpuLayerNorm,
    pub ffn: CpuAudioFfn,
}

/// The fault in the weights of a layer of the audio encoder.
pub open spec fn audio_layer_fault(w: Map<Seq<char>, WeightTensor>, p: Seq<char>) -> Option<
    (bool, Seq<char>),
> {
    first(
        norm_fault(w, p + ".self_attn_layer_norm"@),
        first(
            attention_fault(w, p + ".self_attn"@),
            first(norm_fault(w, p + ".final_layer_norm"@), ffn_fault(w, p)),
        ),
    )
}

impl CpuAudioLayer {
    /// Whether this is the part with the given name.
    pub open spec fn is_loaded(
        self,
        w: Map<Seq<char>, WeightTensor>,
        p: Seq<char>,
        num_heads: usize,
        d_model: usize,
    ) -> bool {
        &&& self.sln.is_loaded(w, p + ".self_attn_layer_norm"@)
        &&& self.attn.is_loaded(w, p + ".self_attn"@, num_heads, d_model)
        &&& self.fln.is_loaded(w, p + ".final_layer_norm"@)
        &&& self.ffn.is_loaded(w, p)
    }

    /// The part with the given name.
    pub fn load(w: &Weights, prefix: &str, num_heads: usize, d_model: usize) -> (r: Result<
        Self,
        ModelError,
    >)
        requires
            w.well_formed(),
            num_heads > 0,
        ensures
            match r {
                Ok(x) => audio_layer_fault(w@, prefix@) is None && x.is_loaded(
                    w@,
                    prefix@,
                    num_heads,
                    d_model,
                ),
                Err(e) => audio_layer_fault(w@, prefix@) == Some(fault(e)),
            },
    {
        let sln = match CpuLayerNorm::load(w, name_of(prefix, ".self_attn_layer_norm").as_str()) {
            Ok(x) => x,
            Err(e) => return Err(e),
        };
        let attn = match CpuAudioAttention::load(
            w,
            name_of(prefix, ".self_attn").as_str(),
            num_heads,
            d_model,
        ) {
            Ok(x) => x,
            Err(e) => return Err(e),
        };
        let fln = match CpuLayerNorm::load(w, name_of(prefix, ".final_layer_norm").as_str()) {
            Ok(x) => x,
            Err(e) => return Err(e),
        };
        let ffn = match CpuAudioFfn::load(w, prefix) {
            Ok(x) => x,
            Err(e) => return Err(e),
        };
        Ok(CpuAudioLayer { sln, attn, fln, ffn })
    }
}

/// The convolutions at the start of the audio encoder, and the map behind them. The
/// table of positions is computed from `d_model` and `max_pos`.
pub struct CpuConvStem {
    pub conv1: CpuConv2d,
    pub conv2: CpuConv2d,
    pub conv3: CpuConv2d,
    pub conv_out: CpuLinear,
    pub d_model: usize,
    pub max_pos: usize,
    /// The number of mel rows behind the convolutions.
    pub n_mels_out: usize,
    /// The number of channels behind the convolutions.
    pub c3_out: usize,
}

/// The fault in the weights of the convolutions.
pub open spec fn stem_fault(w: Map<Seq<char>, WeightTensor>, p: Seq<char>) -> Option<
    (bool, Seq<char>),
> {
    first(
        conv_fault(w, p + ".conv2d1"@),
        first(
            conv_fault(w, p + ".conv2d2"@),
            first(conv_fault(w, p + ".conv2d3"@), linear_fault(w, p + ".conv_out"@)),
        ),
    )
}

impl CpuConvStem {
    /// Whether these are the convolutions with the given name.
    pub open spec fn is_loaded(
        self,
        w: Map<Seq<char>, WeightTensor>,
        p: Seq<char>,
        config: AudioConfig,
    ) -> bool {
        &&& self.conv1.is_loaded(w, p + ".conv2d1"@)
        &&& self.conv2.is_loaded(w, p + ".conv2d2"@)
        &&& self.conv3.is_loaded(w, p + ".conv2d3"@)
        &&& self.conv_out.is_loaded(w, p + ".conv_out"@)
        &&& self.d_model == config.d_model
        &&& self.max_pos == config.max_source_positions
        &&& self.n_mels_out == config.num_mel_bins / 8
        &&& self.c3_out == self.conv3.out_channels
    }

    /// The convolutions with the given name.
    pub fn load(w: &Weights, prefix: &str, config: &AudioConfig) -> (r: Result<Self, ModelError>)
        requires
            w.well_formed(),
        ensures
            match r {
                Ok(x) => stem_fault(w@, prefix@) is None && x.is_loaded(w@, prefix@, *config),
                Err(e) => stem_fault(w@, prefix@) == Some(fault(e)),
            },
    {
        let conv1 = match CpuConv2d::load(w, name_of(prefix, ".conv2d1").as_str()) {
            Ok(x) => x,
            Err(e) => return Err(e),
        };
        let conv2 = match CpuConv2d::load(w, name_of(prefix, ".conv2d2").as_str()) {
            Ok(x) => x,
            Err(e) => return Err(e),
        };
        let conv3 = match CpuConv2d::load(w, name_of(prefix, ".conv2d3").as_str()) {
            Ok(x) => x,
            Err(e) => return Err(e),
        };
        let conv_out = match CpuLinear::load(w, name_of(prefix, ".conv_out").as_str()) {
            Ok(x) => x,
            Err(e) => return Err(e),
        };
        let c3_out: usize = conv3.out_channels;
        Ok(
            CpuConvStem {
                conv1,
                conv2,
                conv3,
                conv_out,
                d_model: config.d_model,
                max_pos: config.max_source_positions,
                n_mels_out: config.num_mel_bins / 2 / 2 / 2,
                c3_out,
            },
        )
    }
}

/// The name of a layer.
pub open spec fn layer_name(p: Seq<char>, i: int) -> Seq<char> {
    p + ".layers."@ + digits(i as nat)
}

fn name_layer(prefix: &str, i: usize) -> (s: String)
    ensures
        s@ == layer_name(prefix@, i as int),
{
    let mut s: String = name_of(prefix, ".layers.");
    push_text(&mut s, write_number(i).as_str());
    s
}

/// The audio encoder.
pub struct CpuAudioEncoder {
    pub conv_stem: CpuConvStem,
    pub layers: Vec<CpuAudioLayer>,
    pub ln_post: CpuLayerNorm,
    pub proj1: CpuLinear,
    pub proj2: CpuLinear,
    pub d_model: usize,
    pub output_dim: usize,
}

/// The first fault in the weights of the first `n` layers of the audio encoder.
pub open spec fn audio_layers_fault(
    w: Map<Seq<char>, WeightTensor>,
    p: Seq<char>,
    n: nat,
) -> Option<(bool, Seq<char>)>
    decreases n,
{
    if n == 0 {
        None
    } else {
        first(
            audio_layers_fault(w, p, (n - 1) as nat),
            audio_layer_fault(w, layer_name(p, n - 1)),
        )
    }
}

/// The fault in the weights of the audio encoder.
pub open spec fn encoder_fault(
    w: Map<Seq<char>, WeightTensor>,
    p: Seq<char>,
    layers: nat,
) -> Option<(bool, Seq<char>)> {
    first(
        audio_layers_fault(w, p, layers),
        first(
            norm_fault(w, p + ".ln_post"@),
            first(
                linear_fault(w, p + ".proj1"@),
                first(linear_fault(w, p + ".proj2"@), stem_fault(w, p)),
            ),
        ),
    )
}

/// A fault in a layer is a fault in as many layers or more.
proof fn lemma_audio_layers_fault(w: Map<Seq<char>, WeightTensor>, p: Seq<char>, i: nat, n: nat)
    requires
        i <= n,
        audio_layers_fault(w, p, i) is Some,
    ensures
        audio_layers_fault(w, p, n) == audio_layers_fault(w, p, i),
    decreases n,
{
    if i < n {
        lemma_audio_layers_fault(w, p, i, (n - 1) as nat);
    }
}

impl CpuAudioEncoder {
    /// Whether this is the audio encoder with the given name.
    pub open spec fn is_loaded(
        self,
        w: Map<Seq<char>, WeightTensor>,
        p: Seq<char>,
        config: AudioConfig,
    ) -> bool {
        &&& self.conv_stem.is_loaded(w, p, config)
        &&& self.layers@.len() == config.encoder_layers
        &&& forall|i: int|
            0 <= i < self.layers@.len() ==> (#[trigger] self.layers@[i]).is_loaded(
                w,
                layer_name(p, i),
                config.encoder_attention_heads,
                config.d_model,
            )
        &&& self.ln_post.is_loaded(w, p + ".ln_post"@)
        &&& self.proj1.is_loaded(w, p + ".proj1"@)
        &&& self.proj2.is_loaded(w, p + ".proj2"@)
        &&& self.d_model == config.d_model
        &&& self.output_dim == config.output_dim
    }

    /// The audio encoder with the given name.
    pub fn load(w: &Weights, prefix: &str, config: &AudioConfig) -> (r: Result<Self, ModelError>)
        requires
            w.well_formed(),
            config.encoder_attention_heads > 0 || config.encoder_layers == 0,
        ensures
            match r {
                Ok(x) => encoder_fault(w@, prefix@, config.encoder_layers as nat) is None
                    && x.is_loaded(w@, prefix@, *config),
                Err(e) => encoder_fault(w@, prefix@, config.encoder_layers as nat) == Some(
                    fault(e),
                ),
            },
    {
        let mut layers: Vec<CpuAudioLayer> = Vec::new();
        for i in 0..config.encoder_layers
            invariant
                w.well_formed(),
                config.encoder_attention_heads > 0 || config.encoder_layers == 0,
                layers@.len() == i,
                audio_layers_fault(w@, prefix@, i as nat) is None,
                forall|k: int|
                    0 <= k < i ==> (#[trigger] layers@[k]).is_loaded(
                        w@,
                        layer_name(prefix@, k),
                        config.encoder_attention_heads,
                        config.d_model,
                    ),
        {
            match CpuAudioLayer::load(
                w,
                name_layer(prefix, i).as_str(),
                config.encoder_attention_heads,
                config.d_model,
            ) {
                Ok(x) => {
                    layers.push(x);
                },
                Err(e) => {
                    proof {
                        lemma_audio_layers_fault(
                            w@,
                            prefix@,
                            (i + 1) as nat,
                            config.encoder_layers as nat,
                        );
                    }
                    return Err(e);
                },
            }
        }
        let ln_post = match CpuLayerNorm::load(w, name_of(prefix, ".ln_post").as_str()) {
            Ok(x) => x,
            Err(e) => return Err(e),
        };
        let proj1 = match CpuLinear::load(w, name_of(prefix, ".proj1").as_str()) {
            Ok(x) => x,
            Err(e) => return Err(e),
        };
        let proj2 = match CpuLinear::load(w, name_of(prefix, ".proj2").as_str()) {
            Ok(x) => x,
            Err(e) => return Err(e),
        };
        let conv_stem = match CpuConvStem::load(w, prefix, config) {
            Ok(x) => x,
            Err(e) => return Err(e),
        };
        Ok(
            CpuAudioEncoder {
                conv_stem,
                layers,
                ln_post,
                proj1,
                proj2,
                d_model: config.d_model,
                output_dim: config.output_dim,
            },
        )
    }
}

/// A layer of the text decoder.
pub struct CpuDecoderLayer {
    /// The norm in front of the attention.
    pub iln_w: Vec<u32>,
    /// The norm behind the attention.
    pub pln_w: Vec<u32>,
    /// The norm of queries.
    pub qn_w: Vec<u32>,
    /// The norm of keys.
    pub kn_w: Vec<u32>,
    pub qkv_w: CpuWeight<u32>,
    pub o_w: CpuWeight<u32>,
    pub gu_w: CpuWeight<u32>,
    pub dp_w: CpuWeight<u32>,
    pub nqh: usize,
    pub nkvh: usize,
    pub hd: usize,
    /// In double precision.
    pub eps: u64,
}

/// The fault in the weights of a layer of the text decoder.
pub open spec fn decoder_layer_fault(w: Map<Seq<char>, WeightTensor>, p: Seq<char>) -> Option<
    (bool, Seq<char>),
> {
    first(
        vector_fault(w, p + ".input_layernorm.weight"@),
        first(
            vector_fault(w, p + ".post_attention_layernorm.weight"@),
            first(
                vector_fault(w, p + ".self_attn.q_norm.weight"@),
                first(
                    vector_fault(w, p + ".self_attn.k_norm.weight"@),
                    first(
                        qkv_fault(w, p + ".self_attn"@),
                        first(
                            matrix_fault(w, p + ".self_attn.o_proj.weight"@),
                            first(
                                gate_up_fault(w, p + ".mlp"@),
                                matrix_fault(w, p + ".mlp.down_proj.weight"@),
                            ),
                        ),
                    ),
                ),
            ),
        ),
    )
}

impl CpuDecoderLayer {
    /// Whether this is the layer with the given name.
    pub open spec fn is_loaded(
        self,
        w: Map<Seq<char>, WeightTensor>,
        p: Seq<char>,
        config: TextConfig,
    ) -> bool {
        &&& self.iln_w@ == w[p + ".input_layernorm.weight"@].data@
        &&& self.pln_w@ == w[p + ".post_attention_layernorm.weight"@].data@
        &&& self.qn_w@ == w[p + ".self_attn.q_norm.weight"@].data@
        &&& self.kn_w@ == w[p + ".self_attn.k_norm.weight"@].data@
        &&& is_qkv(w, p + ".self_attn"@, self.qkv_w)
        &&& is_matrix(w[p + ".self_attn.o_proj.weight"@], self.o_w)
        &&& is_gate_up(w, p + ".mlp"@, self.gu_w)
        &&& is_matrix(w[p + ".mlp.down_proj.weight"@], self.dp_w)
        &&& self.nqh == config.num_attention_heads
        &&& self.nkvh == config.num_key_value_heads
        &&& self.hd == config.head_dim
        &&& self.eps == config.rms_norm_eps
    }

    /// The layer with the given name.
    pub fn load(w: &Weights, prefix: &str, config: &TextConfig) -> (r: Result<Self, ModelError>)
        requires
            w.well_formed(),
        ensures
            match r {
                Ok(x) => decoder_layer_fault(w@, prefix@) is None && x.is_loaded(
                    w@,
                    prefix@,
                    *config,
                ),
                Err(e) => decoder_layer_fault(w@, prefix@) == Some(fault(e)),
            },
    {
        let iln_w = match load_vec(w, name_of(prefix, ".input_layernorm.weight").as_str()) {
            Ok(x) => x,
            Err(e) => return Err(e),
        };
        let pln_w = match load_vec(w, name_of(prefix, ".post_attention_layernorm.weight").as_str()) {
            Ok(x) => x,
            Err(e) => return Err(e),
        };
        let qn_w = match load_vec(w, name_of(prefix, ".self_attn.q_norm.weight").as_str()) {
            Ok(x) => x,
            Err(e) => return Err(e),
        };
        let kn_w = match load_vec(w, name_of(prefix, ".self_attn.k_norm.weight").as_str()) {
            Ok(x) => x,
            Err(e) => return Err(e),
        };
        let qkv_w = match load_fused_qkv(w, name_of(prefix, ".self_attn").as_str()) {
            Ok(x) => x,
            Err(e) => return Err(e),
        };
        let o_w = match load_weight(w, name_of(prefix, ".self_attn.o_proj.weight").as_str()) {
            Ok(x) => x,
            Err(e) => return Err(e),
        };
        let gu_w = match load_fused_gate_up(w, name_of(prefix, ".mlp").as_str()) {
            Ok(x) => x,
            Err(e) => return Err(e),
        };
        let dp_w = match load_weight(w, name_of(prefix, ".mlp.down_proj.weight").as_str()) {
            Ok(x) => x,
            Err(e) => return Err(e),
        };
        Ok(
            CpuDecoderLayer {
                iln_w,
                pln_w,
                qn_w,
                kn_w,
                qkv_w,
                o_w,
                gu_w,
                dp_w,
                nqh: config.num_attention_heads,
                nkvh: config.num_key_value_heads,
                hd: config.head_dim,
                eps: config.rms_norm_eps,
            },
        )
    }
}

/// The text decoder.
pub struct CpuTextDecoder {
    pub embed_table: CpuWeight<u32>,
    /// The classifier, which is not the table of embeddings.
    pub lm_head: CpuWeight<u32>,
    pub layers: Vec<CpuDecoderLayer>,
    pub norm_w: Vec<u32>,
    /// In double precision.
    pub eps: u64,
}

/// The first fault in the weights of the first `n` layers of the text decoder.
pub open spec fn decoder_layers_fault(
    w: Map<Seq<char>, WeightTensor>,
    p: Seq<char>,
    n: nat,
) -> Option<(bool, Seq<char>)>
    decreases n,
{
    if n == 0 {
        None
    } else {
        first(
            decoder_layers_fault(w, p, (n - 1) as nat),
            decoder_layer_fault(w, layer_name(p, n - 1)),
        )
    }
}

/// The fault in the weights of the text decoder.
pub open spec fn decoder_fault(
    w: Map<Seq<char>, WeightTensor>,
    p: Seq<char>,
    layers: nat,
) -> Option<(bool, Seq<char>)> {
    first(
        matrix_fault(w, p + ".embed_tokens.weight"@),
        first(
            matrix_fault(w, "thinker.lm_head.weight"@),
            first(vector_fault(w, p + ".norm.weight"@), decoder_layers_fault(w, p, layers)),
        ),
    )
}

/// A fault in a layer is a fault in as many layers or more.
proof fn lemma_decoder_layers_fault(w: Map<Seq<char>, WeightTensor>, p: Seq<char>, i: nat, n: nat)
    requires
        i <= n,
        decoder_layers_fault(w, p, i) is Some,
    ensures
        decoder_layers_fault(w, p, n) == decoder_layers_fault(w, p, i),
    decreases n,
{
    if i < n {
        lemma_decoder_layers_fault(w, p, i, (n - 1) as nat);
    }
}

impl CpuTextDecoder {
    /// Whether this is the text decoder with the given name. The classifier has a name
    /// of its own.
    pub open spec fn is_loaded(
        self,
        w: Map<Seq<char>, WeightTensor>,
        p: Seq<char>,
        config: TextConfig,
    ) -> bool {
        &&& is_matrix(w[p + ".embed_tokens.weight"@], self.embed_table)
        &&& is_matrix(w["thinker.lm_head.weight"@], self.lm_head)
        &&& self.norm_w@ == w[p + ".norm.weight"@].data@
        &&& self.layers@.len() == config.num_hidden_layers
        &&& forall|i: int|
            0 <= i < self.layers@.len() ==> (#[trigger] self.layers@[i]).is_loaded(
                w,
                layer_name(p, i),
                config,
            )
        &&& self.eps == config.rms_norm_eps
    }

    /// The text decoder with the given name.
    pub fn load(w: &Weights, prefix: &str, config: &TextConfig) -> (r: Result<Self, ModelError>)
        requires
            w.well_formed(),
        ensures
            match r {
                Ok(x) => decoder_fault(w@, prefix@, config.num_hidden_layers as nat) is None
                    && x.is_loaded(w@, prefix@, *config),
                Err(e) => decoder_fault(w@, prefix@, config.num_hidden_layers as nat) == Some(
                    fault(e),
                ),
            },
    {
        let embed_table = match load_weight(w, name_of(prefix, ".embed_tokens.weight").as_str()) {
            Ok(x) => x,
            Err(e) => return Err(e),
        };
        let lm_head = match load_weight(w, "thinker.lm_head.weight") {
            Ok(x) => x,
            Err(e) => return Err(e),
        };
        let norm_w = match load_vec(w, name_of(prefix, ".norm.weight").as_str()) {
            Ok(x) => x,
            Err(e) => return Err(e),
        };
        let mut layers: Vec<CpuDecoderLayer> = Vec::new();
        for i in 0..config.num_hidden_layers
            invariant
                w.well_formed(),
                layers@.len() == i,
                decoder_layers_fault(w@, prefix@, i as nat) is None,
                forall|k: int|
                    0 <= k < i ==> (#[trigger] layers@[k]).is_loaded(
                        w@,
                        layer_name(prefix@, k),
                        *config,
                    ),
                matrix_fault(w@, prefix@ + ".embed_tokens.weight"@) is None,
                matrix_fault(w@, "thinker.lm_head.weight"@) is None,
                vector_fault(w@, prefix@ + ".norm.weight"@) is None,
        {
            match CpuDecoderLayer::load(w, name_layer(prefix, i).as_str(), config) {
                Ok(x) => {
                    layers.push(x);
                },
                Err(e) => {
                    proof {
                        lemma_decoder_layers_fault(
                            w@,
                            prefix@,
                            (i + 1) as nat,
                            config.num_hidden_layers as nat,
                        );
                    }
                    return Err(e);
                },
            }
        }
        Ok(CpuTextDecoder { embed_table, lm_head, layers, norm_w, eps: config.rms_norm_eps })
    }
}

/// The two parts of the model on the CPU.
pub struct CpuModel {
    pub text_decoder: CpuTextDecoder,
    pub audio_encoder: CpuAudioEncoder,
}

/// Puts the model together: the text decoder first, then the audio encoder.
pub fn load_cpu_model(w: &Weights, audio: &AudioConfig, text: &TextConfig) -> (r: Result<
    CpuModel,
    ModelError,
>)
    requires
        w.well_formed(),
        audio.encoder_attention_heads > 0 || audio.encoder_layers == 0,
    ensures
        ({
            let problem = first(
                decoder_fault(w@, "thinker.model"@, text.num_hidden_layers as nat),
                encoder_fault(w@, "thinker.audio_tower"@, audio.encoder_layers as nat),
            );
            match r {
                Ok(m) => problem is None && m.text_decoder.is_loaded(w@, "thinker.model"@, *text)
                    && m.audio_encoder.is_loaded(w@, "thinker.audio_tower"@, *audio),
                Err(e) => problem == Some(fault(e)),
            }
        }),
{
    let text_decoder = match CpuTextDecoder::load(w, "thinker.model", text) {
        Ok(x) => x,
        Err(e) => return Err(e),
    };
    let audio_encoder = match CpuAudioEncoder::load(w, "thinker.audio_tower", audio) {
        Ok(x) => x,
        Err(e) => return Err(e),
    };
    Ok(CpuModel { text_decoder, audio_encoder })
}

/// In a fused matrix of queries, keys and values, the rows of the queries come first, then
/// those of the keys, then those of the values, each as it is stored.
pub proof fn lemma_fused_rows(
    w: Map<Seq<char>, WeightTensor>,
    p: Seq<char>,
    m: CpuWeight<u32>,
    r: int,
    c: int,
)
    requires
        is_qkv(w, p, m),
        0 <= r,
        0 <= c < m.cols,
        w[p + ".q_proj.weight"@].data@.len() == w[p + ".q_proj.weight"@].shape@[0] * m.cols,
        w[p + ".k_proj.weight"@].data@.len() == w[p + ".k_proj.weight"@].shape@[0] * m.cols,
        w[p + ".v_proj.weight"@].data@.len() == w[p + ".k_proj.weight"@].shape@[0] * m.cols,
    ensures
        ({
            let (q, k, v) = (
                w[p + ".q_proj.weight"@],
                w[p + ".k_proj.weight"@],
                w[p + ".v_proj.weight"@],
            );
            let (a, b) = (q.shape@[0] as int, k.shape@[0] as int);
            &&& m.rows == a + b + b
            &&& r < a ==> m.data@[r * m.cols + c] == q.data@[r * m.cols + c]
            &&& a <= r < a + b ==> m.data@[r * m.cols + c] == k.data@[(r - a) * m.cols + c]
            &&& a + b <= r < a + b + b ==> m.data@[r * m.cols + c] == v.data@[(r - a - b) * m.cols
                + c]
        }),
{
    let (q, k, v) = (w[p + ".q_proj.weight"@], w[p + ".k_proj.weight"@], w[p + ".v_proj.weight"@]);
    let (a, b, n) = (q.shape@[0] as int, k.shape@[0] as int, m.cols as int);
    assert((r - a) * n == r * n - a * n) by (nonlinear_arith);
    assert((r - a - b) * n == r * n - a * n - b * n) by (nonlinear_arith);
    if r < a {
        crate::tensor::lemma_row_within(a, n, r);
    } else if r < a + b {
        crate::tensor::lemma_row_within(b, n, r - a);
    } else if r < a + b + b {
        crate::tensor::lemma_row_within(b, n, r - a - b);
    }
}

/// Two layers never have the same name.
pub proof fn lemma_layers_have_names_of_their_own(p: Seq<char>, i: nat, j: nat)
    requires
        layer_name(p, i as int) == layer_name(p, j as int),
    ensures
        i == j,
{
    let front = p + ".layers."@;
    let n = front.len() as int;
    assert(layer_name(p, i as int).skip(n) =~= digits(i));
    assert(layer_name(p, j as int).skip(n) =~= digits(j));
    lemma_written_number_reads(i);
    lemma_written_number_reads(j);
}

/// A layer of the audio encoder holds the tensors of its own name: what it norms, projects
/// and feeds forward with is stored under the names of these parts.
pub proof fn lemma_audio_layer_holds(
    x: CpuAudioLayer,
    w: Map<Seq<char>, WeightTensor>,
    p: Seq<char>,
    num_heads: usize,
    d_model: usize,
)
    requires
        x.is_loaded(w, p, num_heads, d_model),
    ensures
        x.sln.weight@ == w[p + ".self_attn_layer_norm"@ + ".weight"@].data@,
        x.sln.bias@ == w[p + ".self_attn_layer_norm"@ + ".bias"@].data@,
        x.fln.weight@ == w[p + ".final_layer_norm"@ + ".weight"@].data@,
        x.fln.bias@ == w[p + ".final_layer_norm"@ + ".bias"@].data@,
        x.attn.q_proj.weight.data@ == w[p + ".self_attn"@ + ".q_proj"@ + ".weight"@].data@,
        x.attn.k_proj.weight.data@ == w[p + ".self_attn"@ + ".k_proj"@ + ".weight"@].data@,
        x.attn.v_proj.weight.data@ == w[p + ".self_attn"@ + ".v_proj"@ + ".weight"@].data@,
        x.attn.out_proj.weight.data@ == w[p + ".self_attn"@ + ".out_proj"@ + ".weight"@].data@,
        x.ffn.fc1.weight.data@ == w[p + ".fc1"@ + ".weight"@].data@,
        x.ffn.fc2.weight.data@ == w[p + ".fc2"@ + ".weight"@].data@,
        x.attn.num_heads == num_heads,
        num_heads > 0 ==> x.attn.head_dim == d_model / num_heads,
{
}

/// A layer of the text decoder holds the tensors of its own name, those of one kind fused
/// in the order of queries, keys and values, and of gate and up.
pub proof fn lemma_decoder_layer_holds(
    x: CpuDecoderLayer,
    w: Map<Seq<char>, WeightTensor>,
    p: Seq<char>,
    config: TextConfig,
)
    requires
        x.is_loaded(w, p, config),
    ensures
        x.iln_w@ == w[p + ".input_layernorm.weight"@].data@,
        x.pln_w@ == w[p + ".post_attention_layernorm.weight"@].data@,
        x.qn_w@ == w[p + ".self_attn.q_norm.weight"@].data@,
        x.kn_w@ == w[p + ".self_attn.k_norm.weight"@].data@,
        x.qkv_w.data@ == w[p + ".self_attn"@ + ".q_proj.weight"@].data@ + w[p + ".self_attn"@
            + ".k_proj.weight"@].data@ + w[p + ".self_attn"@ + ".v_proj.weight"@].data@,
        x.o_w.data@ == w[p + ".self_attn.o_proj.weight"@].data@,
        x.gu_w.data@ == w[p + ".mlp"@ + ".gate_proj.weight"@].data@ + w[p + ".mlp"@
            + ".up_proj.weight"@].data@,
        x.dp_w.data@ == w[p + ".mlp.down_proj.weight"@].data@,
{
}

/// A layer loads exactly where its tensors are there and have the shapes that it needs: the
/// projections of the audio encoder are matrices.
pub proof fn lemma_attention_needs_matrices(w: Map<Seq<char>, WeightTensor>, p: Seq<char>)
    ensures
        attention_fault(w, p) is None <==> {
            &&& w.contains_key(p + ".q_proj"@ + ".weight"@) && w[p + ".q_proj"@
                + ".weight"@].shape@.len() == 2
            &&& w.contains_key(p + ".k_proj"@ + ".weight"@) && w[p + ".k_proj"@
                + ".weight"@].shape@.len() == 2
            &&& w.contains_key(p + ".v_proj"@ + ".weight"@) && w[p + ".v_proj"@
                + ".weight"@].shape@.len() == 2
            &&& w.contains_key(p + ".out_proj"@ + ".weight"@) && w[p + ".out_proj"@
                + ".weight"@].shape@.len() == 2
        },
        norm_fault(w, p) is None <==> w.contains_key(p + ".weight"@) && w.contains_key(
            p + ".bias"@,
        ),
        ffn_fault(w, p) is None <==> {
            &&& w.contains_key(p + ".fc1"@ + ".weight"@) && w[p + ".fc1"@ + ".weight"@].shape@.len()
                == 2
            &&& w.contains_key(p + ".fc2"@ + ".weight"@) && w[p + ".fc2"@ + ".weight"@].shape@.len()
                == 2
        },
{
}

} // verus!

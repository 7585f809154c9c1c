//! How matrix products are laid out on a graphics device.
//!
//! The device reads a matrix column by column, and tensors are kept row by row. A
//! matrix that is kept row by row is its own transpose to the device, so the factors of
//! a product change places.

use crate::launch::{group_start, head_start, part};
use crate::tensor::{at, lemma_place};
use vstd::prelude::*;

verus! {

/// A product on the device: the element in row `i` and column `j` of the result is the
/// sum of `a(i, l) * b(l, j)` over the depth, added to what was there before where the
/// product accumulates.
#[derive(Debug, Clone, Copy, PartialEq, Eq)]
pub struct Gemm {
    /// Whether the first factor is read row by row.
    pub transpose_a: bool,
    /// The number of rows of the result.
    pub m: i32,
    /// The number of columns of the result.
    pub n: i32,
    /// The depth.
    pub k: i32,
    /// The distance of columns of the first factor, or of its rows where it is read
    /// row by row.
    pub lda: i32,
    /// The distance of columns of the second factor.
    pub ldb: i32,
    /// The distance of columns of the result.
    pub ldc: i32,
    pub accumulate: bool,
}

/// Products of one form, whose matrices lie at fixed distances from each other.
#[derive(Debug, Clone, Copy, PartialEq, Eq)]
pub struct BatchedGemm {
    pub gemm: Gemm,
    /// The number of products.
    pub count: i32,
    /// The distance of first factors. All products share one where it is zero.
    pub stride_a: i64,
    /// The distance of second factors.
    pub stride_b: i64,
    /// The distance of results.
    pub stride_c: i64,
}

impl BatchedGemm {
    /// Where the element in row `i` and depth `l` of first factor `t` stands.
    pub open spec fn a(self, t: int, i: int, l: int) -> int {
        t * self.stride_a + self.gemm.a(i, l)
    }

    /// Where the element in depth `l` and column `j` of second factor `t` stands.
    pub open spec fn b(self, t: int, l: int, j: int) -> int {
        t * self.stride_b + self.gemm.b(l, j)
    }

    /// Where the element in row `i` and column `j` of result `t` stands.
    pub open spec fn c(self, t: int, i: int, j: int) -> int {
        t * self.stride_c + self.gemm.c(i, j)
    }
}

impl Gemm {
    /// Where the element in row `i` and depth `l` of the first factor stands.
    pub open spec fn a(self, i: int, l: int) -> int {
        if self.transpose_a {
            i * self.lda + l
        } else {
            l * self.lda + i
        }
    }

    /// Where the element in depth `l` and column `j` of the second factor stands.
    pub open spec fn b(self, l: int, j: int) -> int {
        j * self.ldb + l
    }

    /// Where the element in row `i` and column `j` of the result stands.
    pub open spec fn c(self, i: int, j: int) -> int {
        j * self.ldc + i
    }
}

/// Whether a product takes rows of inputs to rows of outputs: with the weights as first
/// factor and the rows as second, output `o` of row `r` is the sum over the inputs of
/// row `r` and of row `o` of the weights, all of them kept row by row.
pub open spec fn maps_rows(g: Gemm, rows: int, outputs: int, inputs: int) -> bool {
    &&& g.m == outputs
    &&& g.n == rows
    &&& g.k == inputs
    &&& forall|o: int, r: int| #[trigger] g.c(o, r) == r * outputs + o
    &&& forall|o: int, l: int| #[trigger] g.a(o, l) == o * inputs + l
    &&& forall|l: int, r: int| #[trigger] g.b(l, r) == r * inputs + l
}

/// The product of rows with the transpose of a matrix of weights.
pub fn linear_product(rows: usize, outputs: usize, inputs: usize, accumulate: bool) -> (g: Gemm)
    requires
        rows <= i32::MAX,
        outputs <= i32::MAX,
        inputs <= i32::MAX,
    ensures
        g == (Gemm {
            transpose_a: true,
            m: outputs as i32,
            n: rows as i32,
            k: inputs as i32,
            lda: inputs as i32,
            ldb: inputs as i32,
            ldc: outputs as i32,
            accumulate,
        }),
        maps_rows(g, rows as int, outputs as int, inputs as int),
{
    Gemm {
        transpose_a: true,
        m: outputs as i32,
        n: rows as i32,
        k: inputs as i32,
        lda: inputs as i32,
        ldb: inputs as i32,
        ldc: outputs as i32,
        accumulate,
    }
}

/// Whether products score queries against keys: with keys as first factors and queries
/// as second, score `j` of query `i` of head `t` is the sum over the components of that
/// query and of key `j` of the head.
pub open spec fn scores_heads(
    p: BatchedGemm,
    heads: int,
    queries: int,
    keys: int,
    dim: int,
) -> bool {
    &&& p.count == heads
    &&& p.gemm.m == keys
    &&& p.gemm.n == queries
    &&& p.gemm.k == dim
    &&& !p.gemm.accumulate
    &&& forall|t: int, j: int, i: int| #[trigger] p.c(t, j, i) == (t * queries + i) * keys + j
    &&& forall|t: int, j: int, l: int| #[trigger] p.a(t, j, l) == (t * keys + j) * dim + l
    &&& forall|t: int, l: int, i: int| #[trigger] p.b(t, l, i) == (t * queries + i) * dim + l
}

/// Whether products weigh values: with values as first factors and weights as second,
/// component `e` of output `i` of head `t` is the sum over the weights of that output
/// and component `e` of the values of the head.
pub open spec fn weighs_heads(
    p: BatchedGemm,
    heads: int,
    queries: int,
    keys: int,
    dim: int,
) -> bool {
    &&& p.count == heads
    &&& p.gemm.m == dim
    &&& p.gemm.n == queries
    &&& p.gemm.k == keys
    &&& !p.gemm.accumulate
    &&& forall|t: int, e: int, i: int| #[trigger] p.c(t, e, i) == (t * queries + i) * dim + e
    &&& forall|t: int, e: int, j: int| #[trigger] p.a(t, e, j) == (t * keys + j) * dim + e
    &&& forall|t: int, j: int, i: int| #[trigger] p.b(t, j, i) == (t * queries + i) * keys + j
}

proof fn lemma_in_batch(t: int, n: int, d: int, j: int, x: int, y: int)
    requires
        y == j * d,
        x == n * d,
    ensures
        t * x + y == (t * n + j) * d,
{
    assert(t * (n * d) + j * d == (t * n + j) * d) by (nonlinear_arith);
}

fn score_product(queries: usize, keys: usize, dim: usize) -> (g: Gemm)
    requires
        queries <= i32::MAX,
        keys <= i32::MAX,
        dim <= i32::MAX,
    ensures
        g == (Gemm {
            transpose_a: true,
            m: keys as i32,
            n: queries as i32,
            k: dim as i32,
            lda: dim as i32,
            ldb: dim as i32,
            ldc: keys as i32,
            accumulate: false,
        }),
{
    Gemm {
        transpose_a: true,
        m: keys as i32,
        n: queries as i32,
        k: dim as i32,
        lda: dim as i32,
        ldb: dim as i32,
        ldc: keys as i32,
        accumulate: false,
    }
}

fn weight_product(queries: usize, keys: usize, dim: usize) -> (g: Gemm)
    requires
        queries <= i32::MAX,
        keys <= i32::MAX,
        dim <= i32::MAX,
    ensures
        g == (Gemm {
            transpose_a: false,
            m: dim as i32,
            n: queries as i32,
            k: keys as i32,
            lda: dim as i32,
            ldb: keys as i32,
            ldc: dim as i32,
            accumulate: false,
        }),
{
    Gemm {
        transpose_a: false,
        m: dim as i32,
        n: queries as i32,
        k: keys as i32,
        lda: dim as i32,
        ldb: keys as i32,
        ldc: dim as i32,
        accumulate: false,
    }
}

/// The size of a matrix on the device.
fn size(rows: usize, cols: usize) -> (n: i64)
    requires
        rows <= i32::MAX,
        cols <= i32::MAX,
    ensures
        n == rows * cols,
{
    assert(0 <= rows * cols <= i32::MAX * i32::MAX) by (nonlinear_arith)
        requires
            rows <= i32::MAX,
            cols <= i32::MAX,
    ;
    rows as i64 * cols as i64
}

/// The products that score the queries of every head against its keys.
pub fn attention_qk(heads: usize, queries: usize, keys: usize, dim: usize) -> (p: BatchedGemm)
    requires
        heads <= i32::MAX,
        queries <= i32::MAX,
        keys <= i32::MAX,
        dim <= i32::MAX,
    ensures
        p.gemm.transpose_a,
        p.gemm.lda == dim && p.gemm.ldb == dim && p.gemm.ldc == keys,
        p.stride_a == keys * dim,
        p.stride_b == queries * dim,
        p.stride_c == queries * keys,
        scores_heads(p, heads as int, queries as int, keys as int, dim as int),
{
    let p = BatchedGemm {
        gemm: score_product(queries, keys, dim),
        count: heads as i32,
        stride_a: size(keys, dim),
        stride_b: size(queries, dim),
        stride_c: size(queries, keys),
    };
    proof {
        let (m, n, d) = (queries as int, keys as int, dim as int);
        assert forall|t: int, j: int, i: int| #[trigger] p.c(t, j, i) == (t * m + i) * n + j by {
            lemma_in_batch(t, m, n, i, m * n, i * n);
        }
        assert forall|t: int, j: int, l: int| #[trigger] p.a(t, j, l) == (t * n + j) * d + l by {
            lemma_in_batch(t, n, d, j, n * d, j * d);
        }
        assert forall|t: int, l: int, i: int| #[trigger] p.b(t, l, i) == (t * m + i) * d + l by {
            lemma_in_batch(t, m, d, i, m * d, i * d);
        }
    }
    p
}

/// The products that weigh the values of every head.
pub fn attention_av(heads: usize, queries: usize, keys: usize, dim: usize) -> (p: BatchedGemm)
    requires
        heads <= i32::MAX,
        queries <= i32::MAX,
        keys <= i32::MAX,
        dim <= i32::MAX,
    ensures
        !p.gemm.transpose_a,
        p.gemm.lda == dim && p.gemm.ldb == keys && p.gemm.ldc == dim,
        p.stride_a == keys * dim,
        p.stride_b == queries * keys,
        p.stride_c == queries * dim,
        weighs_heads(p, heads as int, queries as int, keys as int, dim as int),
{
    let p = BatchedGemm {
        gemm: weight_product(queries, keys, dim),
        count: heads as i32,
        stride_a: size(keys, dim),
        stride_b: size(queries, keys),
        stride_c: size(queries, dim),
    };
    proof {
        let (m, n, d) = (queries as int, keys as int, dim as int);
        assert forall|t: int, e: int, i: int| #[trigger] p.c(t, e, i) == (t * m + i) * d + e by {
            lemma_in_batch(t, m, d, i, m * d, i * d);
        }
        assert forall|t: int, e: int, j: int| #[trigger] p.a(t, e, j) == (t * n + j) * d + e by {
            lemma_in_batch(t, n, d, j, n * d, j * d);
        }
        assert forall|t: int, j: int, i: int| #[trigger] p.b(t, j, i) == (t * m + i) * n + j by {
            lemma_in_batch(t, m, n, i, m * n, i * n);
        }
    }
    p
}

/// The products of the two passes of a group of query heads that share a key-value
/// head.
#[derive(Debug, Clone, Copy, PartialEq, Eq)]
pub struct GroupProducts {
    pub scores: BatchedGemm,
    pub outputs: BatchedGemm,
}

/// Whether products are those of a group of `shared` query heads over `count` positions of
/// `dim` components, with one key-value head as the first factor of all of them.
pub open spec fn serves_group(p: GroupProducts, shared: int, count: int, dim: int) -> bool {
    &&& p.scores.count == shared && p.outputs.count == shared
    &&& p.scores.gemm.m == count && p.scores.gemm.n == count && p.scores.gemm.k == dim
    &&& p.outputs.gemm.m == dim && p.outputs.gemm.n == count && p.outputs.gemm.k == count
    &&& !p.scores.gemm.accumulate && !p.outputs.gemm.accumulate
    &&& p.scores.gemm.transpose_a && !p.outputs.gemm.transpose_a
    &&& p.scores.gemm.lda == dim && p.scores.gemm.ldb == dim && p.scores.gemm.ldc == count
    &&& p.outputs.gemm.lda == dim && p.outputs.gemm.ldb == count && p.outputs.gemm.ldc == dim
    &&& p.scores.stride_a == 0 && p.outputs.stride_a == 0
    &&& p.scores.stride_b == count * dim && p.scores.stride_c == count * count
    &&& p.outputs.stride_b == count * count && p.outputs.stride_c == count * dim
}

/// The products of a group of `shared` query heads over `count` positions. The heads
/// share their first factor.
pub fn group_products(shared: usize, count: usize, dim: usize) -> (p: GroupProducts)
    requires
        shared <= i32::MAX,
        count <= i32::MAX,
        dim <= i32::MAX,
    ensures
        serves_group(p, shared as int, count as int, dim as int),
{
    GroupProducts {
        scores: BatchedGemm {
            gemm: score_product(count, count, dim),
            count: shared as i32,
            stride_a: 0,
            stride_b: size(count, dim),
            stride_c: size(count, count),
        },
        outputs: BatchedGemm {
            gemm: weight_product(count, count, dim),
            count: shared as i32,
            stride_a: 0,
            stride_b: size(count, count),
            stride_c: size(count, dim),
        },
    }
}

/// Groups attend as single heads do, for every text: in the parts of the buffers that
/// belong to group `g` of text `b`, head `t` of the group scores and weighs exactly what
/// head `g * shared + t` of the text does that has key-value head `g` of the text as its
/// own.
pub proof fn lemma_groups_attend_as_heads(
    p: GroupProducts,
    heads: int,
    kv_heads: int,
    count: int,
    dim: int,
    max_seq: int,
    b: int,
    g: int,
    t: int,
    i: int,
    j: int,
    e: int,
)
    requires
        serves_group(p, heads / kv_heads, count, dim),
        0 < kv_heads,
        heads % kv_heads == 0,
        0 <= t < heads / kv_heads,
        0 <= b,
        0 <= g < kv_heads,
    ensures
        ({
            let shared = heads / kv_heads;
            let h = g * shared + t;
            let scores = group_start(b, g, heads, shared, count, count);
            let cache = head_start(b, g, kv_heads, max_seq, dim);
            let queries = group_start(b, g, heads, shared, count, dim);
            &&& 0 <= h < heads
            &&& h / shared == g
            &&& scores + p.scores.c(t, j, i) == ((b * heads + h) * count + i) * count + j
            &&& cache + p.scores.a(t, j, e) == ((b * kv_heads + g) * max_seq + j) * dim + e
            &&& queries + p.scores.b(t, e, i) == ((b * heads + h) * count + i) * dim + e
            &&& queries + p.outputs.c(t, e, i) == ((b * heads + h) * count + i) * dim + e
            &&& cache + p.outputs.a(t, e, j) == ((b * kv_heads + g) * max_seq + j) * dim + e
            &&& scores + p.outputs.b(t, j, i) == ((b * heads + h) * count + i) * count + j
        }),
{
    let shared = heads / kv_heads;
    let h = g * shared + t;
    vstd::arithmetic::div_mod::lemma_fundamental_div_mod(heads, kv_heads);
    assert(0 <= h < heads) by (nonlinear_arith)
        requires
            h == g * shared + t,
            heads == kv_heads * shared,
            0 <= g < kv_heads,
            0 <= t < shared,
    ;
    vstd::arithmetic::div_mod::lemma_fundamental_div_mod_converse(h, shared, g, t);
    lemma_in_group(g, shared, t, count, i, count);
    lemma_in_group(g, shared, t, count, i, dim);
    lemma_in_text(b, heads, h, count, i, count);
    lemma_in_text(b, heads, h, count, i, dim);
    lemma_in_text(b, kv_heads, g, max_seq, j, dim);
    assert(g * (max_seq * dim) + j * dim == (g * max_seq + j) * dim) by (nonlinear_arith);
    assert(t * 0 == 0);
}

proof fn lemma_in_text(b: int, heads: int, h: int, rows: int, i: int, cols: int)
    ensures
        b * (heads * rows * cols) + (h * rows + i) * cols == ((b * heads + h) * rows + i) * cols,
{
    let n = heads * rows;
    assert(b * (n * cols) + (h * rows + i) * cols == (b * n + (h * rows + i)) * cols)
        by (nonlinear_arith);
    assert(b * (heads * rows) + h * rows == (b * heads + h) * rows) by (nonlinear_arith);
}

proof fn lemma_in_group(g: int, shared: int, t: int, rows: int, i: int, cols: int)
    ensures
        g * (shared * rows * cols) + t * (rows * cols) + i * cols == ((g * shared + t) * rows + i)
            * cols,
{
    let n = rows * cols;
    assert(shared * rows * cols == shared * n) by (nonlinear_arith)
        requires
            n == rows * cols,
    ;
    assert(g * (shared * n) + t * n == (g * shared + t) * n) by (nonlinear_arith);
    let h = g * shared + t;
    assert(h * n + i * cols == (h * rows + i) * cols) by (nonlinear_arith)
        requires
            n == rows * cols,
    ;
}

/// The factors whose products are added up to the element in row `i` and column `j` of
/// result `t`, in order of depth. The buffers of the factors start at `a0` and `b0`.
pub open spec fn factors<T>(
    p: BatchedGemm,
    a: Seq<T>,
    a0: int,
    b: Seq<T>,
    b0: int,
    t: int,
    i: int,
    j: int,
) -> Seq<(T, T)> {
    Seq::new(p.gemm.k as nat, |l: int| (a[a0 + p.a(t, i, l)], b[b0 + p.b(t, l, j)]))
}

/// Whether a buffer holds, from `c0` on, the results of products, where `sum` is how the
/// products of factors are added up.
pub open spec fn holds_products<T>(
    p: BatchedGemm,
    sum: spec_fn(Seq<(T, T)>) -> T,
    a: Seq<T>,
    a0: int,
    b: Seq<T>,
    b0: int,
    c: Seq<T>,
    c0: int,
) -> bool {
    forall|t: int, i: int, j: int|
        0 <= t < p.count && 0 <= i < p.gemm.m && 0 <= j < p.gemm.n ==> c[c0 + #[trigger] p.c(
            t,
            i,
            j,
        )] == sum(factors(p, a, a0, b, b0, t, i, j))
}

/// Whether `out` has, for each of the query heads of all texts, the first `count` rows of
/// the key-value head that it shares.
pub open spec fn repeats_cache<T>(
    out: Seq<T>,
    cache: Seq<T>,
    texts: int,
    heads: int,
    kv_heads: int,
    count: int,
    dim: int,
    max_seq: int,
) -> bool {
    forall|h: int, j: int, e: int|
        0 <= h < texts * heads && 0 <= j < count && 0 <= e < dim ==> out[#[trigger] at(
            dim,
            at(count, h, j),
            e,
        )] == cache[at(
            dim,
            at(max_seq, h / heads * kv_heads + h % heads / (heads / kv_heads), j),
            e,
        )]
}

/// The text, the group and the head of the group of a query head of all texts.
proof fn lemma_head_of_group(h: int, texts: int, heads: int, kv_heads: int) -> (r: (int, int, int))
    requires
        0 <= h < texts * heads,
        0 <= texts,
        0 <= heads,
        0 < kv_heads,
        heads % kv_heads == 0,
    ensures
        0 <= r.0 < texts,
        0 <= r.1 < kv_heads,
        0 <= r.2 < heads / kv_heads,
        r.0 == h / heads,
        r.1 == h % heads / (heads / kv_heads),
        h == r.0 * heads + (r.1 * (heads / kv_heads) + r.2),
{
    lemma_place(texts, heads, h);
    vstd::arithmetic::div_mod::lemma_fundamental_div_mod(heads, kv_heads);
    let shared = heads / kv_heads;
    assert(shared >= 0) by (nonlinear_arith)
        requires
            heads == kv_heads * shared,
            heads > 0,
            kv_heads > 0,
    ;
    lemma_place(kv_heads, shared, h % heads);
    (h / heads, h % heads / shared, h % heads % shared)
}

/// Groups score as all heads do: the products of the groups of all texts leave in a
/// buffer what the products of all heads leave with the cache repeated for every head,
/// whatever the elements are and however they are added up.
pub proof fn lemma_groups_score_as_heads<T>(
    p: GroupProducts,
    all: BatchedGemm,
    sum: spec_fn(Seq<(T, T)>) -> T,
    texts: int,
    heads: int,
    kv_heads: int,
    count: int,
    dim: int,
    max_seq: int,
    queries: Seq<T>,
    cache: Seq<T>,
    repeated: Seq<T>,
    scores: Seq<T>,
    expected: Seq<T>,
)
    requires
        0 <= texts && 0 <= heads && 0 < kv_heads && 0 <= count && 0 <= dim,
        heads % kv_heads == 0,
        serves_group(p, heads / kv_heads, count, dim),
        scores_heads(all, texts * heads, count, count, dim),
        repeats_cache(repeated, cache, texts, heads, kv_heads, count, dim, max_seq),
        forall|b: int, g: int|
            0 <= b < texts && 0 <= g < kv_heads ==> holds_products(
                p.scores,
                sum,
                cache,
                #[trigger] head_start(b, g, kv_heads, max_seq, dim),
                queries,
                group_start(b, g, heads, heads / kv_heads, count, dim),
                scores,
                group_start(b, g, heads, heads / kv_heads, count, count),
            ),
        holds_products(all, sum, repeated, 0, queries, 0, expected, 0),
        scores.len() == texts * heads * count * count,
        expected.len() == texts * heads * count * count,
    ensures
        scores == expected,
{
    let shared = heads / kv_heads;
    assert(texts * heads >= 0 && texts * heads * count >= 0) by (nonlinear_arith)
        requires
            texts >= 0,
            heads >= 0,
            count >= 0,
    ;
    assert forall|x: int| 0 <= x < scores.len() implies scores[x] == expected[x] by {
        lemma_place(texts * heads * count, count, x);
        let (row, j) = (x / count, x % count);
        lemma_place(texts * heads, count, row);
        let (h, i) = (row / count, row % count);
        let (b, g, t) = lemma_head_of_group(h, texts, heads, kv_heads);
        lemma_groups_attend_as_heads(
            p,
            heads,
            kv_heads,
            count,
            dim,
            max_seq,
            b,
            g,
            t,
            i,
            j,
            0,
        );
        let cache0 = head_start(b, g, kv_heads, max_seq, dim);
        let queries0 = group_start(b, g, heads, shared, count, dim);
        let scores0 = group_start(b, g, heads, shared, count, count);
        assert(all.c(h, j, i) == x);
        assert(scores0 + p.scores.c(t, j, i) == x);
        let own = factors(p.scores, cache, cache0, queries, queries0, t, j, i);
        let whole = factors(all, repeated, 0, queries, 0, h, j, i);
        assert(scores[scores0 + p.scores.c(t, j, i)] == sum(own));
        assert(expected[0 + all.c(h, j, i)] == sum(whole));
        assert forall|l: int| 0 <= l < dim implies own[l] == whole[l] by {
            lemma_groups_attend_as_heads(
                p,
                heads,
                kv_heads,
                count,
                dim,
                max_seq,
                b,
                g,
                t,
                i,
                j,
                l,
            );
            assert(all.a(h, j, l) == at(dim, at(count, h, j), l));
            assert(cache0 + p.scores.a(t, j, l) == at(dim, at(max_seq, b * kv_heads + g, j), l));
            assert(all.b(h, l, i) == (h * count + i) * dim + l);
        }
        assert(own =~= whole);
    }
    assert(scores =~= expected);
}

/// Groups weigh as all heads do: the products of the groups of all texts leave in a
/// buffer what the products of all heads leave with the cache repeated for every head,
/// whatever the elements are and however they are added up.
pub proof fn lemma_groups_weigh_as_heads<T>(
    p: GroupProducts,
    all: BatchedGemm,
    sum: spec_fn(Seq<(T, T)>) -> T,
    texts: int,
    heads: int,
    kv_heads: int,
    count: int,
    dim: int,
    max_seq: int,
    weights: Seq<T>,
    cache: Seq<T>,
    repeated: Seq<T>,
    outputs: Seq<T>,
    expected: Seq<T>,
)
    requires
        0 <= texts && 0 <= heads && 0 < kv_heads && 0 <= count && 0 <= dim,
        heads % kv_heads == 0,
        serves_group(p, heads / kv_heads, count, dim),
        weighs_heads(all, texts * heads, count, count, dim),
        repeats_cache(repeated, cache, texts, heads, kv_heads, count, dim, max_seq),
        forall|b: int, g: int|
            0 <= b < texts && 0 <= g < kv_heads ==> holds_products(
                p.outputs,
                sum,
                cache,
                #[trigger] head_start(b, g, kv_heads, max_seq, dim),
                weights,
                group_start(b, g, heads, heads / kv_heads, count, count),
                outputs,
                group_start(b, g, heads, heads / kv_heads, count, dim),
            ),
        holds_products(all, sum, repeated, 0, weights, 0, expected, 0),
        outputs.len() == texts * heads * count * dim,
        expected.len() == texts * heads * count * dim,
    ensures
        outputs == expected,
{
    let shared = heads / kv_heads;
    assert(texts * heads >= 0 && texts * heads * count >= 0) by (nonlinear_arith)
        requires
            texts >= 0,
            heads >= 0,
            count >= 0,
    ;
    assert forall|x: int| 0 <= x < outputs.len() implies outputs[x] == expected[x] by {
        lemma_place(texts * heads * count, dim, x);
        let (row, e) = (x / dim, x % dim);
        lemma_place(texts * heads, count, row);
        let (h, i) = (row / count, row % count);
        let (b, g, t) = lemma_head_of_group(h, texts, heads, kv_heads);
        lemma_groups_attend_as_heads(
            p,
            heads,
            kv_heads,
            count,
            dim,
            max_seq,
            b,
            g,
            t,
            i,
            0,
            e,
        );
        let cache0 = head_start(b, g, kv_heads, max_seq, dim);
        let outputs0 = group_start(b, g, heads, shared, count, dim);
        let weights0 = group_start(b, g, heads, shared, count, count);
        assert(all.c(h, e, i) == x);
        assert(outputs0 + p.outputs.c(t, e, i) == x);
        let own = factors(p.outputs, cache, cache0, weights, weights0, t, e, i);
        let whole = factors(all, repeated, 0, weights, 0, h, e, i);
        assert(outputs[outputs0 + p.outputs.c(t, e, i)] == sum(own));
        assert(expected[0 + all.c(h, e, i)] == sum(whole));
        assert forall|j: int| 0 <= j < count implies own[j] == whole[j] by {
            lemma_groups_attend_as_heads(
                p,
                heads,
                kv_heads,
                count,
                dim,
                max_seq,
                b,
                g,
                t,
                i,
                j,
                e,
            );
            assert(all.a(h, e, j) == at(dim, at(count, h, j), e));
            assert(cache0 + p.outputs.a(t, e, j) == at(
                dim,
                at(max_seq, b * kv_heads + g, j),
                e,
            ));
            assert(all.b(h, j, i) == (h * count + i) * count + j);
        }
        assert(own =~= whole);
    }
    assert(outputs =~= expected);
}

/// Grouped attention is attention: for all texts of a batch, scoring by groups, a softmax
/// over the scores, and weighing by groups leave what attention of all heads leaves with
/// keys and values repeated for every head. It holds whatever the elements are, however
/// products are added up, and whatever the softmax makes of the scores.
pub proof fn lemma_grouped_prefill<T>(
    p: GroupProducts,
    qk: BatchedGemm,
    av: BatchedGemm,
    sum: spec_fn(Seq<(T, T)>) -> T,
    softmax: spec_fn(Seq<T>) -> Seq<T>,
    texts: int,
    heads: int,
    kv_heads: int,
    count: int,
    dim: int,
    max_seq: int,
    queries: Seq<T>,
    key_cache: Seq<T>,
    value_cache: Seq<T>,
    keys: Seq<T>,
    values: Seq<T>,
    scores: Seq<T>,
    outputs: Seq<T>,
    expected_scores: Seq<T>,
    expected: Seq<T>,
)
    requires
        0 <= texts && 0 <= heads && 0 < kv_heads && 0 <= count && 0 <= dim,
        heads % kv_heads == 0,
        serves_group(p, heads / kv_heads, count, dim),
        scores_heads(qk, texts * heads, count, count, dim),
        weighs_heads(av, texts * heads, count, count, dim),
        repeats_cache(keys, key_cache, texts, heads, kv_heads, count, dim, max_seq),
        repeats_cache(values, value_cache, texts, heads, kv_heads, count, dim, max_seq),
        forall|b: int, g: int|
            0 <= b < texts && 0 <= g < kv_heads ==> holds_products(
                p.scores,
                sum,
                key_cache,
                #[trigger] head_start(b, g, kv_heads, max_seq, dim),
                queries,
                group_start(b, g, heads, heads / kv_heads, count, dim),
                scores,
                group_start(b, g, heads, heads / kv_heads, count, count),
            ),
        forall|b: int, g: int|
            0 <= b < texts && 0 <= g < kv_heads ==> holds_products(
                p.outputs,
                sum,
                value_cache,
                #[trigger] head_start(b, g, kv_heads, max_seq, dim),
                softmax(scores),
                group_start(b, g, heads, heads / kv_heads, count, count),
                outputs,
                group_start(b, g, heads, heads / kv_heads, count, dim),
            ),
        holds_products(qk, sum, keys, 0, queries, 0, expected_scores, 0),
        holds_products(av, sum, values, 0, softmax(expected_scores), 0, expected, 0),
        scores.len() == texts * heads * count * count,
        expected_scores.len() == texts * heads * count * count,
        outputs.len() == texts * heads * count * dim,
        expected.len() == texts * heads * count * dim,
    ensures
        outputs == expected,
{
    lemma_groups_score_as_heads(
        p,
        qk,
        sum,
        texts,
        heads,
        kv_heads,
        count,
        dim,
        max_seq,
        queries,
        key_cache,
        keys,
        scores,
        expected_scores,
    );
    lemma_groups_weigh_as_heads(
        p,
        av,
        sum,
        texts,
        heads,
        kv_heads,
        count,
        dim,
        max_seq,
        softmax(scores),
        value_cache,
        values,
        outputs,
        expected,
    );
}

} // verus!

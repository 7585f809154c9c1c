//! Heads, masks and the key-value cache of the text decoder.

use crate::launch::Span;
use crate::tensor::{
    append_range, at, at4, filled_vec, flat, index4, lemma_at, lemma_at4, lemma_place,
    lemma_place4, lemma_row_within,
};
use vstd::prelude::*;

verus! {

/// The key-value head that a query head reads, where `heads` query heads share
/// `kv_heads` key-value heads evenly.
pub fn kv_head(head: usize, heads: usize, kv_heads: usize) -> (kh: usize)
    requires
        head < heads,
        kv_heads > 0,
        heads % kv_heads == 0,
    ensures
        kh == head as int / (heads as int / kv_heads as int),
        kh < kv_heads,
        kh * (heads as int / kv_heads as int) <= head < (kh + 1) * (heads as int / kv_heads as int),
{
    proof {
        lemma_head_groups(heads as int, kv_heads as int);
        let n = heads as int / kv_heads as int;
        lemma_place(kv_heads as int, n, head as int);
        let k = head as int / n;
        assert((k + 1) * n == k * n + n) by (nonlinear_arith);
    }
    head / (heads / kv_heads)
}

/// Query heads fall into groups of equal size, one for every key-value head.
pub proof fn lemma_head_groups(heads: int, kv_heads: int)
    requires
        kv_heads > 0,
        heads > 0,
        heads % kv_heads == 0,
    ensures
        heads / kv_heads > 0,
        kv_heads * (heads / kv_heads) == heads,
{
    vstd::arithmetic::div_mod::lemma_fundamental_div_mod(heads, kv_heads);
    let n = heads / kv_heads;
    assert(n > 0) by (nonlinear_arith)
        requires
            heads == kv_heads * n + 0,
            heads > 0,
            kv_heads > 0,
    ;
}

/// How many of `total` cached positions the query `i` of the last `count` positions
/// sees: those up to its own where the mask is causal, else all.
pub open spec fn seen(i: int, count: int, total: int, causal: bool) -> int {
    if causal {
        i + (total - count) + 1
    } else {
        total
    }
}

/// The number of cached positions that a query sees.
pub fn visible(i: usize, count: usize, total: usize, causal: bool) -> (n: usize)
    requires
        i < count <= total,
    ensures
        n == seen(i as int, count as int, total as int, causal),
        n <= total,
{
    if causal {
        i + (total - count) + 1
    } else {
        total
    }
}

/// A later query sees all that an earlier one sees, its own position among it, and the
/// last one sees everything.
pub proof fn lemma_visible_grows(i: int, j: int, count: int, total: int, causal: bool)
    requires
        0 <= i <= j < count <= total,
    ensures
        seen(i, count, total, causal) <= seen(j, count, total, causal),
        total - count + i < seen(i, count, total, causal) <= total,
        seen(count - 1, count, total, causal) == total,
{
}

/// The rows of one head: of a tensor of `batch` texts of `count` positions of `heads`
/// heads of `dim` elements.
pub fn head_rows<T: Copy>(
    x: &[T],
    batch: usize,
    count: usize,
    heads: usize,
    dim: usize,
    item: usize,
    head: usize,
) -> (out: Vec<T>)
    requires
        x@.len() == batch * count * heads * dim,
        item < batch,
        head < heads,
    ensures
        out@.len() == count * dim,
        forall|i: int, j: int|
            0 <= i < count && 0 <= j < dim ==> #[trigger] out@[at(dim as int, i, j)] == x@[at4(
                count as int,
                heads as int,
                dim as int,
                item as int,
                i,
                head as int,
                j,
            )],
{
    let ghost (b, s, h, d) = (batch as int, count as int, heads as int, dim as int);
    let limit: usize = x.len();
    let mut out: Vec<T> = Vec::new();
    assert(0 * d == 0);
    for i in 0..count
        invariant
            b == batch,
            s == count,
            h == heads,
            d == dim,
            limit == x@.len() == b * s * h * d,
            item < batch,
            head < heads,
            out@.len() == i * d,
            forall|p: int, j: int|
                0 <= p < i && 0 <= j < d ==> #[trigger] out@[at(d, p, j)] == x@[at4(
                    s,
                    h,
                    d,
                    item as int,
                    p,
                    head as int,
                    j,
                )],
    {
        let ghost before = out@;
        if dim > 0 {
            proof {
                lemma_at4(b, s, h, d, (item as int, i as int, head as int, 0));
                lemma_at4(b, s, h, d, (item as int, i as int, head as int, d - 1));
            }
            let a: usize = flat(count, item, i, Ghost(limit as int));
            let c: usize = flat(heads, a, head, Ghost(limit as int));
            let start: usize = flat(dim, c, 0, Ghost(limit as int));
            append_range(&mut out, x, start, start + dim);
        }
        proof {
            assert((i + 1) * d == i * d + d) by (nonlinear_arith);
            assert forall|p: int, j: int| 0 <= p < i + 1 && 0 <= j < d implies #[trigger] out@[at(
                d,
                p,
                j,
            )] == x@[at4(s, h, d, item as int, p, head as int, j)] by {
                if p < i {
                    lemma_at(i as int, d, p, j);
                    assert(out@[at(d, p, j)] == before[at(d, p, j)]);
                } else {
                    lemma_at(i + 1, d, p, j);
                }
            }
        }
    }
    out
}

/// An element of the tensor that the results of all heads make up: texts of
/// positions of heads.
pub open spec fn merged<T>(heads: Seq<Seq<T>>, count: int, n: int, dim: int, k: int) -> T {
    let i = index4(count, n, dim, k);
    heads[at(n, i.0, i.2)][at(dim, i.1, i.3)]
}

/// Brings the results of all heads, one list for every text and head, together.
pub fn merge_heads<T: Copy>(
    heads: &[Vec<T>],
    batch: usize,
    count: usize,
    n: usize,
    dim: usize,
) -> (out: Vec<T>)
    requires
        heads@.len() == batch * n,
        forall|h: int| 0 <= h < heads@.len() ==> (#[trigger] heads@[h])@.len() == count * dim,
        batch * count <= usize::MAX,
        batch * count * n <= usize::MAX,
        batch * count * n * dim <= usize::MAX,
    ensures
        out@.len() == batch * count * n * dim,
        forall|k: int|
            0 <= k < out@.len() ==> #[trigger] out@[k] == merged(
                heads@.map_values(|v: Vec<T>| v@),
                count as int,
                n as int,
                dim as int,
                k,
            ),
{
    let ghost views = heads@.map_values(|v: Vec<T>| v@);
    let total: usize = batch * count * n * dim;
    let limit: usize = heads.len();
    let mut out: Vec<T> = Vec::with_capacity(total);
    for k in 0..total
        invariant
            views == heads@.map_values(|v: Vec<T>| v@),
            limit == heads@.len() == batch * n,
            forall|h: int| 0 <= h < heads@.len() ==> (#[trigger] heads@[h])@.len() == count * dim,
            total == batch * count * n * dim,
            out@.len() == k,
            forall|p: int|
                0 <= p < k ==> #[trigger] out@[p] == merged(
                    views,
                    count as int,
                    n as int,
                    dim as int,
                    p,
                ),
    {
        proof {
            lemma_place4(batch as int, count as int, n as int, dim as int, k as int);
            let i = index4(count as int, n as int, dim as int, k as int);
            lemma_at(batch as int, n as int, i.0, i.2);
            lemma_at(count as int, dim as int, i.1, i.3);
        }
        let j: usize = k % dim;
        let head: usize = (k / dim) % n;
        let pos: usize = ((k / dim) / n) % count;
        let item: usize = ((k / dim) / n) / count;
        let h: usize = flat(n, item, head, Ghost(limit as int));
        assert(heads@[h as int]@.len() == count * dim);
        assert(views[h as int] == heads@[h as int]@);
        let rows: usize = heads[h].len();
        out.push(heads[h][flat(dim, pos, j, Ghost(rows as int))]);
    }
    out
}

/// Of a fused projection row: where the queries end, where the keys end.
pub fn qkv_bounds(heads: usize, kv_heads: usize, dim: usize) -> (r: (usize, usize, usize))
    requires
        heads * dim + 2 * (kv_heads * dim) <= usize::MAX,
    ensures
        r.0 == heads * dim,
        r.1 == heads * dim + kv_heads * dim,
        r.2 == heads * dim + 2 * (kv_heads * dim),
{
    proof {
        assert(heads * dim >= 0 && kv_heads * dim >= 0) by (nonlinear_arith);
    }
    let q: usize = heads * dim;
    let kv: usize = kv_heads * dim;
    (q, q + kv, q + 2 * kv)
}

/// Cached keys and values of every layer: for every text and head, a row for every
/// position.
pub struct KvCache<T> {
    pub k: Vec<Vec<T>>,
    pub v: Vec<Vec<T>>,
    /// The number of positions that are filled.
    pub cur_len: usize,
    /// The number of positions that there is room for.
    pub max_seq: usize,
}

/// A place in a cache.
pub struct CachePlace {
    pub layer: usize,
    pub item: usize,
    pub head: usize,
    pub position: usize,
}

impl<T> KvCache<T> {
    /// The cache has `layers` layers of `batch` texts, `heads` heads and `dim`
    /// elements.
    pub open spec fn fits(self, layers: int, batch: int, heads: int, dim: int) -> bool {
        &&& self.k@.len() == layers
        &&& self.v@.len() == layers
        &&& self.cur_len <= self.max_seq
        &&& forall|i: int|
            0 <= i < layers ==> (#[trigger] self.k@[i])@.len() == batch * heads * self.max_seq * dim
        &&& forall|i: int|
            0 <= i < layers ==> (#[trigger] self.v@[i])@.len() == batch * heads * self.max_seq * dim
    }

    /// The key row at a place.
    pub open spec fn key(self, heads: int, dim: int, p: CachePlace) -> Seq<T> {
        let start = row_start(heads, self.max_seq as int, dim, p);
        self.k@[p.layer as int]@.subrange(start, start + dim)
    }

    /// The value row at a place.
    pub open spec fn value(self, heads: int, dim: int, p: CachePlace) -> Seq<T> {
        let start = row_start(heads, self.max_seq as int, dim, p);
        self.v@[p.layer as int]@.subrange(start, start + dim)
    }
}

/// Where the row of a place starts.
pub open spec fn row_start(heads: int, max_seq: int, dim: int, p: CachePlace) -> int {
    at4(heads, max_seq, dim, p.item as int, p.head as int, p.position as int, 0)
}

pub open spec fn is_place(
    layers: int,
    batch: int,
    heads: int,
    max_seq: int,
    p: CachePlace,
) -> bool {
    p.layer < layers && p.item < batch && p.head < heads && p.position < max_seq
}

/// Rows of places lie within a layer.
proof fn lemma_row_start(batch: int, heads: int, max_seq: int, dim: int, p: CachePlace)
    requires
        p.item < batch,
        p.head < heads,
        p.position < max_seq,
        dim >= 0,
    ensures
        0 <= row_start(heads, max_seq, dim, p),
        row_start(heads, max_seq, dim, p) + dim <= batch * heads * max_seq * dim,
        0 <= at(heads, p.item as int, p.head as int) <= batch * heads,
        0 <= at(max_seq, at(heads, p.item as int, p.head as int), p.position as int) <= batch
            * heads * max_seq,
{
    let a = at(heads, p.item as int, p.head as int);
    let b = at(max_seq, a, p.position as int);
    lemma_at(batch, heads, p.item as int, p.head as int);
    lemma_at(batch * heads, max_seq, a, p.position as int);
    lemma_row_within(batch * heads * max_seq, dim, b);
}

/// The first `n` rows of a head of a text in a layer of keys or values: what a query
/// that sees `n` positions reads of them.
pub fn leading_rows(
    item: usize,
    head: usize,
    batch: usize,
    heads: usize,
    max_seq: usize,
    dim: usize,
    n: usize,
) -> (s: Span)
    requires
        item < batch,
        head < heads,
        0 < n <= max_seq,
        batch * heads * max_seq * dim <= usize::MAX,
    ensures
        s.start == row_start(
            heads as int,
            max_seq as int,
            dim as int,
            (CachePlace { layer: 0, item, head, position: 0 }),
        ),
        s.len == n * dim,
        s.start + s.len <= batch * heads * max_seq * dim,
{
    let ghost first = CachePlace { layer: 0, item, head, position: 0 };
    let ghost last = CachePlace { layer: 0, item, head, position: (n - 1) as usize };
    proof {
        let (m, d) = (max_seq as int, dim as int);
        lemma_row_start(batch as int, heads as int, m, d, first);
        lemma_row_start(batch as int, heads as int, m, d, last);
        let a = at(heads as int, item as int, head as int);
        assert((a * m + (n - 1)) * d + d == (a * m) * d + n * d) by (nonlinear_arith);
        let all = batch * heads * max_seq;
        assert(d > 0 ==> all <= all * d) by (nonlinear_arith)
            requires
                all >= 0,
        ;
        assert(d == 0 ==> (a * m) * d == 0 && n * d == 0) by (nonlinear_arith);
        assert(a <= a * m) by (nonlinear_arith)
            requires
                m >= 1,
                a >= 0,
        ;
    }
    if dim == 0 {
        return Span { start: 0, len: 0 };
    }
    let row: usize = item * heads + head;
    Span { start: row * max_seq * dim, len: n * dim }
}

/// What comes after a query does not count under a causal mask: where two caches agree on
/// the rows of a head that query `i` sees, every query up to `i` reads the same of both.
/// The first of as many queries as there are positions sees the first row alone.
pub proof fn lemma_later_rows_do_not_count<T>(
    a: Seq<T>,
    b: Seq<T>,
    start: int,
    dim: int,
    count: int,
    total: int,
    i: int,
    k: int,
)
    requires
        0 <= k <= i < count <= total,
        0 <= dim,
        0 <= start,
        start + total * dim <= a.len(),
        start + total * dim <= b.len(),
        forall|x: int|
            start <= x < start + seen(i, count, total, true) * dim ==> #[trigger] a[x] == b[x],
    ensures
        a.subrange(start, start + seen(k, count, total, true) * dim) == b.subrange(
            start,
            start + seen(k, count, total, true) * dim,
        ),
        count == total ==> seen(0, count, total, true) == 1,
{
    let n = seen(k, count, total, true);
    let m = seen(i, count, total, true);
    lemma_visible_grows(k, i, count, total, true);
    lemma_visible_grows(i, i, count, total, true);
    assert(0 <= n * dim <= m * dim <= total * dim) by (nonlinear_arith)
        requires
            0 <= n <= m <= total,
            0 <= dim,
    ;
    assert(a.subrange(start, start + n * dim) =~= b.subrange(start, start + n * dim));
}

/// Rows of different places of a layer do not overlap.
pub proof fn lemma_rows_apart(
    batch: int,
    heads: int,
    max_seq: int,
    dim: int,
    p: CachePlace,
    q: CachePlace,
)
    requires
        p.item < batch,
        p.head < heads,
        p.position < max_seq,
        q.item < batch,
        q.head < heads,
        q.position < max_seq,
        dim >= 0,
        p.item != q.item || p.head != q.head || p.position != q.position,
    ensures
        row_start(heads, max_seq, dim, p) + dim <= row_start(heads, max_seq, dim, q) || row_start(
            heads,
            max_seq,
            dim,
            q,
        ) + dim <= row_start(heads, max_seq, dim, p),
{
    let pa = at(heads, p.item as int, p.head as int);
    let qa = at(heads, q.item as int, q.head as int);
    let (pb, qb) = (at(max_seq, pa, p.position as int), at(max_seq, qa, q.position as int));
    lemma_at(batch, heads, p.item as int, p.head as int);
    lemma_at(batch, heads, q.item as int, q.head as int);
    lemma_at(batch * heads, max_seq, pa, p.position as int);
    lemma_at(batch * heads, max_seq, qa, q.position as int);
    assert(pb != qb);
    if pb < qb {
        assert(pb * dim + dim <= qb * dim) by (nonlinear_arith)
            requires
                pb + 1 <= qb,
                dim >= 0,
        {
            assert((pb + 1) * dim <= qb * dim);
        }
    } else {
        assert(qb * dim + dim <= pb * dim) by (nonlinear_arith)
            requires
                qb + 1 <= pb,
                dim >= 0,
        {
            assert((qb + 1) * dim <= pb * dim);
        }
    }
}

/// Replaces the elements from `start` on.
fn write_range<T: Copy>(dst: &mut Vec<T>, start: usize, src: &[T])
    requires
        start + src@.len() <= old(dst)@.len(),
    ensures
        final(dst)@.len() == old(dst)@.len(),
        final(dst)@.subrange(start as int, start + src@.len()) == src@,
        forall|i: int|
            0 <= i < old(dst)@.len() && !(start <= i < start + src@.len())
                ==> #[trigger] final(dst)@[i] == old(dst)@[i],
{
    let n: usize = src.len();
    let total: usize = dst.len();
    for j in 0..n
        invariant
            n == src@.len(),
            total == old(dst)@.len(),
            start + n <= total,
            dst@.len() == old(dst)@.len(),
            forall|i: int| 0 <= i < j ==> dst@[start + i] == #[trigger] src@[i],
            forall|i: int|
                0 <= i < old(dst)@.len() && !(start <= i < start + j) ==> #[trigger] dst@[i]
                    == old(dst)@[i],
    {
        let x: T = src[j];
        dst.set(start + j, x);
    }
    assert(dst@.subrange(start as int, start + src@.len()) =~= src@);
}

impl<T: Copy> KvCache<T> {
    /// An empty cache.
    pub fn new(
        layers: usize,
        batch: usize,
        heads: usize,
        max_seq: usize,
        dim: usize,
        zero: T,
    ) -> (c: Self)
        requires
            batch * heads <= usize::MAX,
            batch * heads * max_seq <= usize::MAX,
            batch * heads * max_seq * dim <= usize::MAX,
        ensures
            c.fits(layers as int, batch as int, heads as int, dim as int),
            c.cur_len == 0,
            c.max_seq == max_seq,
            forall|i: int, j: int|
                0 <= i < layers && 0 <= j < c.k@[i]@.len() ==> #[trigger] c.k@[i]@[j] == zero,
            forall|i: int, j: int|
                0 <= i < layers && 0 <= j < c.v@[i]@.len() ==> #[trigger] c.v@[i]@[j] == zero,
    {
        let size: usize = batch * heads * max_seq * dim;
        let mut k: Vec<Vec<T>> = Vec::with_capacity(layers);
        let mut v: Vec<Vec<T>> = Vec::with_capacity(layers);
        for n in 0..layers
            invariant
                k@.len() == n,
                v@.len() == n,
                forall|i: int| 0 <= i < n ==> (#[trigger] k@[i])@.len() == size,
                forall|i: int| 0 <= i < n ==> (#[trigger] v@[i])@.len() == size,
                forall|i: int, j: int| 0 <= i < n && 0 <= j < size ==> #[trigger] k@[i]@[j] == zero,
                forall|i: int, j: int| 0 <= i < n && 0 <= j < size ==> #[trigger] v@[i]@[j] == zero,
        {
            k.push(filled_vec(zero, size));
            v.push(filled_vec(zero, size));
        }
        KvCache { k, v, cur_len: 0, max_seq }
    }

    /// Writes the key and the value row of a place.
    pub fn write(
        &mut self,
        batch: usize,
        heads: usize,
        dim: usize,
        p: CachePlace,
        key: &[T],
        value: &[T],
    )
        requires
            old(self).fits(old(self).k@.len() as int, batch as int, heads as int, dim as int),
            is_place(
                old(self).k@.len() as int,
                batch as int,
                heads as int,
                old(self).max_seq as int,
                p,
            ),
            key@.len() == dim,
            value@.len() == dim,
        ensures
            final(self).fits(old(self).k@.len() as int, batch as int, heads as int, dim as int),
            final(self).max_seq == old(self).max_seq,
            final(self).cur_len == old(self).cur_len,
            final(self).key(heads as int, dim as int, p) == key@,
            final(self).value(heads as int, dim as int, p) == value@,
            forall|q: CachePlace|
                is_place(
                    old(self).k@.len() as int,
                    batch as int,
                    heads as int,
                    old(self).max_seq as int,
                    q,
                ) && q != p
                    ==> #[trigger] final(self).key(heads as int, dim as int, q)
                    == old(self).key(heads as int, dim as int, q),
            forall|q: CachePlace|
                is_place(
                    old(self).k@.len() as int,
                    batch as int,
                    heads as int,
                    old(self).max_seq as int,
                    q,
                ) && q != p
                    ==> #[trigger] final(self).value(heads as int, dim as int, q)
                    == old(self).value(heads as int, dim as int, q),
    {
        let ghost (b, h, m, d) = (batch as int, heads as int, self.max_seq as int, dim as int);
        let ghost before = *self;
        let ghost layers = self.k@.len() as int;
        let max_seq: usize = self.max_seq;
        let limit: usize = self.k[p.layer].len();
        proof {
            lemma_row_start(b, h, m, d, p);
            assert(self.k@[p.layer as int]@.len() == b * h * m * d);
            assert(self.v@[p.layer as int]@.len() == b * h * m * d);
        }
        if dim > 0 {
            proof {
                assert(b * h >= 0) by (nonlinear_arith)
                    requires
                        b >= 0,
                        h >= 0,
                ;
                assert(b * h <= b * h * m && b * h * m <= b * h * m * d) by (nonlinear_arith)
                    requires
                        b * h >= 0,
                        m >= 1,
                        d >= 1,
                {
                    assert(b * h * m >= b * h);
                    assert(b * h * m * d >= b * h * m);
                }
            }
            let a: usize = flat(heads, p.item, p.head, Ghost(limit as int));
            let c: usize = flat(max_seq, a, p.position, Ghost(limit as int));
            let start: usize = flat(dim, c, 0, Ghost(limit as int));
            let mut k: Vec<T> = Vec::new();
            std::mem::swap(&mut k, &mut self.k[p.layer]);
            write_range(&mut k, start, key);
            std::mem::swap(&mut k, &mut self.k[p.layer]);
            let mut v: Vec<T> = Vec::new();
            std::mem::swap(&mut v, &mut self.v[p.layer]);
            write_range(&mut v, start, value);
            std::mem::swap(&mut v, &mut self.v[p.layer]);
        } else {
            assert(self.key(h, d, p) =~= key@);
            assert(self.value(h, d, p) =~= value@);
        }
        proof {
            assert forall|q: CachePlace|
                is_place(layers, b, h, m, q) && q != p implies #[trigger] self.key(h, d, q)
                == before.key(h, d, q) by {
                lemma_row_start(b, h, m, d, q);
                if q.layer == p.layer {
                    lemma_rows_apart(b, h, m, d, p, q);
                }
                assert(self.key(h, d, q) =~= before.key(h, d, q));
            }
            assert forall|q: CachePlace|
                is_place(layers, b, h, m, q) && q != p implies #[trigger] self.value(h, d, q)
                == before.value(h, d, q) by {
                lemma_row_start(b, h, m, d, q);
                if q.layer == p.layer {
                    lemma_rows_apart(b, h, m, d, p, q);
                }
                assert(self.value(h, d, q) =~= before.value(h, d, q));
            }
        }
    }

    /// Sets the number of filled positions.
    pub fn set_len(&mut self, n: usize)
        requires
            n <= old(self).max_seq,
        ensures
            final(self).cur_len == n,
            final(self).max_seq == old(self).max_seq,
            final(self).k == old(self).k,
            final(self).v == old(self).v,
    {
        self.cur_len = n;
    }
}

/// The row of a query: of text `item`, position `i` and head `head`.
pub open spec fn query_row<T>(
    queries: Seq<T>,
    count: int,
    heads: int,
    dim: int,
    item: int,
    i: int,
    head: int,
) -> Seq<T> {
    Seq::new(dim as nat, |j: int| queries[at4(count, heads, dim, item, i, head, j)])
}

/// The first `n` rows of key-value head `head` of text `item` in a layer of a cache.
pub open spec fn first_rows<T>(
    cache: Seq<T>,
    heads: int,
    max_seq: int,
    dim: int,
    item: int,
    head: int,
    n: int,
) -> Seq<T> {
    let start = at4(heads, max_seq, dim, item, head, 0, 0);
    cache.subrange(start, start + n * dim)
}

/// Whether `results`, a list for every text and query head, are what attention makes:
/// the row of every query is `attend` of the query and of the rows of keys and of values
/// that it sees, of the key-value head that its head shares.
pub open spec fn is_attention<T>(
    results: Seq<Seq<T>>,
    attend: spec_fn(Seq<T>, Seq<T>, Seq<T>) -> Seq<T>,
    queries: Seq<T>,
    keys: Seq<T>,
    values: Seq<T>,
    batch: int,
    heads: int,
    kv_heads: int,
    max_seq: int,
    dim: int,
    count: int,
    total: int,
    causal: bool,
) -> bool {
    forall|item: int, head: int, i: int, j: int|
        0 <= item < batch && 0 <= head < heads && 0 <= i < count && 0 <= j < dim ==> {
            let shared = head / (heads / kv_heads);
            let n = seen(i, count, total, causal);
            #[trigger] results[at(heads, item, head)][at(dim, i, j)] == attend(
                query_row(queries, count, heads, dim, item, i, head),
                first_rows(keys, kv_heads, max_seq, dim, item, shared, n),
                first_rows(values, kv_heads, max_seq, dim, item, shared, n),
            )[j]
        }
}

/// Whether two layers of a cache agree on the first `n` rows of every head.
pub open spec fn agree_on_rows<T>(
    a: Seq<T>,
    b: Seq<T>,
    batch: int,
    heads: int,
    max_seq: int,
    dim: int,
    n: int,
) -> bool {
    forall|item: int, head: int|
        0 <= item < batch && 0 <= head < heads ==> #[trigger] first_rows(
            a,
            heads,
            max_seq,
            dim,
            item,
            head,
            n,
        ) == first_rows(b, heads, max_seq, dim, item, head, n)
}

/// Of rows that agree, fewer agree too.
proof fn lemma_fewer_rows_agree<T>(
    a: Seq<T>,
    b: Seq<T>,
    heads: int,
    max_seq: int,
    dim: int,
    item: int,
    head: int,
    n: int,
    m: int,
)
    requires
        0 <= n <= m,
        0 <= dim,
        first_rows(a, heads, max_seq, dim, item, head, m) == first_rows(
            b,
            heads,
            max_seq,
            dim,
            item,
            head,
            m,
        ),
        0 <= at4(heads, max_seq, dim, item, head, 0, 0),
        at4(heads, max_seq, dim, item, head, 0, 0) + m * dim <= a.len(),
        at4(heads, max_seq, dim, item, head, 0, 0) + m * dim <= b.len(),
    ensures
        first_rows(a, heads, max_seq, dim, item, head, n) == first_rows(
            b,
            heads,
            max_seq,
            dim,
            item,
            head,
            n,
        ),
{
    let start = at4(heads, max_seq, dim, item, head, 0, 0);
    assert(0 <= n * dim <= m * dim) by (nonlinear_arith)
        requires
            0 <= n <= m,
            0 <= dim,
    ;
    let (x, y) = (a.subrange(start, start + m * dim), b.subrange(start, start + m * dim));
    assert(x.subrange(0, n * dim) =~= a.subrange(start, start + n * dim));
    assert(y.subrange(0, n * dim) =~= b.subrange(start, start + n * dim));
}

/// What comes later does not count: under a causal mask, where two caches of keys and
/// values agree on the rows that query `i` sees, the outputs of all heads of all texts
/// are the same for every query up to `i`, whatever attention makes of the rows that a
/// query sees. The first of as many queries as there are positions sees the first row
/// alone.
pub proof fn lemma_causal_attention<T>(
    out: Seq<T>,
    other_out: Seq<T>,
    results: Seq<Seq<T>>,
    other_results: Seq<Seq<T>>,
    attend: spec_fn(Seq<T>, Seq<T>, Seq<T>) -> Seq<T>,
    queries: Seq<T>,
    keys: Seq<T>,
    values: Seq<T>,
    other_keys: Seq<T>,
    other_values: Seq<T>,
    batch: int,
    heads: int,
    kv_heads: int,
    max_seq: int,
    dim: int,
    count: int,
    total: int,
    i: int,
)
    requires
        0 < kv_heads && 0 < heads && heads % kv_heads == 0,
        0 <= dim,
        0 <= i < count <= total <= max_seq,
        keys.len() == batch * kv_heads * max_seq * dim,
        values.len() == batch * kv_heads * max_seq * dim,
        other_keys.len() == batch * kv_heads * max_seq * dim,
        other_values.len() == batch * kv_heads * max_seq * dim,
        is_attention(
            results,
            attend,
            queries,
            keys,
            values,
            batch,
            heads,
            kv_heads,
            max_seq,
            dim,
            count,
            total,
            true,
        ),
        is_attention(
            other_results,
            attend,
            queries,
            other_keys,
            other_values,
            batch,
            heads,
            kv_heads,
            max_seq,
            dim,
            count,
            total,
            true,
        ),
        out.len() == batch * count * heads * dim,
        other_out.len() == batch * count * heads * dim,
        forall|k: int|
            0 <= k < out.len() ==> #[trigger] out[k] == merged(results, count, heads, dim, k),
        forall|k: int|
            0 <= k < other_out.len() ==> #[trigger] other_out[k] == merged(
                other_results,
                count,
                heads,
                dim,
                k,
            ),
        agree_on_rows(
            keys,
            other_keys,
            batch,
            kv_heads,
            max_seq,
            dim,
            seen(i, count, total, true),
        ),
        agree_on_rows(
            values,
            other_values,
            batch,
            kv_heads,
            max_seq,
            dim,
            seen(i, count, total, true),
        ),
    ensures
        forall|item: int, k: int, head: int, j: int|
            0 <= item < batch && 0 <= k <= i && 0 <= head < heads && 0 <= j < dim
                ==> out[#[trigger] at4(count, heads, dim, item, k, head, j)] == other_out[at4(
                count,
                heads,
                dim,
                item,
                k,
                head,
                j,
            )],
        count == total ==> seen(0, count, total, true) == 1,
{
    lemma_head_groups(heads, kv_heads);
    let group = heads / kv_heads;
    assert forall|item: int, k: int, head: int, j: int|
        0 <= item < batch && 0 <= k <= i && 0 <= head < heads && 0 <= j < dim implies out[
    #[trigger] at4(count, heads, dim, item, k, head, j)] == other_out[at4(
        count,
        heads,
        dim,
        item,
        k,
        head,
        j,
    )] by {
        lemma_at4(batch, count, heads, dim, (item, k, head, j));
        lemma_place(kv_heads, group, head);
        let shared = head / group;
        let n = seen(k, count, total, true);
        let m = seen(i, count, total, true);
        lemma_visible_grows(k, i, count, total, true);
        lemma_visible_grows(i, i, count, total, true);
        lemma_rows_within(batch, kv_heads, max_seq, dim, item, shared, m);
        assert(first_rows(keys, kv_heads, max_seq, dim, item, shared, m) == first_rows(
            other_keys,
            kv_heads,
            max_seq,
            dim,
            item,
            shared,
            m,
        ));
        assert(first_rows(values, kv_heads, max_seq, dim, item, shared, m) == first_rows(
            other_values,
            kv_heads,
            max_seq,
            dim,
            item,
            shared,
            m,
        ));
        lemma_fewer_rows_agree(keys, other_keys, kv_heads, max_seq, dim, item, shared, n, m);
        lemma_fewer_rows_agree(values, other_values, kv_heads, max_seq, dim, item, shared, n, m);
        let x = at4(count, heads, dim, item, k, head, j);
        assert(out[x] == merged(results, count, heads, dim, x));
        assert(other_out[x] == merged(other_results, count, heads, dim, x));
        assert(results[at(heads, item, head)][at(dim, k, j)] == other_results[at(
            heads,
            item,
            head,
        )][at(dim, k, j)]);
    }
}

/// The first rows of a head lie within a layer.
proof fn lemma_rows_within(
    batch: int,
    heads: int,
    max_seq: int,
    dim: int,
    item: int,
    head: int,
    n: int,
)
    requires
        0 <= item < batch,
        0 <= head < heads,
        0 < n <= max_seq,
        0 <= dim,
    ensures
        0 <= at4(heads, max_seq, dim, item, head, 0, 0),
        at4(heads, max_seq, dim, item, head, 0, 0) + n * dim <= batch * heads * max_seq * dim,
{
    let a = at(heads, item, head);
    lemma_at(batch, heads, item, head);
    lemma_at(batch * heads, max_seq, a, 0);
    lemma_at(batch * heads, max_seq, a, n - 1);
    lemma_row_within(batch * heads * max_seq, dim, at(max_seq, a, n - 1));
    assert(0 <= (a * max_seq) * dim && (a * max_seq) * dim + n * dim == (a * max_seq + (n - 1))
        * dim + dim) by (nonlinear_arith)
        requires
            0 <= a * max_seq,
            0 <= dim,
    ;
}

/// The multiple to which the columns of a single row of weights are filled up.
pub const COLUMN_ALIGNMENT: usize = 32;

/// Whether a product of weights and values needs columns of zeros: there is one row,
/// and the number of columns is not aligned.
pub open spec fn needs_filling(rows: int, cols: int) -> bool {
    rows <= 1 && cols % 32 != 0
}

/// The number of columns of zeros that align a product of weights and values.
pub fn filling(rows: usize, cols: usize) -> (pad: usize)
    requires
        cols + 31 <= usize::MAX,
    ensures
        !needs_filling(rows as int, cols as int) ==> pad == 0,
        needs_filling(rows as int, cols as int) ==> 0 < pad < COLUMN_ALIGNMENT && (cols + pad)
            % (COLUMN_ALIGNMENT as int) == 0,
{
    if rows > 1 || cols % COLUMN_ALIGNMENT == 0 {
        return 0;
    }
    (cols + COLUMN_ALIGNMENT - 1) / COLUMN_ALIGNMENT * COLUMN_ALIGNMENT - cols
}

/// In the merged results, what a head made of a query stands in the row of the query, in
/// the columns of the head.
pub proof fn lemma_merged_at<T>(
    heads: Seq<Seq<T>>,
    batch: int,
    count: int,
    n: int,
    dim: int,
    item: int,
    i: int,
    head: int,
    j: int,
)
    requires
        0 <= item < batch,
        0 <= i < count,
        0 <= head < n,
        0 <= j < dim,
    ensures
        merged(heads, count, n, dim, ((item * count + i) * n + head) * dim + j) == heads[item * n
            + head][i * dim + j],
{
    lemma_at4(batch, count, n, dim, (item, i, head, j));
}

/// A query sees itself and everything before it, where it may not see what comes later:
/// of as many queries as there are rows, the query at `i` sees `i + 1`, the first one only
/// itself; without that rule every query sees everything.
pub proof fn lemma_query_sees_itself(i: int, count: int, total: int)
    requires
        0 <= i < count <= total,
    ensures
        seen(i, count, total, false) == total,
        seen(i, total, total, true) == i + 1,
        i + 1 < count ==> seen(i + 1, count, total, true) == seen(i, count, total, true) + 1,
        seen(count - 1, count, total, true) == total,
{
}

} // verus!

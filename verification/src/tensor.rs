//! Tensors in row-major order, and moves of their elements.

use vstd::arithmetic::div_mod::lemma_fundamental_div_mod_converse;
use vstd::prelude::*;

verus! {

/// The number of elements of a shape.
pub open spec fn numel(shape: Seq<usize>) -> nat
    decreases shape.len(),
{
    if shape.len() == 0 {
        1
    } else {
        numel(shape.drop_last()) * shape.last() as nat
    }
}

/// The number of elements of a shape, where a `usize` holds it and every leading
/// part of it.
pub fn count_elements(shape: &[usize]) -> (n: Option<usize>)
    ensures
        n matches Some(k) ==> k == numel(shape@),
        n is None ==> exists|i: int|
            0 <= i <= shape@.len() && numel(#[trigger] shape@.take(i)) > usize::MAX,
{
    let mut n: usize = 1;
    assert(shape@.take(0) =~= Seq::empty());
    for i in 0..shape.len()
        invariant
            n == numel(shape@.take(i as int)),
    {
        proof {
            let longer = shape@.take(i + 1);
            assert(longer.drop_last() =~= shape@.take(i as int));
            assert(longer.last() == shape@[i as int]);
        }
        match n.checked_mul(shape[i]) {
            Some(m) => {
                n = m;
            },
            None => {
                assert(numel(shape@.take(i + 1)) > usize::MAX);
                return None;
            },
        }
    }
    assert(shape@.take(shape@.len() as int) =~= shape@);
    Some(n)
}

/// A tensor: elements in row-major order, and a shape.
pub struct CpuTensor<T> {
    pub data: Vec<T>,
    pub shape: Vec<usize>,
}

impl<T> CpuTensor<T> {
    /// The shape counts the elements.
    pub open spec fn well_formed(self) -> bool {
        self.data@.len() == numel(self.shape@)
    }

    /// A tensor of the given elements.
    pub fn new(data: Vec<T>, shape: Vec<usize>) -> (t: Self)
        requires
            data@.len() == numel(shape@),
        ensures
            t.well_formed(),
            t.data@ == data@,
            t.shape@ == shape@,
    {
        CpuTensor { data, shape }
    }

    /// The shape of the tensor.
    pub fn shape(&self) -> (s: &[usize])
        ensures
            s@ == self.shape@,
    {
        self.shape.as_slice()
    }

    /// The number of elements.
    pub fn numel(&self) -> (n: usize)
        ensures
            n == self.data@.len(),
            self.well_formed() ==> n == numel(self.shape@),
    {
        self.data.len()
    }

    /// The same elements under another shape.
    pub fn reshape(self, shape: Vec<usize>) -> (t: Self)
        requires
            self.data@.len() == numel(shape@),
        ensures
            t.well_formed(),
            t.data@ == self.data@,
            t.shape@ == shape@,
    {
        CpuTensor { data: self.data, shape }
    }
}

impl<T: Copy> CpuTensor<T> {
    /// A tensor filled with one value.
    pub fn filled(value: T, shape: Vec<usize>, n: usize) -> (t: Self)
        requires
            n == numel(shape@),
        ensures
            t.well_formed(),
            t.shape@ == shape@,
            forall|i: int| 0 <= i < n ==> #[trigger] t.data@[i] == value,
    {
        CpuTensor { data: filled_vec(value, n), shape }
    }
}

/// `n` copies of a value.
pub fn filled_vec<T: Copy>(value: T, n: usize) -> (v: Vec<T>)
    ensures
        v@.len() == n,
        forall|i: int| 0 <= i < n ==> #[trigger] v@[i] == value,
{
    let mut v: Vec<T> = Vec::with_capacity(n);
    for i in 0..n
        invariant
            v@.len() == i,
            forall|k: int| 0 <= k < i ==> #[trigger] v@[k] == value,
    {
        v.push(value);
    }
    v
}

/// The place of column `j` of row `i` in rows of `n` columns.
pub open spec fn at(n: int, i: int, j: int) -> int {
    i * n + j
}

/// Row and column can be read off the place, and the place lies within the rows.
pub proof fn lemma_at(m: int, n: int, i: int, j: int)
    requires
        0 <= i < m,
        0 <= j < n,
    ensures
        0 <= at(n, i, j) < m * n,
        at(n, i, j) / n == i,
        at(n, i, j) % n == j,
        i * n <= at(n, i, j),
        i <= at(n, i, j),
{
    assert(0 <= i * n && i * n + j < m * n && i * n + j >= i) by (nonlinear_arith)
        requires
            0 <= i < m,
            0 <= j < n,
    {
        assert(i * n <= (m - 1) * n);
        assert((m - 1) * n == m * n - n);
        assert(i * n >= i);
    }
    lemma_fundamental_div_mod_converse(i * n + j, n, i, j);
}

/// A place within rows has a row and a column.
pub proof fn lemma_place(m: int, n: int, k: int)
    requires
        0 <= k < m * n,
        m >= 0,
        n >= 0,
    ensures
        n > 0,
        0 <= k / n < m,
        0 <= k % n < n,
        k == at(n, k / n, k % n),
{
    assert(n > 0) by (nonlinear_arith)
        requires
            0 <= k < m * n,
            n >= 0,
    ;
    vstd::arithmetic::div_mod::lemma_fundamental_div_mod(k, n);
    let q = k / n;
    assert(0 <= q < m) by (nonlinear_arith)
        requires
            0 <= k < m * n,
            k == n * q + k % n,
            0 <= k % n < n,
            n > 0,
    ;
    assert(n * q == q * n) by (nonlinear_arith);
}

/// Products of dimensions that fit stay within a larger product.
pub proof fn lemma_factor(a: int, b: int)
    requires
        a >= 0,
        b >= 1,
    ensures
        a <= a * b,
{
    assert(a <= a * b) by (nonlinear_arith)
        requires
            a >= 0,
            b >= 1,
    ;
}

/// The place of an element in a tensor of four dimensions, of which the last three
/// are given.
pub open spec fn at4(d1: int, d2: int, d3: int, i0: int, i1: int, i2: int, i3: int) -> int {
    at(d3, at(d2, at(d1, i0, i1), i2), i3)
}

/// The index of an element in a tensor of four dimensions, by its place.
pub open spec fn index4(d1: int, d2: int, d3: int, k: int) -> (int, int, int, int) {
    (((k / d3) / d2) / d1, ((k / d3) / d2) % d1, (k / d3) % d2, k % d3)
}

pub open spec fn in_range4(
    d0: int,
    d1: int,
    d2: int,
    d3: int,
    i: (int, int, int, int),
) -> bool {
    0 <= i.0 < d0 && 0 <= i.1 < d1 && 0 <= i.2 < d2 && 0 <= i.3 < d3
}

/// Index and place in four dimensions determine each other.
pub proof fn lemma_at4(d0: int, d1: int, d2: int, d3: int, i: (int, int, int, int))
    requires
        in_range4(d0, d1, d2, d3, i),
    ensures
        0 <= at4(d1, d2, d3, i.0, i.1, i.2, i.3) < d0 * d1 * d2 * d3,
        index4(d1, d2, d3, at4(d1, d2, d3, i.0, i.1, i.2, i.3)) == i,
        0 <= at(d1, i.0, i.1) <= at(d2, at(d1, i.0, i.1), i.2) <= at4(
            d1,
            d2,
            d3,
            i.0,
            i.1,
            i.2,
            i.3,
        ),
{
    let a = at(d1, i.0, i.1);
    let b = at(d2, a, i.2);
    lemma_at(d0, d1, i.0, i.1);
    lemma_at(d0 * d1, d2, a, i.2);
    lemma_at(d0 * d1 * d2, d3, b, i.3);
}

/// A place within four dimensions has an index.
pub proof fn lemma_place4(d0: int, d1: int, d2: int, d3: int, k: int)
    requires
        0 <= k < d0 * d1 * d2 * d3,
        d0 >= 0,
        d1 >= 0,
        d2 >= 0,
        d3 >= 0,
    ensures
        in_range4(d0, d1, d2, d3, index4(d1, d2, d3, k)),
        d1 > 0,
        d2 > 0,
        d3 > 0,
{
    assert(d0 * d1 >= 0 && d0 * d1 * d2 >= 0) by (nonlinear_arith)
        requires
            d0 >= 0,
            d1 >= 0,
            d2 >= 0,
    {
        assert(d0 * d1 >= 0);
    }
    lemma_place(d0 * d1 * d2, d3, k);
    lemma_place(d0 * d1, d2, k / d3);
    lemma_place(d0, d1, (k / d3) / d2);
}

/// Products of four factors do not depend on the order of the middle two.
pub proof fn lemma_swap_product(d0: int, d1: int, d2: int, d3: int)
    ensures
        d0 * d1 * d2 * d3 == d0 * d2 * d1 * d3,
{
    assert(d0 * d1 * d2 == d0 * d2 * d1) by (nonlinear_arith);
}

/// The number of elements of a shape with one more dimension.
pub proof fn lemma_numel_push(shape: Seq<usize>, d: usize)
    ensures
        numel(shape.push(d)) == numel(shape) * d,
{
    assert(shape.push(d).drop_last() =~= shape);
}

pub proof fn lemma_numel4(d0: usize, d1: usize, d2: usize, d3: usize)
    ensures
        numel(seq![d0, d1]) == d0 * d1,
        numel(seq![d0, d1, d2]) == d0 * d1 * d2,
        numel(seq![d0, d1, d2, d3]) == d0 * d1 * d2 * d3,
{
    let e = Seq::<usize>::empty();
    lemma_numel_push(e, d0);
    assert(numel(e.push(d0)) == d0) by (nonlinear_arith)
        requires
            numel(e.push(d0)) == numel(e) * d0,
            numel(e) == 1,
    ;
    lemma_numel_push(e.push(d0), d1);
    lemma_numel_push(e.push(d0).push(d1), d2);
    lemma_numel_push(e.push(d0).push(d1).push(d2), d3);
    assert(e.push(d0).push(d1) =~= seq![d0, d1]);
    assert(e.push(d0).push(d1).push(d2) =~= seq![d0, d1, d2]);
    assert(e.push(d0).push(d1).push(d2).push(d3) =~= seq![d0, d1, d2, d3]);
}

/// A four-dimensional tensor with its middle dimensions swapped.
pub open spec fn is_swapped<T>(x: CpuTensor<T>, y: CpuTensor<T>) -> bool {
    let (d0, d1, d2, d3) = (
        x.shape@[0] as int,
        x.shape@[1] as int,
        x.shape@[2] as int,
        x.shape@[3] as int,
    );
    &&& y.shape@ == seq![x.shape@[0], x.shape@[2], x.shape@[1], x.shape@[3]]
    &&& y.well_formed()
    &&& forall|i: (int, int, int, int)| #[trigger]
        in_range4(d0, d1, d2, d3, i) ==> y.data@[at4(d2, d1, d3, i.0, i.2, i.1, i.3)]
            == x.data@[at4(d1, d2, d3, i.0, i.1, i.2, i.3)]
}

/// Swaps the two middle dimensions of a tensor of four dimensions.
pub fn swap_dims_12<T: Copy>(x: &CpuTensor<T>) -> (y: CpuTensor<T>)
    requires
        x.shape@.len() == 4,
        x.well_formed(),
    ensures
        is_swapped(*x, y),
{
    let (d0, d1, d2, d3): (usize, usize, usize, usize) = (
        x.shape[0],
        x.shape[1],
        x.shape[2],
        x.shape[3],
    );
    let n: usize = x.data.len();
    proof {
        assert(x.shape@ =~= seq![d0, d1, d2, d3]);
        lemma_numel4(d0, d1, d2, d3);
        lemma_numel4(d0, d2, d1, d3);
        lemma_swap_product(d0 as int, d1 as int, d2 as int, d3 as int);
    }
    let mut data: Vec<T> = Vec::with_capacity(n);
    for k in 0..n
        invariant
            n == x.data@.len(),
            n == d0 * d1 * d2 * d3,
            n == d0 * d2 * d1 * d3,
            data@.len() == k,
            forall|p: int|
                0 <= p < k ==> #[trigger] data@[p] == x.data@[({
                    let j = index4(d2 as int, d1 as int, d3 as int, p);
                    at4(d1 as int, d2 as int, d3 as int, j.0, j.2, j.1, j.3)
                })],
    {
        proof {
            lemma_place4(d0 as int, d2 as int, d1 as int, d3 as int, k as int);
            let j = index4(d2 as int, d1 as int, d3 as int, k as int);
            lemma_at4(d0 as int, d1 as int, d2 as int, d3 as int, (j.0, j.2, j.1, j.3));
        }
        let i3: usize = k % d3;
        let i1: usize = (k / d3) % d1;
        let i2: usize = ((k / d3) / d1) % d2;
        let i0: usize = ((k / d3) / d1) / d2;
        assert(i0 * d1 + i1 == at(d1 as int, i0 as int, i1 as int));
        let a: usize = flat(d1, i0, i1, Ghost(n as int));
        let b: usize = flat(d2, a, i2, Ghost(n as int));
        let c: usize = flat(d3, b, i3, Ghost(n as int));
        data.push(x.data[c]);
    }
    let mut shape: Vec<usize> = Vec::with_capacity(4);
    shape.push(d0);
    shape.push(d2);
    shape.push(d1);
    shape.push(d3);
    proof {
        assert(shape@ =~= seq![d0, d2, d1, d3]);
        assert forall|i: (int, int, int, int)| #[trigger]
            in_range4(d0 as int, d1 as int, d2 as int, d3 as int, i) implies data@[at4(
            d2 as int,
            d1 as int,
            d3 as int,
            i.0,
            i.2,
            i.1,
            i.3,
        )] == x.data@[at4(d1 as int, d2 as int, d3 as int, i.0, i.1, i.2, i.3)] by {
            lemma_at4(d0 as int, d2 as int, d1 as int, d3 as int, (i.0, i.2, i.1, i.3));
        }
    }
    CpuTensor { data, shape }
}

/// The place of column `j` of row `i`, below `limit`.
pub(crate) fn flat(n: usize, i: usize, j: usize, Ghost(limit): Ghost<int>) -> (k: usize)
    requires
        0 <= at(n as int, i as int, j as int) <= limit <= usize::MAX,
    ensures
        k == at(n as int, i as int, j as int),
{
    proof {
        assert(i * n >= 0) by (nonlinear_arith);
    }
    i * n + j
}

proof fn lemma_swapped_at<T>(
    x: CpuTensor<T>,
    y: CpuTensor<T>,
    d: (int, int, int, int),
    i: (int, int, int, int),
)
    requires
        is_swapped(x, y),
        d == (
            x.shape@[0] as int,
            x.shape@[1] as int,
            x.shape@[2] as int,
            x.shape@[3] as int,
        ),
        in_range4(d.0, d.1, d.2, d.3, i),
    ensures
        y.data@[at4(d.2, d.1, d.3, i.0, i.2, i.1, i.3)] == x.data@[at4(
            d.1,
            d.2,
            d.3,
            i.0,
            i.1,
            i.2,
            i.3,
        )],
{
}

/// Swapping the middle dimensions twice gives the tensor back.
pub proof fn lemma_swap_twice<T>(x: CpuTensor<T>, y: CpuTensor<T>, z: CpuTensor<T>)
    requires
        x.shape@.len() == 4,
        x.well_formed(),
        is_swapped(x, y),
        is_swapped(y, z),
    ensures
        z.data@ == x.data@,
        z.shape@ == x.shape@,
{
    let (a0, a1, a2, a3) = (x.shape@[0], x.shape@[1], x.shape@[2], x.shape@[3]);
    let (d0, d1, d2, d3) = (a0 as int, a1 as int, a2 as int, a3 as int);
    assert(x.shape@ =~= seq![a0, a1, a2, a3]);
    assert(y.shape@[0] == a0 && y.shape@[1] == a2 && y.shape@[2] == a1 && y.shape@[3] == a3);
    assert(z.shape@ =~= x.shape@);
    lemma_numel4(a0, a1, a2, a3);
    assert forall|k: int| 0 <= k < x.data@.len() implies #[trigger] z.data@[k] == x.data@[k] by {
        lemma_place4(d0, d1, d2, d3, k);
        let i = index4(d1, d2, d3, k);
        assert(in_range4(d0, d1, d2, d3, i));
        let j = (i.0, i.2, i.1, i.3);
        lemma_place(d0 * d1 * d2, d3, k);
        lemma_place(d0 * d1, d2, k / d3);
        lemma_place(d0, d1, (k / d3) / d2);
        assert(at4(d1, d2, d3, i.0, i.1, i.2, i.3) == k);
        lemma_swapped_at(x, y, (d0, d1, d2, d3), i);
        lemma_swapped_at(y, z, (d0, d2, d1, d3), j);
    }
    assert(z.data@ =~= x.data@);
}

/// Swapping the middle dimensions moves no element where the second of them is one.
pub proof fn lemma_swap_with_one<T>(x: CpuTensor<T>, y: CpuTensor<T>)
    requires
        x.shape@.len() == 4,
        x.shape@[2] == 1,
        x.well_formed(),
        is_swapped(x, y),
    ensures
        y.data@ == x.data@,
{
    let (a0, a1, a3) = (x.shape@[0], x.shape@[1], x.shape@[3]);
    let (d0, d1, d3) = (a0 as int, a1 as int, a3 as int);
    assert(x.shape@ =~= seq![a0, a1, 1usize, a3]);
    assert(y.shape@ =~= seq![a0, 1usize, a1, a3]);
    lemma_numel4(a0, a1, 1, a3);
    lemma_numel4(a0, 1, a1, a3);
    lemma_swap_product(d0, d1, 1, d3);
    assert forall|k: int| 0 <= k < x.data@.len() implies #[trigger] y.data@[k] == x.data@[k] by {
        lemma_place4(d0, d1, 1, d3, k);
        let i = index4(d1, 1, d3, k);
        lemma_place(d0 * d1 * 1, d3, k);
        lemma_place(d0 * d1, 1, k / d3);
        lemma_place(d0, d1, (k / d3) / 1);
        assert(at4(d1, 1, d3, i.0, i.1, i.2, i.3) == k);
        assert(at4(1, d1, d3, i.0, i.2, i.1, i.3) == k);
        lemma_swapped_at(x, y, (d0, d1, 1, d3), i);
    }
    assert(y.data@ =~= x.data@);
}

/// A matrix: its elements in row-major order.
pub struct CpuWeight<T> {
    pub data: Vec<T>,
    /// The number of outputs.
    pub rows: usize,
    /// The number of inputs.
    pub cols: usize,
}

impl<T> CpuWeight<T> {
    pub open spec fn well_formed(self) -> bool {
        self.data@.len() == self.rows * self.cols
    }
}

/// The rows `rows` of a matrix of `cols` columns, one after the other.
pub open spec fn rows_of<T>(data: Seq<T>, cols: int, rows: Seq<int>) -> Seq<T>
    decreases rows.len(),
{
    if rows.len() == 0 {
        Seq::empty()
    } else {
        let r = rows.last();
        rows_of(data, cols, rows.drop_last()) + data.subrange(r * cols, r * cols + cols)
    }
}

/// The length of gathered rows.
pub proof fn lemma_rows_of_len<T>(data: Seq<T>, cols: int, rows: Seq<int>, count: int)
    requires
        cols >= 0,
        data.len() >= count * cols,
        forall|i: int| 0 <= i < rows.len() ==> 0 <= #[trigger] rows[i] < count,
    ensures
        rows_of(data, cols, rows).len() == rows.len() * cols,
    decreases rows.len(),
{
    if rows.len() > 0 {
        let rest = rows.drop_last();
        assert forall|i: int| 0 <= i < rest.len() implies 0 <= #[trigger] rest[i] < count by {
            assert(rest[i] == rows[i]);
        }
        lemma_rows_of_len(data, cols, rest, count);
        let r = rows[rows.len() - 1];
        lemma_row_within(count, cols, r);
        assert((rows.len() - 1) * cols + cols == rows.len() * cols) by (nonlinear_arith);
    } else {
        assert(0 * cols == 0);
    }
}

/// A row lies within its matrix.
pub proof fn lemma_row_within(count: int, cols: int, r: int)
    requires
        0 <= r < count,
        cols >= 0,
    ensures
        0 <= r * cols <= r * cols + cols <= count * cols,
{
    assert(0 <= r * cols && r * cols + cols <= count * cols) by (nonlinear_arith)
        requires
            0 <= r < count,
            cols >= 0,
    {
        assert((r + 1) * cols <= count * cols);
        assert((r + 1) * cols == r * cols + cols);
    }
}

/// Appends `src[start..end]` to `dst`.
pub(crate) fn append_range<T: Copy>(dst: &mut Vec<T>, src: &[T], start: usize, end: usize)
    requires
        start <= end <= src@.len(),
    ensures
        final(dst)@ == old(dst)@ + src@.subrange(start as int, end as int),
{
    for i in start..end
        invariant
            start <= end <= src@.len(),
            dst@ == old(dst)@ + src@.subrange(start as int, i as int),
    {
        dst.push(src[i]);
        assert(dst@ =~= old(dst)@ + src@.subrange(start as int, i + 1));
    }
    assert(start == end ==> dst@ =~= old(dst)@ + src@.subrange(start as int, end as int));
}

/// The places as integers.
pub open spec fn as_ints(s: Seq<usize>) -> Seq<int> {
    s.map_values(|i: usize| i as int)
}

/// Gathers rows of a matrix of `cols` columns.
pub fn gather_rows<T: Copy>(data: &[T], cols: usize, count: usize, rows: &[usize]) -> (out: Vec<T>)
    requires
        data@.len() >= count * cols,
        forall|i: int| 0 <= i < rows@.len() ==> #[trigger] rows@[i] < count,
    ensures
        out@ == rows_of(data@, cols as int, as_ints(rows@)),
        out@.len() == rows@.len() * cols,
{
    let mut out: Vec<T> = Vec::new();
    let ghost all = as_ints(rows@);
    assert(all.take(0) =~= Seq::empty());
    for i in 0..rows.len()
        invariant
            all == as_ints(rows@),
            data@.len() >= count * cols,
            forall|k: int| 0 <= k < rows@.len() ==> #[trigger] rows@[k] < count,
            out@ == rows_of(data@, cols as int, all.take(i as int)),
    {
        let r: usize = rows[i];
        let n: usize = data.len();
        proof {
            lemma_row_within(count as int, cols as int, r as int);
            let longer = all.take(i + 1);
            assert(longer.drop_last() =~= all.take(i as int));
            assert(longer.last() == r);
        }
        let start: usize = flat(cols, r, 0, Ghost(n as int));
        append_range(&mut out, data, start, start + cols);
    }
    proof {
        assert(all.take(rows@.len() as int) =~= all);
        assert forall|i: int| 0 <= i < all.len() implies 0 <= #[trigger] all[i] < count by {
            assert(rows@[i] < count);
        }
        lemma_rows_of_len(data@, cols as int, all, count as int);
    }
    out
}

/// Looks rows of a table up by number.
pub fn embed_lookup<T: Copy>(table: &CpuWeight<T>, ids: &[i64]) -> (out: CpuTensor<T>)
    requires
        table.well_formed(),
        forall|i: int| 0 <= i < ids@.len() ==> 0 <= #[trigger] ids@[i] < table.rows,
    ensures
        out.well_formed(),
        out.shape@ == seq![ids@.len() as usize, table.cols],
        out.data@ == rows_of(
            table.data@,
            table.cols as int,
            ids@.map_values(|id: i64| id as int),
        ),
{
    let n: usize = ids.len();
    let mut rows: Vec<usize> = Vec::with_capacity(n);
    for i in 0..n
        invariant
            n == ids@.len(),
            rows@.len() == i,
            forall|k: int| 0 <= k < ids@.len() ==> 0 <= #[trigger] ids@[k] < table.rows,
            forall|k: int| 0 <= k < i ==> #[trigger] rows@[k] == ids@[k],
    {
        assert(0 <= ids@[i as int] < table.rows);
        rows.push(ids[i] as usize);
    }
    assert forall|k: int| 0 <= k < rows@.len() implies #[trigger] rows@[k] < table.rows by {
        assert(rows@[k] == ids@[k]);
    }
    assert(as_ints(rows@) =~= ids@.map_values(|id: i64| id as int));
    let data: Vec<T> = gather_rows(&table.data, table.cols, table.rows, &rows);
    let mut shape: Vec<usize> = Vec::with_capacity(2);
    shape.push(n);
    shape.push(table.cols);
    proof {
        assert(shape@ =~= seq![n, table.cols]);
        lemma_numel4(n, table.cols, 0, 0);
    }
    CpuTensor { data, shape }
}

/// The places of a token in a sequence, in order.
pub open spec fn places_of(ids: Seq<i64>, token: i64) -> Seq<int>
    decreases ids.len(),
{
    if ids.len() == 0 {
        Seq::empty()
    } else {
        let rest = places_of(ids.drop_last(), token);
        if ids.last() == token {
            rest.push(ids.len() - 1)
        } else {
            rest
        }
    }
}

/// Finds the places of a token in a sequence.
pub fn positions_of(ids: &[i64], token: i64) -> (out: Vec<usize>)
    ensures
        as_ints(out@) == places_of(ids@, token),
        forall|i: int| 0 <= i < out@.len() ==> #[trigger] out@[i] < ids@.len() && ids@[out@[i] as int]
            == token,
{
    let mut out: Vec<usize> = Vec::new();
    assert(ids@.take(0) =~= Seq::empty());
    assert(as_ints(out@) =~= Seq::empty());
    for i in 0..ids.len()
        invariant
            as_ints(out@) == places_of(ids@.take(i as int), token),
            forall|k: int|
                0 <= k < out@.len() ==> #[trigger] out@[k] < i && ids@[out@[k] as int] == token,
    {
        proof {
            let longer = ids@.take(i + 1);
            assert(longer.drop_last() =~= ids@.take(i as int));
            assert(longer.last() == ids@[i as int]);
            assert(as_ints(out@.push(i)) =~= as_ints(out@).push(i as int));
        }
        if ids[i] == token {
            out.push(i);
        }
    }
    assert(ids@.take(ids@.len() as int) =~= ids@);
    out
}

/// Rows of `rows` put in place of the rows of the matrix `values` at which
/// `token` stands in `ids`: the first row at the first place, and so on.
pub open spec fn spliced<T>(
    values: Seq<T>,
    cols: int,
    ids: Seq<i64>,
    token: i64,
    rows: Seq<T>,
    k: int,
) -> T {
    let r = k / cols;
    if ids[r] == token {
        rows[places_of(ids.take(r), token).len() * cols + k % cols]
    } else {
        values[k]
    }
}

/// A token stands at least as often in a longer sequence.
proof fn lemma_places_grow(ids: Seq<i64>, token: i64, r: int)
    requires
        0 <= r < ids.len(),
        ids[r] == token,
    ensures
        places_of(ids.take(r), token).len() < places_of(ids, token).len(),
    decreases ids.len(),
{
    if r == ids.len() - 1 {
        assert(ids.take(r) =~= ids.drop_last());
    } else {
        let rest = ids.drop_last();
        lemma_places_grow(rest, token, r);
        assert(rest.take(r) =~= ids.take(r));
    }
}

/// Puts rows in place of the rows of a matrix at which a token stands.
pub fn splice_rows<T: Copy>(
    values: &[T],
    cols: usize,
    ids: &[i64],
    token: i64,
    rows: &[T],
) -> (out: Vec<T>)
    requires
        values@.len() == ids@.len() * cols,
        rows@.len() >= places_of(ids@, token).len() * cols,
    ensures
        out@.len() == values@.len(),
        forall|k: int|
            0 <= k < out@.len() ==> #[trigger] out@[k] == spliced(
                values@,
                cols as int,
                ids@,
                token,
                rows@,
                k,
            ),
{
    let n: usize = values.len();
    let m: usize = rows.len();
    let count: usize = ids.len();
    let mut out: Vec<T> = Vec::with_capacity(n);
    let mut used: usize = 0;
    assert(ids@.take(0) =~= Seq::empty());
    for r in 0..count
        invariant
            n == values@.len(),
            m == rows@.len(),
            count == ids@.len(),
            n == count * cols,
            m >= places_of(ids@, token).len() * cols,
            used == places_of(ids@.take(r as int), token).len(),
            used <= r,
            out@.len() == r * cols,
            forall|k: int|
                0 <= k < out@.len() ==> #[trigger] out@[k] == spliced(
                    values@,
                    cols as int,
                    ids@,
                    token,
                    rows@,
                    k,
                ),
    {
        let ghost before = out@;
        let base: usize = out.len();
        proof {
            lemma_row_within(count as int, cols as int, r as int);
            let longer = ids@.take(r + 1);
            assert(longer.drop_last() =~= ids@.take(r as int));
            assert(longer.last() == ids@[r as int]);
        }
        if ids[r] == token {
            proof {
                lemma_places_grow(ids@, token, r as int);
                let total = places_of(ids@, token).len() as int;
                lemma_row_within(total, cols as int, used as int);
            }
            let start: usize = flat(cols, used, 0, Ghost(m as int));
            append_range(&mut out, rows, start, start + cols);
            used = used + 1;
        } else {
            append_range(&mut out, values, base, base + cols);
        }
        proof {
            assert((r + 1) * cols == r * cols + cols) by (nonlinear_arith);
            assert forall|k: int| 0 <= k < out@.len() implies #[trigger] out@[k] == spliced(
                values@,
                cols as int,
                ids@,
                token,
                rows@,
                k,
            ) by {
                if k < before.len() {
                    assert(out@[k] == before[k]);
                } else {
                    lemma_at(r + 1, cols as int, r as int, k - r * cols);
                }
            }
        }
    }
    out
}

/// The shape of a product with a matrix that has `rows` rows and as many columns as
/// the last dimension of `shape`: the last dimension becomes `rows`. With it comes the
/// number of rows of the product.
pub fn linear_shape(shape: &[usize], rows: usize) -> (r: (usize, Vec<usize>))
    requires
        shape@.len() > 0,
        forall|i: int| 0 <= i <= shape@.len() ==> numel(#[trigger] shape@.take(i)) <= usize::MAX,
    ensures
        r.0 == numel(shape@.drop_last()),
        r.1@ == shape@.drop_last().push(rows),
        numel(r.1@) == r.0 * rows,
{
    let last: usize = shape.len() - 1;
    let mut count: usize = 1;
    let mut out: Vec<usize> = Vec::new();
    assert(shape@.take(0) =~= Seq::empty());
    for i in 0..last
        invariant
            last == shape@.len() - 1,
            count == numel(shape@.take(i as int)),
            out@ == shape@.take(i as int),
            forall|j: int|
                0 <= j <= shape@.len() ==> numel(#[trigger] shape@.take(j)) <= usize::MAX,
    {
        proof {
            let longer = shape@.take(i + 1);
            assert(longer.drop_last() =~= shape@.take(i as int));
            assert(longer.last() == shape@[i as int]);
            assert(numel(longer) <= usize::MAX);
        }
        count = count * shape[i];
        out.push(shape[i]);
        assert(out@ =~= shape@.take(i + 1));
    }
    assert(shape@.take(last as int) =~= shape@.drop_last());
    out.push(rows);
    proof {
        lemma_numel_push(shape@.drop_last(), rows);
    }
    (count, out)
}

/// How many outputs of a product with one row a thread takes at a time: a quarter of
/// its share, but at least 64 and at most 2048.
pub fn gemv_chunk(outputs: usize, threads: usize) -> (n: usize)
    requires
        0 < threads,
        threads * 4 <= usize::MAX,
    ensures
        ({
            let quarter = outputs as int / (threads * 4);
            n == (if quarter < 64 {
                64
            } else if quarter > 2048 {
                2048
            } else {
                quarter
            })
        }),
{
    let quarter: usize = outputs / (threads * 4);
    if quarter < 64 {
        64
    } else if quarter > 2048 {
        2048
    } else {
        quarter
    }
}

/// In collected rows, row `i` is the row of the data that entry `i` names.
pub proof fn lemma_row_is_collected<T>(
    data: Seq<T>,
    cols: int,
    rows: Seq<int>,
    count: int,
    i: int,
    c: int,
)
    requires
        data.len() >= count * cols,
        forall|j: int| 0 <= j < rows.len() ==> 0 <= #[trigger] rows[j] < count,
        0 <= i < rows.len(),
        0 <= c < cols,
    ensures
        rows_of(data, cols, rows).len() == rows.len() * cols,
        rows_of(data, cols, rows)[i * cols + c] == data[rows[i] * cols + c],
    decreases rows.len(),
{
    let fewer = rows.drop_last();
    let n = fewer.len() as int;
    assert forall|j: int| 0 <= j < fewer.len() implies 0 <= #[trigger] fewer[j] < count by {
        assert(fewer[j] == rows[j]);
    }
    lemma_rows_of_len(data, cols, rows, count);
    lemma_rows_of_len(data, cols, fewer, count);
    let r = rows.last();
    assert(r == rows[n]);
    lemma_row_within(count, cols, r);
    if i < n {
        lemma_row_is_collected(data, cols, fewer, count, i, c);
        lemma_row_within(n, cols, i);
        assert(fewer[i] == rows[i]);
    } else {
        assert(rows_of(data, cols, rows)[n * cols + c] == data.subrange(r * cols, r * cols + cols)[c]);
    }
}

/// The places of a token are all the places that hold it and no others, in order.
pub proof fn lemma_places_are_all(ids: Seq<i64>, token: i64)
    ensures
        ({
            let p = places_of(ids, token);
            &&& forall|k: int|
                0 <= k < p.len() ==> 0 <= #[trigger] p[k] < ids.len() && ids[p[k]] == token
            &&& forall|k: int, l: int| 0 <= k < l < p.len() ==> p[k] < p[l]
            &&& forall|i: int|
                0 <= i < ids.len() && #[trigger] ids[i] == token ==> exists|k: int|
                    0 <= k < p.len() && #[trigger] p[k] == i
        }),
    decreases ids.len(),
{
    if ids.len() > 0 {
        let fewer = ids.drop_last();
        lemma_places_are_all(fewer, token);
        let rest = places_of(fewer, token);
        let p = places_of(ids, token);
        assert forall|k: int| 0 <= k < p.len() implies 0 <= #[trigger] p[k] < ids.len() && ids[p[k]]
            == token by {
            if k < rest.len() {
                assert(p[k] == rest[k]);
                assert(fewer[rest[k]] == ids[rest[k]]);
            }
        }
        assert forall|k: int, l: int| 0 <= k < l < p.len() implies p[k] < p[l] by {
            assert(p[k] == rest[k]);
            assert(l < rest.len() ==> p[l] == rest[l]);
        }
        assert forall|i: int| 0 <= i < ids.len() && #[trigger] ids[i] == token implies exists|k: int|
            0 <= k < p.len() && #[trigger] p[k] == i by {
            if i < fewer.len() {
                assert(fewer[i] == token);
                let k = choose|k: int| 0 <= k < rest.len() && #[trigger] rest[k] == i;
                assert(p[k] == i);
            } else {
                assert(p[p.len() - 1] == i);
            }
        }
    }
}

/// Where rows are put in for a token, the first place that holds the token has the first
/// row, the next one the second, and every other place keeps its own row.
pub proof fn lemma_rows_are_spliced<T>(
    values: Seq<T>,
    cols: int,
    ids: Seq<i64>,
    token: i64,
    rows: Seq<T>,
    i: int,
    c: int,
)
    requires
        0 <= i < ids.len(),
        0 <= c < cols,
    ensures
        ids[i] != token ==> spliced(values, cols, ids, token, rows, i * cols + c) == values[i * cols
            + c],
        forall|k: int|
            0 <= k < places_of(ids, token).len() && #[trigger] places_of(ids, token)[k] == i
                ==> spliced(values, cols, ids, token, rows, i * cols + c) == rows[k * cols + c],
{
    lemma_at(ids.len() as int, cols, i, c);
    lemma_places_are_all(ids, token);
    assert forall|k: int|
        0 <= k < places_of(ids, token).len() && #[trigger] places_of(ids, token)[k] == i implies k
        == places_of(ids.take(i), token).len() by {
        lemma_places_before(ids, token, i, k);
    }
}

proof fn lemma_places_before(ids: Seq<i64>, token: i64, i: int, k: int)
    requires
        0 <= i < ids.len(),
        0 <= k < places_of(ids, token).len(),
        places_of(ids, token)[k] == i,
    ensures
        places_of(ids.take(i), token).len() == k,
    decreases ids.len(),
{
    let fewer = ids.drop_last();
    let rest = places_of(fewer, token);
    lemma_places_are_all(fewer, token);
    if i < fewer.len() {
        assert(k < rest.len());
        assert(places_of(ids, token)[k] == rest[k]);
        lemma_places_before(fewer, token, i, k);
        assert(fewer.take(i) =~= ids.take(i));
    } else {
        assert(ids.take(i) =~= fewer);
        if k < rest.len() {
            assert(rest[k] == places_of(ids, token)[k]);
            assert(rest[k] < fewer.len());
        }
    }
}

} // verus!

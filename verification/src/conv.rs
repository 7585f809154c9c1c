//! The convolution stem of the audio encoder: lengths, chunks and layouts.

use crate::prompt::{audio_token_count, halved};
use crate::tensor::{
    append_range, at, at4, flat, index4, lemma_at, lemma_at4, lemma_place, lemma_place4,
    lemma_row_within,
};
use vstd::prelude::*;

verus! {

/// The length after one convolution with kernel three, stride two and padding one.
pub fn conv_output_len(len: usize) -> (r: usize)
    requires
        len > 0,
    ensures
        r == halved(len as int),
        0 < r <= len,
        2 * r - 2 < len <= 2 * r,
{
    (len - 1) / 2 + 1
}

/// The length after the three convolutions of the stem.
pub open spec fn stem_len(frames: int) -> int {
    halved(halved(halved(frames)))
}

/// The number of tokens that the stem makes of a window of frames.
pub fn conv_stem_output_len(ifr: usize) -> (r: usize)
    requires
        ifr > 0,
    ensures
        r == stem_len(ifr as int),
        0 < r <= ifr,
        8 * r - 8 < ifr <= 8 * r,
{
    conv_output_len(conv_output_len(conv_output_len(ifr)))
}

/// The number of chunks of `size` frames that `frames` frames take.
pub open spec fn chunk_count(frames: int, size: int) -> int {
    if frames % size > 0 {
        frames / size + 1
    } else {
        frames / size
    }
}

/// The number of tokens that each chunk contributes: that of a full chunk, and for
/// a last chunk that is not full that of its frames.
pub open spec fn tokens_per_chunk(frames: int, size: int) -> Seq<int> {
    Seq::new(
        chunk_count(frames, size) as nat,
        |i: int|
            if i < frames / size {
                stem_len(size)
            } else {
                stem_len(frames % size)
            },
    )
}

/// The number of tokens that each chunk of frames contributes.
pub fn chunk_tokens(frames: usize, size: usize) -> (tokens: Vec<usize>)
    requires
        size > 0,
    ensures
        tokens@.len() == chunk_count(frames as int, size as int),
        tokens@.map_values(|t: usize| t as int) == tokens_per_chunk(frames as int, size as int),
        forall|i: int| 0 <= i < tokens@.len() ==> #[trigger] tokens@[i] <= stem_len(size as int),
{
    let full: usize = frames / size;
    let tail: usize = frames % size;
    let per_chunk: usize = conv_stem_output_len(size);
    let mut tokens: Vec<usize> = Vec::new();
    for i in 0..full
        invariant
            tokens@.len() == i,
            forall|k: int| 0 <= k < i ==> #[trigger] tokens@[k] == per_chunk,
    {
        tokens.push(per_chunk);
    }
    if tail > 0 {
        tokens.push(conv_stem_output_len(tail));
        proof {
            lemma_stem_monotone(tail as int, size as int);
        }
    }
    assert(tokens@.map_values(|t: usize| t as int) =~= tokens_per_chunk(
        frames as int,
        size as int,
    ));
    tokens
}

proof fn lemma_stem_monotone(a: int, b: int)
    requires
        0 <= a <= b,
    ensures
        stem_len(a) <= stem_len(b),
{
}

/// The sum of a list of numbers.
pub open spec fn sum(s: Seq<int>) -> int
    decreases s.len(),
{
    if s.len() == 0 {
        0
    } else {
        sum(s.drop_last()) + s.last()
    }
}

proof fn lemma_sum_of_copies(s: Seq<int>, value: int)
    requires
        forall|i: int| 0 <= i < s.len() ==> #[trigger] s[i] == value,
    ensures
        sum(s) == s.len() * value,
    decreases s.len(),
{
    if s.len() > 0 {
        let rest = s.drop_last();
        assert forall|i: int| 0 <= i < rest.len() implies #[trigger] rest[i] == value by {
            assert(rest[i] == s[i]);
        }
        lemma_sum_of_copies(rest, value);
        assert(s[s.len() - 1] == value);
        assert((s.len() - 1) * value + value == s.len() * value) by (nonlinear_arith);
    } else {
        assert(0 * value == 0);
    }
}

/// With chunks of a hundred frames, the stem makes as many tokens of the frames as
/// the aligner input has places for them.
pub proof fn lemma_token_counts_agree(frames: int)
    requires
        frames >= 0,
    ensures
        sum(tokens_per_chunk(frames, 100)) == audio_token_count(frames),
{
    let tokens = tokens_per_chunk(frames, 100);
    let full = frames / 100;
    let tail = frames % 100;
    assert(stem_len(100) == 13);
    assert(stem_len(0) == 0);
    if tail > 0 {
        let rest = tokens.drop_last();
        assert forall|i: int| 0 <= i < rest.len() implies #[trigger] rest[i] == 13 by {
            assert(rest[i] == tokens[i]);
        }
        lemma_sum_of_copies(rest, 13);
        assert(tokens.last() == stem_len(tail));
    } else {
        lemma_sum_of_copies(tokens, 13);
    }
}

/// The sum of a list of counts, where it fits.
pub fn sum_counts(counts: &[usize]) -> (r: Option<usize>)
    ensures
        match r {
            Some(n) => n == sum(counts@.map_values(|t: usize| t as int)),
            None => sum(counts@.map_values(|t: usize| t as int)) > usize::MAX,
        },
{
    let ghost all = counts@.map_values(|t: usize| t as int);
    let mut n: usize = 0;
    assert(all.take(0) =~= Seq::empty());
    for i in 0..counts.len()
        invariant
            all == counts@.map_values(|t: usize| t as int),
            n == sum(all.take(i as int)),
    {
        proof {
            let longer = all.take(i + 1);
            assert(longer.drop_last() =~= all.take(i as int));
            assert(longer.last() == counts@[i as int]);
        }
        match n.checked_add(counts[i]) {
            Some(m) => {
                n = m;
            },
            None => {
                proof {
                    lemma_sum_grows(counts@, i + 1);
                }
                return None;
            },
        }
    }
    assert(all.take(counts@.len() as int) =~= all);
    Some(n)
}

proof fn lemma_sum_grows(counts: Seq<usize>, i: int)
    requires
        0 <= i <= counts.len(),
    ensures
        sum(counts.map_values(|t: usize| t as int).take(i)) <= sum(
            counts.map_values(|t: usize| t as int),
        ),
    decreases counts.len() - i,
{
    let all = counts.map_values(|t: usize| t as int);
    if i < counts.len() {
        lemma_sum_grows(counts, i + 1);
        let longer = all.take(i + 1);
        assert(longer.drop_last() =~= all.take(i));
    } else {
        assert(all.take(i) =~= all);
    }
}

/// One element of the chunked features: chunks of `size` frames, one after the
/// other, each with all its bins; the last one is filled up with `zero`.
pub open spec fn chunked<T>(
    values: Seq<T>,
    bins: int,
    frames: int,
    size: int,
    zero: T,
    k: int,
) -> T {
    let t = k % size;
    let bin = (k / size) % bins;
    let chunk = (k / size) / bins;
    if chunk * size + t < frames {
        values[at(frames, bin, chunk * size + t)]
    } else {
        zero
    }
}

/// Cuts features of `bins` rows of `frames` frames into chunks of `size` frames.
pub fn pack_chunks<T: Copy>(
    values: &[T],
    bins: usize,
    frames: usize,
    size: usize,
    chunks: usize,
    zero: T,
) -> (out: Vec<T>)
    requires
        size > 0,
        values@.len() == bins * frames,
        chunks == chunk_count(frames as int, size as int),
        chunks * bins * size <= usize::MAX,
    ensures
        out@.len() == chunks * bins * size,
        forall|k: int|
            0 <= k < out@.len() ==> #[trigger] out@[k] == chunked(
                values@,
                bins as int,
                frames as int,
                size as int,
                zero,
                k,
            ),
{
    proof {
        assert(chunks * bins <= chunks * bins * size) by (nonlinear_arith)
            requires
                chunks >= 0,
                bins >= 0,
                size >= 1,
        {
            assert(chunks * bins >= 0);
        }
        assert(chunks * bins >= 0) by (nonlinear_arith);
    }
    let total: usize = (chunks * bins) * size;
    let limit: usize = values.len();
    let mut out: Vec<T> = Vec::with_capacity(total);
    for k in 0..total
        invariant
            size > 0,
            limit == values@.len() == bins * frames,
            total == chunks * bins * size,
            chunks == chunk_count(frames as int, size as int),
            out@.len() == k,
            forall|j: int|
                0 <= j < k ==> #[trigger] out@[j] == chunked(
                    values@,
                    bins as int,
                    frames as int,
                    size as int,
                    zero,
                    j,
                ),
    {
        proof {
            assert(chunks * bins >= 0) by (nonlinear_arith);
            lemma_place(chunks * bins, size as int, k as int);
            lemma_place(chunks as int, bins as int, (k / size) as int);
        }
        let t: usize = k % size;
        let bin: usize = (k / size) % bins;
        let chunk: usize = (k / size) / bins;
        // The first frame of the chunk lies within the frames.
        proof {
            assert(chunk * size < frames) by {
                vstd::arithmetic::div_mod::lemma_fundamental_div_mod(frames as int, size as int);
                let full = frames as int / size as int;
                assert(size * full == full * size) by (nonlinear_arith);
                assert(chunk * size <= full * size) by (nonlinear_arith)
                    requires
                        chunk <= full,
                        size > 0,
                ;
                if frames as int % size as int == 0 {
                    assert(chunk * size <= (full - 1) * size) by (nonlinear_arith)
                        requires
                            chunk <= full - 1,
                            size > 0,
                    ;
                    assert((full - 1) * size == full * size - size) by (nonlinear_arith);
                }
            }
        }
        let first: usize = flat(size, chunk, 0, Ghost(frames as int));
        let value: T = if t < frames - first {
            proof {
                lemma_at(bins as int, frames as int, bin as int, first + t);
            }
            values[flat(frames, bin, first + t, Ghost(limit as int))]
        } else {
            zero
        };
        out.push(value);
    }
    out
}

/// An element of a batch of images, or `zero` outside the image.
pub open spec fn padded<T>(
    x: Seq<T>,
    channels: int,
    height: int,
    width: int,
    zero: T,
    image: int,
    channel: int,
    row: int,
    col: int,
) -> T {
    if 0 <= row < height && 0 <= col < width {
        x[at4(channels, height, width, image, channel, row, col)]
    } else {
        zero
    }
}

/// One element of the matrix of receptive fields: a row for every output, and in it
/// the three rows of three elements of every channel.
pub open spec fn receptive_field<T>(
    x: Seq<T>,
    channels: int,
    height: int,
    width: int,
    zero: T,
    k: int,
) -> T {
    let i = index4(halved(height), halved(width), channels * 9, k);
    let channel = i.3 / 9;
    let kh = (i.3 % 9) / 3;
    let kw = i.3 % 3;
    padded(
        x,
        channels,
        height,
        width,
        zero,
        i.0,
        channel,
        2 * i.1 + kh - 1,
        2 * i.2 + kw - 1,
    )
}

/// Collects the receptive fields of a convolution with kernel three, stride two and
/// padding one.
pub fn im2col<T: Copy>(
    x: &[T],
    images: usize,
    channels: usize,
    height: usize,
    width: usize,
    zero: T,
) -> (out: Vec<T>)
    requires
        height > 0,
        width > 0,
        height < usize::MAX,
        width < usize::MAX,
        x@.len() == images * channels * height * width,
        channels * 9 <= usize::MAX,
        images * halved(height as int) <= usize::MAX,
        images * halved(height as int) * halved(width as int) <= usize::MAX,
        images * halved(height as int) * halved(width as int) * (channels * 9) <= usize::MAX,
    ensures
        out@.len() == images * halved(height as int) * halved(width as int) * (channels * 9),
        forall|k: int|
            0 <= k < out@.len() ==> #[trigger] out@[k] == receptive_field(
                x@,
                channels as int,
                height as int,
                width as int,
                zero,
                k,
            ),
{
    let rows: usize = conv_output_len(height);
    let cols: usize = conv_output_len(width);
    let field: usize = channels * 9;
    let total: usize = images * rows * cols * field;
    let limit: usize = x.len();
    let mut out: Vec<T> = Vec::with_capacity(total);
    for k in 0..total
        invariant
            0 < height < usize::MAX,
            0 < width < usize::MAX,
            rows == halved(height as int),
            cols == halved(width as int),
            field == channels * 9,
            total == images * rows * cols * field,
            limit == x@.len() == images * channels * height * width,
            out@.len() == k,
            forall|j: int|
                0 <= j < k ==> #[trigger] out@[j] == receptive_field(
                    x@,
                    channels as int,
                    height as int,
                    width as int,
                    zero,
                    j,
                ),
    {
        proof {
            lemma_place4(images as int, rows as int, cols as int, field as int, k as int);
        }
        let place: usize = k % field;
        let output: usize = k / field;
        let col: usize = output % cols;
        let row: usize = (output / cols) % rows;
        let image: usize = (output / cols) / rows;
        let channel: usize = place / 9;
        let kh: usize = (place % 9) / 3;
        let kw: usize = place % 3;
        // One more than the place in the image, so that padding is zero.
        let row_in: usize = 2 * row + kh;
        let col_in: usize = 2 * col + kw;
        let value: T = if row_in > 0 && row_in - 1 < height && col_in > 0 && col_in - 1 < width {
            proof {
                lemma_at4(
                    images as int,
                    channels as int,
                    height as int,
                    width as int,
                    (image as int, channel as int, row_in - 1, col_in - 1),
                );
            }
            let a: usize = flat(channels, image, channel, Ghost(limit as int));
            let b: usize = flat(height, a, row_in - 1, Ghost(limit as int));
            x[flat(width, b, col_in - 1, Ghost(limit as int))]
        } else {
            zero
        };
        out.push(value);
    }
    out
}

/// The matrix of receptive fields holds, in the row of an output and the column of a
/// channel and a kernel element, the input that the kernel element meets there.
pub proof fn lemma_receptive_field_at<T>(
    x: Seq<T>,
    images: int,
    channels: int,
    height: int,
    width: int,
    zero: T,
    output: (int, int, int),
    channel: int,
    kh: int,
    kw: int,
)
    requires
        height > 0,
        width > 0,
        0 <= output.0 < images,
        0 <= output.1 < halved(height),
        0 <= output.2 < halved(width),
        0 <= channel < channels,
        0 <= kh < 3,
        0 <= kw < 3,
    ensures
        receptive_field(
            x,
            channels,
            height,
            width,
            zero,
            at4(
                halved(height),
                halved(width),
                channels * 9,
                output.0,
                output.1,
                output.2,
                channel * 9 + kh * 3 + kw,
            ),
        ) == padded(
            x,
            channels,
            height,
            width,
            zero,
            output.0,
            channel,
            2 * output.1 + kh - 1,
            2 * output.2 + kw - 1,
        ),
{
    let place = channel * 9 + kh * 3 + kw;
    lemma_at4(
        images,
        halved(height),
        halved(width),
        channels * 9,
        (output.0, output.1, output.2, place),
    );
    assert(place / 9 == channel);
    assert((place % 9) / 3 == kh);
    assert(place % 3 == kw);
}

/// Brings the rows of one channel each into the order of images: from a row for
/// every channel and in it all outputs of all images, to a block for every image.
pub open spec fn by_image<T>(
    x: Seq<T>,
    images: int,
    channels: int,
    height: int,
    width: int,
    k: int,
) -> T {
    let i = index4(channels, height, width, k);
    x[at(images * height * width, i.1, at(width, at(height, i.0, i.2), i.3))]
}

/// Brings convolution results, a row for every channel, into the order of images.
pub fn channels_to_images<T: Copy>(
    x: &[T],
    images: usize,
    channels: usize,
    height: usize,
    width: usize,
) -> (out: Vec<T>)
    requires
        x@.len() == images * channels * height * width,
    ensures
        out@.len() == x@.len(),
        forall|k: int|
            0 <= k < out@.len() ==> #[trigger] out@[k] == by_image(
                x@,
                images as int,
                channels as int,
                height as int,
                width as int,
                k,
            ),
{
    let total: usize = x.len();
    let mut out: Vec<T> = Vec::with_capacity(total);
    for k in 0..total
        invariant
            total == x@.len() == images * channels * height * width,
            out@.len() == k,
            forall|j: int|
                0 <= j < k ==> #[trigger] out@[j] == by_image(
                    x@,
                    images as int,
                    channels as int,
                    height as int,
                    width as int,
                    j,
                ),
    {
        let ghost (m, c, h, w) = (images as int, channels as int, height as int, width as int);
        let ghost i = index4(c, h, w, k as int);
        proof {
            lemma_place4(m, c, h, w, k as int);
        }
        let col: usize = k % width;
        let row: usize = (k / width) % height;
        let channel: usize = ((k / width) / height) % channels;
        let image: usize = ((k / width) / height) / channels;
        proof {
            lemma_at(m, h, i.0, i.2);
            lemma_at(m * h, w, at(h, i.0, i.2), i.3);
            let r = at(w, at(h, i.0, i.2), i.3);
            lemma_at(c, m * h * w, i.1, r);
            assert(c * (m * h * w) == m * c * h * w) by (nonlinear_arith);
            lemma_row_within(c, m * h * w, i.1);
            assert(m * h <= m * h * w && m * h * w <= c * (m * h * w)) by (nonlinear_arith)
                requires
                    m >= 0,
                    h >= 0,
                    w >= 1,
                    c >= 1,
            {
                assert(m * h >= 0);
                assert(m * h * w >= m * h);
            }
        }
        let a: usize = flat(height, image, row, Ghost(total as int));
        let r: usize = flat(width, a, col, Ghost(total as int));
        let per_channel: usize = images * height * width;
        out.push(x[flat(per_channel, channel, r, Ghost(total as int))]);
    }
    out
}

/// Brings the outputs of the stem, images of channels, rows and columns, into rows:
/// one for every image and column, and in it all rows of all channels.
pub open spec fn by_column<T>(x: Seq<T>, channels: int, height: int, width: int, k: int) -> T {
    let i = index4(width, channels, height, k);
    x[at4(channels, height, width, i.0, i.2, i.3, i.1)]
}

/// Brings the outputs of the stem into rows, one for every image and column.
pub fn stem_rows<T: Copy>(
    x: &[T],
    images: usize,
    channels: usize,
    height: usize,
    width: usize,
) -> (out: Vec<T>)
    requires
        x@.len() == images * channels * height * width,
    ensures
        out@.len() == x@.len(),
        forall|k: int|
            0 <= k < out@.len() ==> #[trigger] out@[k] == by_column(
                x@,
                channels as int,
                height as int,
                width as int,
                k,
            ),
{
    let total: usize = x.len();
    let mut out: Vec<T> = Vec::with_capacity(total);
    let ghost (m, c, h, w) = (images as int, channels as int, height as int, width as int);
    assert(m * c * h * w == m * w * c * h) by (nonlinear_arith);
    for k in 0..total
        invariant
            m == images,
            c == channels,
            h == height,
            w == width,
            total == x@.len() == m * c * h * w,
            total == m * w * c * h,
            out@.len() == k,
            forall|j: int|
                0 <= j < k ==> #[trigger] out@[j] == by_column(
                    x@,
                    channels as int,
                    height as int,
                    width as int,
                    j,
                ),
    {
        let ghost i = index4(w, c, h, k as int);
        proof {
            lemma_place4(m, w, c, h, k as int);
            lemma_at4(m, c, h, w, (i.0, i.2, i.3, i.1));
        }
        let row: usize = k % height;
        let channel: usize = (k / height) % channels;
        let col: usize = ((k / height) / channels) % width;
        let image: usize = ((k / height) / channels) / width;
        let a: usize = flat(channels, image, channel, Ghost(total as int));
        let b: usize = flat(height, a, row, Ghost(total as int));
        out.push(x[flat(width, b, col, Ghost(total as int))]);
    }
    out
}

/// The valid rows of chunks of `rows` rows each: of every chunk the first so many
/// rows as `counts` says.
pub open spec fn valid_rows<T>(
    x: Seq<T>,
    rows: int,
    cols: int,
    counts: Seq<usize>,
) -> Seq<T>
    decreases counts.len(),
{
    if counts.len() == 0 {
        Seq::empty()
    } else {
        let i = counts.len() - 1;
        let base = i * rows * cols;
        valid_rows(x, rows, cols, counts.drop_last()) + x.subrange(
            base,
            base + counts.last() * cols,
        )
    }
}

/// Collects the valid rows of every chunk.
pub fn pack_valid_rows<T: Copy>(
    x: &[T],
    rows: usize,
    cols: usize,
    counts: &[usize],
) -> (out: Vec<T>)
    requires
        x@.len() >= counts@.len() * rows * cols,
        forall|i: int| 0 <= i < counts@.len() ==> #[trigger] counts@[i] <= rows,
    ensures
        out@ == valid_rows(x@, rows as int, cols as int, counts@),
{
    let n: usize = counts.len();
    let limit: usize = x.len();
    let mut out: Vec<T> = Vec::new();
    assert(counts@.take(0) =~= Seq::empty());
    for i in 0..n
        invariant
            n == counts@.len(),
            limit == x@.len(),
            limit >= n * rows * cols,
            forall|k: int| 0 <= k < n ==> #[trigger] counts@[k] <= rows,
            out@ == valid_rows(x@, rows as int, cols as int, counts@.take(i as int)),
    {
        let count: usize = counts[i];
        proof {
            let longer = counts@.take(i + 1);
            assert(longer.drop_last() =~= counts@.take(i as int));
            assert(longer.last() == count);
            let (r, c, m) = (rows as int, cols as int, n as int);
            let j = i as int;
            assert(j * r >= 0 && j * r * c >= 0) by (nonlinear_arith)
                requires
                    j >= 0,
                    r >= 0,
                    c >= 0,
            {
                assert(j * r >= 0);
            }
            assert(count * c >= 0) by (nonlinear_arith)
                requires
                    count >= 0,
                    c >= 0,
            ;
            assert(j * r * c + count * c <= m * r * c) by (nonlinear_arith)
                requires
                    0 <= j < m,
                    0 <= count <= r,
                    c >= 0,
            {
                assert(count * c <= r * c);
                assert((j + 1) * r <= m * r);
                assert((j + 1) * r == j * r + r);
                assert((j * r + r) * c == j * r * c + r * c);
                assert((j * r + r) * c <= (m * r) * c);
            }
            if c > 0 {
                assert(j * r <= j * r * c) by (nonlinear_arith)
                    requires
                        j * r >= 0,
                        c >= 1,
                ;
            }
        }
        if cols > 0 {
            let base: usize = i * rows * cols;
            let len: usize = count * cols;
            append_range(&mut out, x, base, base + len);
        } else {
            proof {
                assert(i * rows * cols == 0 && count * cols == 0) by (nonlinear_arith)
                    requires
                        cols == 0,
                ;
                assert(x@.subrange(0, 0) =~= Seq::empty());
                assert(out@ + Seq::<T>::empty() =~= out@);
            }
        }
    }
    assert(counts@.take(n as int) =~= counts@);
    out
}

/// The greatest number of chunks that the convolutions take at a time.
pub const CONV_BATCH_SIZE: usize = 64;

/// Cuts chunks into batches: ranges that follow one another from the first chunk to
/// the last, none of them empty and none longer than a batch, all but the last as long
/// as a batch.
pub fn conv_batches(chunks: usize) -> (out: Vec<(usize, usize)>)
    ensures
        out@.len() == (chunks + 63) / 64,
        forall|i: int|
            0 <= i < out@.len() ==> (#[trigger] out@[i]).0 == 64 * i && out@[i].1 == (if 64 * i + 64
                <= chunks {
                64 * i + 64
            } else {
                chunks as int
            }),
{
    let mut out: Vec<(usize, usize)> = Vec::new();
    let mut start: usize = 0;
    while start < chunks
        invariant
            start <= chunks,
            start == 64 * out@.len() || start == chunks,
            out@.len() == (start + 63) / 64,
            forall|i: int|
                0 <= i < out@.len() ==> (#[trigger] out@[i]).0 == 64 * i && out@[i].1 == (if 64 * i
                    + 64 <= chunks {
                    64 * i + 64
                } else {
                    chunks as int
                }),
        decreases chunks - start,
    {
        let end: usize = if chunks - start > CONV_BATCH_SIZE {
            start + CONV_BATCH_SIZE
        } else {
            chunks
        };
        out.push((start, end));
        start = end;
    }
    out
}

/// The stem makes no more tokens than there are frames.
pub proof fn lemma_tokens_within_frames(frames: int, size: int)
    requires
        frames >= 0,
        size > 0,
    ensures
        0 <= sum(tokens_per_chunk(frames, size)) <= frames,
{
    let tokens = tokens_per_chunk(frames, size);
    let full = frames / size;
    let tail = frames % size;
    let per_chunk = stem_len(size);
    vstd::arithmetic::div_mod::lemma_fundamental_div_mod(frames, size);
    assert(full >= 0) by (nonlinear_arith)
        requires
            frames >= 0,
            size > 0,
            frames == size * full + tail,
            0 <= tail < size,
    ;
    assert(0 <= full * per_chunk <= size * full) by (nonlinear_arith)
        requires
            full >= 0,
            0 <= per_chunk <= size,
    ;
    if tail > 0 {
        let rest = tokens.drop_last();
        assert forall|i: int| 0 <= i < rest.len() implies #[trigger] rest[i] == per_chunk by {
            assert(rest[i] == tokens[i]);
        }
        lemma_sum_of_copies(rest, per_chunk);
        assert(tokens.last() == stem_len(tail));
    } else {
        lemma_sum_of_copies(tokens, per_chunk);
    }
}

/// A chunk holds, for every bin, the frames that it covers, and zero behind the last one.
pub proof fn lemma_chunked_at<T>(
    values: Seq<T>,
    chunks: int,
    bins: int,
    frames: int,
    size: int,
    zero: T,
    chunk: int,
    bin: int,
    t: int,
)
    requires
        0 <= chunk < chunks,
        0 <= bin < bins,
        0 <= t < size,
    ensures
        chunked(values, bins, frames, size, zero, (chunk * bins + bin) * size + t) == if chunk * size
            + t < frames {
            values[bin * frames + (chunk * size + t)]
        } else {
            zero
        },
{
    lemma_at(chunks, bins, chunk, bin);
    lemma_at(chunks * bins, size, at(bins, chunk, bin), t);
}

/// There are as many chunks as hold all frames, and none is empty.
pub proof fn lemma_chunks_hold_frames(frames: int, size: int)
    requires
        frames >= 0,
        size > 0,
    ensures
        (chunk_count(frames, size) - 1) * size < frames <= chunk_count(frames, size) * size,
        frames == 0 ==> chunk_count(frames, size) == 0,
{
    vstd::arithmetic::div_mod::lemma_fundamental_div_mod(frames, size);
    let q = frames / size;
    assert(size * q == q * size && (q + 1) * size == q * size + size && (q - 1) * size == q * size
        - size) by (nonlinear_arith);
    if frames == 0 {
        assert(q == 0) by (nonlinear_arith)
            requires
                0 == size * q + frames % size,
                0 <= frames % size < size,
        ;
    }
}

/// In the order of images, an output of a channel stands in the block of its image, in the
/// plane of its channel.
pub proof fn lemma_by_image_at<T>(
    x: Seq<T>,
    images: int,
    channels: int,
    height: int,
    width: int,
    image: int,
    channel: int,
    row: int,
    col: int,
)
    requires
        0 <= image < images,
        0 <= channel < channels,
        0 <= row < height,
        0 <= col < width,
    ensures
        by_image(
            x,
            images,
            channels,
            height,
            width,
            ((image * channels + channel) * height + row) * width + col,
        ) == x[channel * (images * height * width) + ((image * height + row) * width + col)],
{
    lemma_at4(images, channels, height, width, (image, channel, row, col));
}

/// In the rows of the stem, every image and column has one, and in it the rows of every
/// channel in turn.
pub proof fn lemma_by_column_at<T>(
    x: Seq<T>,
    images: int,
    channels: int,
    height: int,
    width: int,
    image: int,
    channel: int,
    row: int,
    col: int,
)
    requires
        0 <= image < images,
        0 <= channel < channels,
        0 <= row < height,
        0 <= col < width,
    ensures
        by_column(
            x,
            channels,
            height,
            width,
            ((image * width + col) * channels + channel) * height + row,
        ) == x[((image * channels + channel) * height + row) * width + col],
{
    lemma_at4(images, width, channels, height, (image, col, channel, row));
}

/// A kernel element outside an image meets zero, and one inside it the element there.
pub proof fn lemma_kernel_meets<T>(
    x: Seq<T>,
    images: int,
    channels: int,
    height: int,
    width: int,
    zero: T,
    output: (int, int, int),
    channel: int,
    kh: int,
    kw: int,
)
    requires
        height > 0,
        width > 0,
        0 <= output.0 < images,
        0 <= output.1 < (height + 1) / 2,
        0 <= output.2 < (width + 1) / 2,
        0 <= channel < channels,
        0 <= kh < 3,
        0 <= kw < 3,
    ensures
        ({
            let k = ((output.0 * ((height + 1) / 2) + output.1) * ((width + 1) / 2) + output.2) * (
            channels * 9) + (channel * 9 + kh * 3 + kw);
            let (row, col) = (2 * output.1 + kh - 1, 2 * output.2 + kw - 1);
            receptive_field(x, channels, height, width, zero, k) == if 0 <= row < height && 0 <= col
                < width {
                x[((output.0 * channels + channel) * height + row) * width + col]
            } else {
                zero
            }
        }),
{
    assert(halved(height) == (height + 1) / 2 && halved(width) == (width + 1) / 2);
    lemma_receptive_field_at(
        x,
        images,
        channels,
        height,
        width,
        zero,
        output,
        channel,
        kh,
        kw,
    );
}

/// The sum of counts.
spec fn count_sum(counts: Seq<usize>) -> int {
    counts.fold_left(0int, |sum: int, count: usize| sum + count)
}

/// The valid rows of a chunk stand behind those of the chunks before it, as many of its
/// first rows as are valid, and nothing stands between or after them.
pub proof fn lemma_valid_rows_at<T>(
    x: Seq<T>,
    rows: int,
    cols: int,
    counts: Seq<usize>,
    i: int,
    r: int,
    c: int,
)
    requires
        x.len() >= counts.len() * rows * cols,
        rows >= 0,
        forall|j: int| 0 <= j < counts.len() ==> #[trigger] counts[j] <= rows,
        0 <= i < counts.len(),
        0 <= r < counts[i],
        0 <= c < cols,
    ensures
        valid_rows(x, rows, cols, counts).len() == counts.fold_left(
            0int,
            |sum: int, count: usize| sum + count,
        ) * cols,
        valid_rows(x, rows, cols, counts)[(counts.take(i).fold_left(
            0int,
            |sum: int, count: usize| sum + count,
        ) + r) * cols + c] == x[(i * rows + r) * cols + c],
{
    lemma_valid_row_at(x, rows, cols, counts, i, r, c);
}

proof fn lemma_valid_rows_len<T>(x: Seq<T>, rows: int, cols: int, counts: Seq<usize>)
    requires
        x.len() >= counts.len() * rows * cols,
        rows >= 0,
        cols >= 0,
        forall|j: int| 0 <= j < counts.len() ==> #[trigger] counts[j] <= rows,
    ensures
        valid_rows(x, rows, cols, counts).len() == count_sum(counts) * cols,
        count_sum(counts) >= 0,
    decreases counts.len(),
{
    reveal_with_fuel(Seq::fold_left, 2);
    if counts.len() > 0 {
        let fewer = counts.drop_last();
        let n = counts.len() - 1;
        let last = counts.last();
        assert(last == counts[n]);
        lemma_chunk_within(n, rows, cols, last as int);
        assert(fewer.len() * rows * cols <= x.len());
        assert forall|j: int| 0 <= j < fewer.len() implies #[trigger] fewer[j] <= rows by {
            assert(fewer[j] == counts[j]);
        }
        lemma_valid_rows_len(x, rows, cols, fewer);
        assert(count_sum(counts) == count_sum(fewer) + last);
        assert((count_sum(fewer) + last) * cols == count_sum(fewer) * cols + last * cols)
            by (nonlinear_arith);
    } else {
        assert(count_sum(counts) == 0);
        assert(0 * cols == 0);
    }
}

/// The valid rows of chunk `n` lie within it.
proof fn lemma_chunk_within(n: int, rows: int, cols: int, count: int)
    requires
        n >= 0,
        rows >= 0,
        cols >= 0,
        0 <= count <= rows,
    ensures
        0 <= n * rows * cols,
        0 <= count * cols,
        n * rows * cols + count * cols <= (n + 1) * rows * cols,
{
    assert(0 <= n * rows * cols && 0 <= count * cols && n * rows * cols + count * cols <= (n + 1)
        * rows * cols) by (nonlinear_arith)
        requires
            n >= 0,
            rows >= 0,
            cols >= 0,
            0 <= count <= rows,
    {
        assert(n * rows >= 0);
        assert((n * rows) * cols >= 0);
        assert((n + 1) * rows == n * rows + rows);
        assert((n * rows + rows) * cols == (n * rows) * cols + rows * cols);
        assert(count * cols <= rows * cols);
    }
}

proof fn lemma_valid_row_at<T>(
    x: Seq<T>,
    rows: int,
    cols: int,
    counts: Seq<usize>,
    i: int,
    r: int,
    c: int,
)
    requires
        x.len() >= counts.len() * rows * cols,
        rows >= 0,
        forall|j: int| 0 <= j < counts.len() ==> #[trigger] counts[j] <= rows,
        0 <= i < counts.len(),
        0 <= r < counts[i],
        0 <= c < cols,
    ensures
        valid_rows(x, rows, cols, counts).len() == count_sum(counts) * cols,
        valid_rows(x, rows, cols, counts)[(count_sum(counts.take(i)) + r) * cols + c] == x[(i * rows
            + r) * cols + c],
    decreases counts.len(),
{
    reveal_with_fuel(Seq::fold_left, 2);
    let fewer = counts.drop_last();
    let n = counts.len() - 1;
    let last = counts.last();
    assert(last == counts[n]);
    lemma_chunk_within(n, rows, cols, last as int);
    assert forall|j: int| 0 <= j < fewer.len() implies #[trigger] fewer[j] <= rows by {
        assert(fewer[j] == counts[j]);
    }
    lemma_valid_rows_len(x, rows, cols, counts);
    lemma_valid_rows_len(x, rows, cols, fewer);
    let before = valid_rows(x, rows, cols, fewer);
    let base = n * rows * cols;
    let s = count_sum(counts.take(i));
    let place = (s + r) * cols + c;
    if i < n {
        lemma_valid_row_at(x, rows, cols, fewer, i, r, c);
        assert(fewer.take(i) =~= counts.take(i));
        assert(counts[i] == fewer[i]);
        // The place lies among the rows before.
        let upto = counts.take(i + 1);
        assert(upto.drop_last() =~= counts.take(i));
        assert(upto.last() == counts[i]);
        assert(count_sum(upto) == s + counts[i]);
        lemma_sum_of_more(fewer, i + 1);
        assert(fewer.take(i + 1) =~= upto);
        lemma_sum_of_more(fewer, i);
        assert(0 <= place < count_sum(fewer) * cols) by (nonlinear_arith)
            requires
                place == (s + r) * cols + c,
                0 <= s,
                0 <= r,
                s + r + 1 <= count_sum(fewer),
                0 <= c < cols,
        {
            assert((s + r) * cols >= 0);
            assert((s + r + 1) * cols <= count_sum(fewer) * cols);
            assert((s + r + 1) * cols == (s + r) * cols + cols);
        }
    } else {
        assert(counts.take(i) =~= fewer);
        let own = r * cols + c;
        assert(place == count_sum(fewer) * cols + own) by (nonlinear_arith)
            requires
                place == (s + r) * cols + c,
                s == count_sum(fewer),
                own == r * cols + c,
        ;
        assert(0 <= own < last * cols) by (nonlinear_arith)
            requires
                own == r * cols + c,
                0 <= r < last,
                0 <= c < cols,
        {
            assert((r + 1) * cols <= last * cols);
            assert((r + 1) * cols == r * cols + cols);
        }
        assert((i * rows + r) * cols + c == base + own) by (nonlinear_arith)
            requires
                base == n * rows * cols,
                own == r * cols + c,
                i == n,
        ;
        assert(valid_rows(x, rows, cols, counts)[before.len() + own] == x.subrange(
            base,
            base + last * cols,
        )[own]);
    }
}

proof fn lemma_sum_of_more(counts: Seq<usize>, i: int)
    requires
        0 <= i <= counts.len(),
    ensures
        0 <= count_sum(counts.take(i)) <= count_sum(counts),
    decreases counts.len(),
{
    reveal_with_fuel(Seq::fold_left, 2);
    if i < counts.len() {
        let fewer = counts.drop_last();
        lemma_sum_of_more(fewer, i);
        assert(fewer.take(i) =~= counts.take(i));
    } else {
        assert(counts.take(i) =~= counts);
        if counts.len() > 0 {
            let fewer = counts.drop_last();
            lemma_sum_of_more(fewer, fewer.len() as int);
            assert(fewer.take(fewer.len() as int) =~= fewer);
        }
    }
}

/// Of the frames that a chunk holds, every eight become one token, and fewer that are left
/// become one too.
pub proof fn lemma_chunk_token_for_eight(frames: int, size: int, i: int)
    requires
        frames >= 0,
        size > 0,
        0 <= i < tokens_per_chunk(frames, size).len(),
    ensures
        tokens_per_chunk(frames, size).len() == chunk_count(frames, size),
        ({
            let held = if (i + 1) * size <= frames {
                size
            } else {
                frames - i * size
            };
            let tokens = tokens_per_chunk(frames, size)[i];
            0 < held && 8 * tokens - 8 < held <= 8 * tokens
        }),
{
    vstd::arithmetic::div_mod::lemma_fundamental_div_mod(frames, size);
    let q = frames / size;
    assert(size * q == q * size) by (nonlinear_arith);
    assert((i + 1) * size == i * size + size) by (nonlinear_arith);
    assert(q >= 0) by (nonlinear_arith)
        requires
            frames == size * q + frames % size,
            0 <= frames % size < size,
            frames >= 0,
    ;
    if i < q {
        assert((i + 1) * size <= q * size) by (nonlinear_arith)
            requires
                i + 1 <= q,
                size > 0,
        ;
    } else {
        assert(i == q);
    }
}

} // verus!

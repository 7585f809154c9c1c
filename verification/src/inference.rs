//! The alignment of a text with its audio, step by step.
//!
//! The text becomes words and an aligner input. The frames of the audio say how many
//! places the input has for audio; with these places the input becomes token ids. The
//! audio encoder makes a row for every place, the rows are put into the table of
//! embeddings, and the text decoder makes scores. The best scores at the timestamp
//! tokens are step numbers, which become times.

use crate::backend::DeviceRequest;
use crate::binary32::{
    EIGHTY, best_position, is_first_tied, is_negative, lemma_chosen_score_is_near_greatest,
    lemma_scaled_in_order,
    lemma_scaled_in_range, lemma_scaled_is_end, lemma_steps_of_eighty, position_of_best,
    scale_integer, scaled_integer,
};
use crate::binary64::{
    is_end, lemma_number_has_value, lemma_thousandths_in_order, number, seconds, thousandth,
};
use crate::chars::{copy_text, is_whitespace, texts};
use crate::config::{AlignerConfig, AudioConfig};
use crate::conv::{
    chunk_count, chunk_tokens, lemma_token_counts_agree, lemma_tokens_within_frames, sum,
    sum_counts, tokens_per_chunk,
};
use crate::precision::{lemma_scaled_near, lemma_thousandth_near};
use crate::prompt::{
    PromptError, audio_pad, audio_token_count, expand_audio_pad_once, feature_extract_output_len,
    is_first_occurrence, occurs_at, repeated,
};
use crate::rounding::{at_most, lemma_at_most_same, same};
use crate::tensor::{
    CpuTensor, CpuWeight, as_ints, embed_lookup, gather_rows, places_of, positions_of, rows_of,
    splice_rows, spliced,
};
use crate::text::{
    TextError, TextResources, aligner_input, encode_timestamp, lowercase, splitting_of, words_in,
};
use crate::timestamp::{
    fix_timestamp, is_sorted, lemma_kept_ends_in_order, lemma_small_timestamps,
    lemma_spans_of_close, repaired_sequence, spans_fit,
};
use crate::tokenizer::{
    QwenTokenizer, TokenizerError, encode_to_ids, encoding, has_space_run, settled_ids,
};
use vstd::arithmetic::power2::{lemma2_to64, lemma2_to64_rest, pow2};
use vstd::prelude::*;

verus! {

/// A word and its time in the audio, in seconds, as double-precision bit patterns.
#[derive(Debug, Clone)]
pub struct ForcedAlignItem {
    pub text: String,
    pub start_time: u64,
    pub end_time: u64,
}

/// The outcome of an alignment.
#[derive(Debug, Clone)]
pub struct ForcedAlignResult {
    pub items: Vec<ForcedAlignItem>,
    /// The step numbers, a start and an end for every word.
    pub output_ids: Vec<i64>,
    /// The times of the step numbers in milliseconds.
    pub raw_timestamp_ms: Vec<i64>,
    /// The times after the repair.
    pub fixed_timestamp_ms: Vec<i64>,
}

impl ForcedAlignResult {
    /// The number of words.
    pub fn len(&self) -> (n: usize)
        ensures
            n == self.items@.len(),
    {
        self.items.len()
    }

    /// Whether there are no words.
    pub fn is_empty(&self) -> (r: bool)
        ensures
            r == (self.items@.len() == 0),
    {
        self.items.len() == 0
    }
}

/// How a model is loaded.
#[derive(Debug, Clone, Copy, PartialEq, Eq)]
pub struct ModelOptions {
    pub device: DeviceRequest,
}

impl Default for ModelOptions {
    fn default() -> (r: Self)
        ensures
            r.device == DeviceRequest::Auto,
    {
        ModelOptions { device: DeviceRequest::Auto }
    }
}

/// Why there is no alignment.
#[derive(Debug, Clone)]
pub enum AlignError {
    /// The text could not be split into words.
    Text(TextError),
    /// The aligner input could not be expanded.
    Prompt(PromptError),
    /// The aligner input could not be encoded.
    Tokenizer(TokenizerError),
    /// The audio has another number of tokens than the input has places.
    AudioTokenMismatch { features: usize, placeholders: usize },
    /// There is not a start and an end for every word.
    TimestampMismatch { words: usize, timestamps: usize },
}

/// The row `i` of a matrix of `cols` columns. The last row may be short.
pub open spec fn score_row(values: Seq<u32>, cols: int, i: int) -> Seq<u32> {
    values.subrange(
        i * cols,
        (if (i + 1) * cols <= values.len() {
            (i + 1) * cols
        } else {
            values.len() as int
        }),
    )
}

/// The number of rows of a matrix of `cols` columns, a short last row among them.
pub open spec fn row_count(len: int, cols: int) -> int {
    len / cols + (if len % cols > 0 {
        1int
    } else {
        0
    })
}

/// The place of the best score of every row.
pub open spec fn best_places(values: Seq<u32>, cols: int) -> Seq<i64> {
    Seq::new(
        row_count(values.len() as int, cols) as nat,
        |i: int| position_of_best(score_row(values, cols, i)) as i64,
    )
}

proof fn lemma_best_in_row(row: Seq<u32>)
    ensures
        0 <= position_of_best(row),
        row.len() > 0 ==> position_of_best(row) < row.len(),
{
    if exists|k: int| is_first_tied(row, k) {
        assert(is_first_tied(row, position_of_best(row)));
    }
}

/// Finds the place of the best score of every row.
pub fn argmax_rows(values: &[u32], cols: usize) -> (out: Vec<i64>)
    requires
        cols > 0,
        values@.len() <= i64::MAX,
    ensures
        out@ == best_places(values@, cols as int),
        out@.len() == row_count(values@.len() as int, cols as int),
        forall|i: int| 0 <= i < out@.len() ==> 0 <= #[trigger] out@[i] < cols,
{
    let n: usize = values.len();
    let mut out: Vec<i64> = Vec::new();
    let mut start: usize = 0;
    assert(out@.len() * cols == 0) by (nonlinear_arith)
        requires
            out@.len() == 0,
    ;
    while start < n
        invariant
            cols > 0,
            n == values@.len() <= i64::MAX,
            start <= n,
            start == out@.len() * cols || start == n,
            out@.len() == row_count(start as int, cols as int),
            forall|i: int|
                0 <= i < out@.len() ==> 0 <= #[trigger] out@[i] < cols && out@[i]
                    == position_of_best(score_row(values@, cols as int, i)),
        decreases n - start,
    {
        let end: usize = if n - start > cols {
            start + cols
        } else {
            n
        };
        let ghost i = out@.len() as int;
        proof {
            let c = cols as int;
            let (a, b) = (start as int, end as int);
            assert(b == (if (i + 1) * c <= n {
                (i + 1) * c
            } else {
                n as int
            })) by (nonlinear_arith)
                requires
                    a == i * c,
                    b == (if n - a > c {
                        a + c
                    } else {
                        n as int
                    }),
            ;
            assert(score_row(values@, c, i) == values@.subrange(a, b));
            lemma_best_in_row(values@.subrange(a, b));
            lemma_rows_so_far(i, c, a, b);
        }
        let k: usize = best_position(values, start, end);
        out.push(k as i64);
        start = end;
    }
    assert(out@ =~= best_places(values@, cols as int));
    out
}

proof fn lemma_rows_so_far(i: int, cols: int, start: int, end: int)
    requires
        cols > 0,
        i >= 0,
        start == i * cols,
        start < end <= start + cols,
    ensures
        row_count(end, cols) == i + 1,
        end == start + cols ==> end == (i + 1) * cols,
{
    assert((i + 1) * cols == i * cols + cols) by (nonlinear_arith);
    if end == start + cols {
        vstd::arithmetic::div_mod::lemma_fundamental_div_mod_converse(end, cols, i + 1, 0);
    } else {
        vstd::arithmetic::div_mod::lemma_fundamental_div_mod_converse(end, cols, i, end - start);
    }
}

/// There is a row for every `cols` scores, and one for fewer that are left. In every row
/// that holds a number and no plus infinity, the place that is found holds a number, and no
/// score of the row exceeds it by more than `1/128`, in units of `2^-149`.
pub proof fn lemma_places_hold_best_scores(values: Seq<u32>, cols: int, i: int, j: int)
    requires
        cols > 0,
        values.len() <= i64::MAX,
        0 <= i < best_places(values, cols).len(),
        0 <= j < cols,
        i * cols + j < values.len(),
        crate::binary32::is_finite(values[i * cols + j]),
        forall|k: int|
            i * cols <= k < i * cols + cols && k < values.len() ==> #[trigger] values[k]
                != 0x7f80_0000u32,
    ensures
        (best_places(values, cols).len() - 1) * cols < values.len() <= best_places(
            values,
            cols,
        ).len() * cols,
        ({
            let k = i * cols + best_places(values, cols)[i];
            &&& i * cols <= k < i * cols + cols
            &&& k < values.len()
            &&& crate::binary32::is_finite(values[k])
            &&& 128 * (crate::binary32::number(values[i * cols + j]).n - crate::binary32::number(
                values[k],
            ).n) <= pow2(149)
        }),
{
    let len = values.len() as int;
    let n = row_count(len, cols);
    vstd::arithmetic::div_mod::lemma_fundamental_div_mod(len, cols);
    let q = len / cols;
    assert(cols * q == q * cols) by (nonlinear_arith);
    assert((q + 1) * cols == q * cols + cols) by (nonlinear_arith);
    assert((q - 1) * cols == q * cols - cols) by (nonlinear_arith);
    assert(q >= 0) by (nonlinear_arith)
        requires
            len == cols * q + len % cols,
            0 <= len % cols < cols,
            len >= 0,
            cols > 0,
    ;
    assert((i + 1) * cols == i * cols + cols) by (nonlinear_arith);
    assert(i * cols >= 0) by (nonlinear_arith)
        requires
            i >= 0,
            cols > 0,
    ;
    let row = score_row(values, cols, i);
    assert(row[j] == values[i * cols + j]);
    assert(!row.contains(0x7f80_0000u32)) by {
        if row.contains(0x7f80_0000u32) {
            let x = choose|x: int| 0 <= x < row.len() && row[x] == 0x7f80_0000u32;
            assert(row[x] == values[i * cols + x]);
        }
    }
    lemma_chosen_score_is_near_greatest(row, j);
    let k = position_of_best(row);
    assert(row[k] == values[i * cols + k]);
    assert(k as i64 == k);
}

/// The times of step numbers in milliseconds, for a step in single precision.
pub open spec fn raw_times(ids: Seq<i64>, step: u32) -> Seq<i64> {
    Seq::new(ids.len(), |i: int| scaled_integer(ids[i] as int, step) as i64)
}

/// Whether a double-precision bit pattern is a time of so many milliseconds, in
/// seconds.
pub open spec fn is_time(b: u64, ms: i64) -> bool {
    &&& crate::binary64::is_finite(b)
    &&& same(number(b), thousandth(ms as int))
    &&& ms == 0 ==> b == 0
}

/// Whether a result is the outcome for words and step numbers.
pub open spec fn is_outcome(
    r: ForcedAlignResult,
    words: Seq<Seq<char>>,
    ids: Seq<i64>,
    step: u32,
) -> bool {
    let fixed = repaired_sequence(raw_times(ids, step));
    &&& r.output_ids@ == ids
    &&& r.raw_timestamp_ms@ == raw_times(ids, step)
    &&& r.fixed_timestamp_ms@ == fixed
    &&& r.items@.len() == words.len()
    &&& forall|i: int|
        0 <= i < words.len() ==> (#[trigger] r.items@[i]).text@ == words[i] && is_time(
            r.items@[i].start_time,
            fixed[2 * i],
        ) && is_time(r.items@[i].end_time, fixed[2 * i + 1])
}

fn times_of(ids: &[i64], step: u32) -> (out: Vec<i64>)
    ensures
        out@ == raw_times(ids@, step),
{
    let mut out: Vec<i64> = Vec::new();
    for i in 0..ids.len()
        invariant
            out@ == raw_times(ids@, step).take(i as int),
    {
        let ghost all = raw_times(ids@, step);
        let t: i64 = scale_integer(ids[i], step);
        assert(all.take(i + 1) =~= all.take(i as int).push(all[i as int]));
        out.push(t);
    }
    assert(raw_times(ids@, step).take(ids@.len() as int) =~= raw_times(ids@, step));
    out
}

/// Turns step numbers, a start and an end for every word, into times.
pub fn timestamp_ids_to_run(words: &[String], output_ids: &[i64], step: u32) -> (r: Result<
    ForcedAlignResult,
    AlignError,
>)
    requires
        output_ids@.len() == 2 * words@.len() ==> words@.len() > 0 && spans_fit(
            raw_times(output_ids@, step),
        ),
    ensures
        match r {
            Ok(run) => output_ids@.len() == 2 * words@.len() && is_outcome(
                run,
                texts(words@),
                output_ids@,
                step,
            ),
            Err(AlignError::TimestampMismatch { words: w, timestamps: t }) => output_ids@.len() != 2
                * words@.len() && w == words@.len() && t == output_ids@.len(),
            Err(_) => false,
        },
{
    let count: usize = output_ids.len();
    let n: usize = words.len();
    if count % 2 != 0 || count / 2 != n {
        return Err(AlignError::TimestampMismatch { words: n, timestamps: count });
    }
    let raw: Vec<i64> = times_of(output_ids, step);
    let fixed: Vec<i64> = fix_timestamp(&raw);
    let mut items: Vec<ForcedAlignItem> = Vec::new();
    for i in 0..n
        invariant
            n == words@.len(),
            fixed@.len() == 2 * n,
            items@.len() == i,
            forall|k: int|
                0 <= k < i ==> (#[trigger] items@[k]).text@ == words@[k]@ && is_time(
                    items@[k].start_time,
                    fixed@[2 * k],
                ) && is_time(items@[k].end_time, fixed@[2 * k + 1]),
            fixed@.len() <= usize::MAX,
    {
        let text: String = copy_text(words[i].as_str());
        let start_time: u64 = seconds(fixed[2 * i]);
        let end_time: u64 = seconds(fixed[2 * i + 1]);
        items.push(ForcedAlignItem { text, start_time, end_time });
    }
    let mut ids: Vec<i64> = Vec::new();
    crate::tensor::append_range(&mut ids, output_ids, 0, count);
    assert(ids@ =~= output_ids@);
    Ok(
        ForcedAlignResult {
            items,
            output_ids: ids,
            raw_timestamp_ms: raw,
            fixed_timestamp_ms: fixed,
        },
    )
}

/// What the times of an alignment are worth: the raw times are the step numbers times the
/// duration of a step, but for three parts in `2^24` and what is dropped, which is less
/// than one; and the seconds of every word are a thousandth of its repaired times, but for
/// one part in `2^51`.
pub proof fn lemma_times_are_near(
    r: ForcedAlignResult,
    words: Seq<Seq<char>>,
    ids: Seq<i64>,
    step: u32,
    i: int,
    k: int,
)
    requires
        is_outcome(r, words, ids, step),
        ids.len() == 2 * words.len(),
        0 <= i < words.len(),
        0 <= k < ids.len(),
        ids[k] >= 0,
        crate::binary32::is_finite(step),
        !is_negative(step),
        ids[k] * crate::binary32::number(step).n <= 0x4000_0000_0000_0000
            * crate::binary32::number(step).d,
    ensures
        ({
            let s = crate::binary32::number(step);
            let off = r.raw_timestamp_ms@[k] * s.d - ids[k] * s.n;
            &&& off * 0x100_0000 <= 3 * (ids[k] * s.n)
            &&& -off * 0x100_0000 <= 3 * (ids[k] * s.n) + 0x100_0000 * s.d
        }),
        ({
            let (a, b) = (number(r.items@[i].start_time), number(r.items@[i].end_time));
            let (x, y) = (r.fixed_timestamp_ms@[2 * i] as int, r.fixed_timestamp_ms@[2 * i + 1] as int);
            let (early, late) = (1000 * a.n - x * a.d, 1000 * b.n - y * b.d);
            &&& x >= 0 ==> -(x * a.d) <= early * pow2(51) <= x * a.d
            &&& x < 0 ==> x * a.d <= early * pow2(51) <= -x * a.d
            &&& y >= 0 ==> -(y * b.d) <= late * pow2(51) <= y * b.d
            &&& y < 0 ==> y * b.d <= late * pow2(51) <= -y * b.d
        }),
{
    lemma_scaled_near(ids[k] as int, step);
    lemma_scaled_in_range(ids[k] as int, step);
    let fixed = repaired_sequence(raw_times(ids, step));
    assert(r.items@[i].text@ == words[i]);
    let (a, b) = (number(r.items@[i].start_time), number(r.items@[i].end_time));
    lemma_number_has_value(r.items@[i].start_time);
    lemma_number_has_value(r.items@[i].end_time);
    let (x, y) = (fixed[2 * i] as int, fixed[2 * i + 1] as int);
    lemma_thousandth_near(x, a);
    lemma_thousandth_near(y, b);
    assert((-x) * a.d == -(x * a.d)) by (nonlinear_arith);
    assert((-y) * b.d == -(y * b.d)) by (nonlinear_arith);
}

/// Whether the times of any two of `classes` step numbers are at most `i64::MAX` apart.
pub open spec fn times_stay_close(classes: int, step: u32) -> bool {
    forall|a: int, b: int|
        0 <= a < classes && 0 <= b < classes ==> #[trigger] scaled_integer(b, step)
            - #[trigger] scaled_integer(a, step) <= i64::MAX
}

/// Times that stay close can be repaired.
pub proof fn lemma_times_fit(ids: Seq<i64>, classes: int, step: u32)
    requires
        forall|i: int| 0 <= i < ids.len() ==> 0 <= #[trigger] ids[i] < classes,
        times_stay_close(classes, step),
    ensures
        spans_fit(raw_times(ids, step)),
{
    let d = raw_times(ids, step);
    assert forall|i: int, j: int| 0 <= i < d.len() && 0 <= j < d.len() implies #[trigger] d[j]
        - #[trigger] d[i] <= i64::MAX by {
        let (a, b) = (ids[i] as int, ids[j] as int);
        assert(scaled_integer(b, step) - scaled_integer(a, step) <= i64::MAX);
        lemma_scaled_in_range(a, step);
        lemma_scaled_in_range(b, step);
    }
    lemma_spans_of_close(d);
}

/// Times stay close where the step is not negative.
pub proof fn lemma_steps_forward_stay_close(classes: int, step: u32)
    requires
        !is_negative(step),
    ensures
        times_stay_close(classes, step),
{
    assert forall|a: int, b: int|
        0 <= a < classes && 0 <= b < classes implies #[trigger] scaled_integer(b, step)
        - #[trigger] scaled_integer(a, step) <= i64::MAX by {
        lemma_scaled_in_order(a, a, step);
        lemma_scaled_in_range(b, step);
    }
}

/// What alignments promise: with steps of 80 milliseconds, the time of a step number is
/// 80 milliseconds for every step, and the repaired times of the words never go back.
pub proof fn lemma_times_in_order(ids: Seq<i64>)
    requires
        0 < ids.len() <= pow2(53),
        forall|i: int| 0 <= i < ids.len() ==> 0 <= #[trigger] ids[i] <= 209_715,
    ensures
        forall|i: int| 0 <= i < ids.len() ==> #[trigger] raw_times(ids, EIGHTY)[i] == 80 * ids[i],
        is_sorted(repaired_sequence(raw_times(ids, EIGHTY))),
{
    let d = raw_times(ids, EIGHTY);
    lemma2_to64();
    lemma2_to64_rest();
    assert forall|i: int| 0 <= i < ids.len() implies #[trigger] d[i] == 80 * ids[i] by {
        lemma_steps_of_eighty(ids[i] as int);
    }
    lemma_small_timestamps(d);
}

/// The words of an alignment come in order: no word ends before it starts, and none
/// starts before the one in front of it ends.
pub proof fn lemma_words_in_order(
    r: ForcedAlignResult,
    words: Seq<Seq<char>>,
    ids: Seq<i64>,
    step: u32,
    i: int,
)
    requires
        is_outcome(r, words, ids, step),
        ids.len() == 2 * words.len() <= pow2(51),
        0 <= i < words.len(),
    ensures
        is_sorted(r.fixed_timestamp_ms@),
        at_most(number(r.items@[i].start_time), number(r.items@[i].end_time)),
        i + 1 < words.len() ==> at_most(
            number(r.items@[i].end_time),
            number(r.items@[i + 1].start_time),
        ),
{
    let d = raw_times(ids, step);
    let fixed = repaired_sequence(d);
    assert forall|k: int| 0 <= k < d.len() implies is_end(#[trigger] d[k] as int) by {
        lemma_scaled_is_end(ids[k] as int, step);
        lemma_scaled_in_range(ids[k] as int, step);
    }
    lemma_kept_ends_in_order(d);
    let item = r.items@[i];
    assert(item.text@ == words[i]);
    assert(fixed[2 * i] <= fixed[2 * i + 1]);
    lemma_seconds_in_order(item.start_time, fixed[2 * i], item.end_time, fixed[2 * i + 1]);
    if i + 1 < words.len() {
        let next = r.items@[i + 1];
        assert(next.text@ == words[i + 1]);
        assert(2 * (i + 1) == 2 * i + 2);
        assert(fixed[2 * i + 1] <= fixed[2 * i + 2]);
        lemma_seconds_in_order(item.end_time, fixed[2 * i + 1], next.start_time, fixed[2 * i + 2]);
    }
}

proof fn lemma_seconds_in_order(a: u64, x: i64, b: u64, y: i64)
    requires
        is_time(a, x),
        is_time(b, y),
        x <= y,
    ensures
        at_most(number(a), number(b)),
{
    let (u, v) = (thousandth(x as int), thousandth(y as int));
    lemma_thousandths_in_order(x as int, y as int);
    lemma_number_has_value(a);
    lemma_number_has_value(b);
    lemma_at_most_same(u, number(a), v, number(b));
}

/// The input of an alignment.
#[derive(Debug, Clone)]
pub struct Prepared {
    pub words: Vec<String>,
    pub input_ids: Vec<i64>,
    /// The places of the timestamp tokens.
    pub timestamp_positions: Vec<usize>,
    /// The number of places for audio.
    pub placeholders: usize,
}

/// An aligner input with `count` places for audio in place of the one at `i`.
pub open spec fn expanded_at(input: Seq<char>, i: int, count: int) -> Seq<char> {
    input.take(i) + repeated(audio_pad(), count as nat) + input.skip(i + audio_pad().len())
}

proof fn lemma_pads_have_no_space(count: nat)
    ensures
        forall|k: int|
            0 <= k < repeated(audio_pad(), count).len() ==> !is_whitespace(
                #[trigger] repeated(audio_pad(), count)[k],
            ),
        count > 0 ==> repeated(audio_pad(), count).len() > 0,
    decreases count,
{
    reveal_strlit("<|audio_pad|>");
    assert(audio_pad().len() == 13);
    if count > 0 {
        lemma_pads_have_no_space((count - 1) as nat);
        let rest = repeated(audio_pad(), (count - 1) as nat);
        let all = repeated(audio_pad(), count);
        assert forall|k: int| 0 <= k < all.len() implies !is_whitespace(#[trigger] all[k]) by {
            if k < rest.len() {
                assert(all[k] == rest[k]);
            } else {
                assert(all[k] == audio_pad()[k - rest.len()]);
            }
        }
    }
}

/// Places for audio put no white space beside other white space.
proof fn lemma_places_add_no_space_run(input: Seq<char>, i: int, count: int)
    requires
        0 <= i,
        i + audio_pad().len() <= input.len(),
        count > 0,
        !has_space_run(input),
    ensures
        !has_space_run(expanded_at(input, i, count)),
{
    let pads = repeated(audio_pad(), count as nat);
    let end = i + audio_pad().len();
    let out = expanded_at(input, i, count);
    lemma_pads_have_no_space(count as nat);
    assert forall|k: int| 0 <= k < out.len() - 1 implies !(#[trigger] is_whitespace(out[k])
        && is_whitespace(out[k + 1])) by {
        if k + 1 < i {
            assert(out[k] == input[k] && out[k + 1] == input[k + 1]);
            assert(!(is_whitespace(input[k]) && is_whitespace(input[k + 1])));
        } else if k < i {
            assert(out[k + 1] == pads[0]);
        } else if k < i + pads.len() {
            assert(out[k] == pads[k - i]);
        } else {
            let j = k - i - pads.len() + end;
            assert(out[k] == input[j] && out[k + 1] == input[j + 1]);
            assert(!(is_whitespace(input[j]) && is_whitespace(input[j + 1])));
        }
    }
}

/// Token ids as signed numbers.
pub open spec fn widened_ids(ids: Seq<u32>) -> Seq<i64> {
    ids.map_values(|id: u32| id as i64)
}

fn widen_ids(ids: &[u32]) -> (out: Vec<i64>)
    ensures
        out@ == widened_ids(ids@),
{
    let mut out: Vec<i64> = Vec::new();
    for i in 0..ids.len()
        invariant
            out@ == widened_ids(ids@).take(i as int),
    {
        let ghost all = widened_ids(ids@);
        assert(all.take(i + 1) =~= all.take(i as int).push(all[i as int]));
        out.push(ids[i] as i64);
    }
    assert(widened_ids(ids@).take(ids@.len() as int) =~= widened_ids(ids@));
    out
}

/// The step numbers of an alignment: the place of the best score at every timestamp
/// token.
pub open spec fn step_numbers(p: Prepared, scores: Seq<u32>, classes: int) -> Seq<i64> {
    best_places(rows_of(scores, classes, as_ints(p.timestamp_positions@)), classes)
}

/// Whether a result is the outcome of an alignment for its input and the scores of all
/// positions: every word has a start and an end.
pub open spec fn is_alignment(
    r: ForcedAlignResult,
    p: Prepared,
    scores: Seq<u32>,
    classes: int,
    step: u32,
) -> bool {
    let ids = step_numbers(p, scores, classes);
    &&& ids.len() == p.timestamp_positions@.len() == 2 * p.words@.len()
    &&& is_outcome(r, texts(p.words@), ids, step)
}

/// The times of an alignment can be repaired, whatever the scores, where those of any two
/// step numbers stay close.
pub proof fn lemma_aligned_times_fit(p: Prepared, scores: Seq<u32>, classes: int, step: u32)
    requires
        0 < classes <= i64::MAX,
        times_stay_close(classes, step),
    ensures
        spans_fit(raw_times(step_numbers(p, scores, classes), step)),
{
    let picked = rows_of(scores, classes, as_ints(p.timestamp_positions@));
    let ids = step_numbers(p, scores, classes);
    let n = picked.len() as int;
    assert forall|i: int| 0 <= i < ids.len() implies 0 <= #[trigger] ids[i] < classes by {
        lemma_row_is_short(n, classes, i);
        lemma_best_in_row(score_row(picked, classes, i));
    }
    lemma_times_fit(ids, classes, step);
}

proof fn lemma_row_is_short(n: int, cols: int, i: int)
    requires
        n >= 0,
        cols > 0,
        0 <= i < row_count(n, cols),
    ensures
        0 <= i * cols < n,
        (i + 1) * cols == i * cols + cols,
{
    vstd::arithmetic::div_mod::lemma_fundamental_div_mod(n, cols);
    let (q, r) = (n / cols, n % cols);
    assert(0 <= i * cols < n && (i + 1) * cols == i * cols + cols) by (nonlinear_arith)
        requires
            n == cols * q + r,
            0 <= r < cols,
            0 <= i,
            i < q || (i == q && r > 0),
    ;
}

/// The words of a result.
pub open spec fn item_texts(r: ForcedAlignResult) -> Seq<Seq<char>> {
    r.items@.map_values(|item: ForcedAlignItem| item.text@)
}

/// Whether no word ends before it starts, and none starts before the one in front of it
/// ends.
pub open spec fn in_order(r: ForcedAlignResult) -> bool {
    forall|i: int|
        0 <= i < r.items@.len() ==> at_most(
            number((#[trigger] r.items@[i]).start_time),
            number(r.items@[i].end_time),
        ) && (i + 1 < r.items@.len() ==> at_most(
            number(r.items@[i].end_time),
            number(r.items@[i + 1].start_time),
        ))
}

/// What an alignment of a text promises, whatever engine made the scores: the result has
/// the words of the text, in order and complete, with two step numbers for every word;
/// its times are the repaired ones; and the words come in order, where there are at most
/// `2^50` of them.
pub proof fn lemma_alignment_of_text(
    aligner: Qwen3ForcedAligner,
    text: Seq<char>,
    language: Seq<char>,
    p: Prepared,
    scores: Seq<u32>,
    classes: int,
    r: ForcedAlignResult,
)
    requires
        words_in(text, splitting_of(lowercase(language)), aligner.resources) == Ok::<_, TextError>(
            texts(p.words@),
        ),
        is_alignment(r, p, scores, classes, aligner.config.timestamp_segment_time),
    ensures
        words_in(text, splitting_of(lowercase(language)), aligner.resources) == Ok::<_, TextError>(
            item_texts(r),
        ),
        r.output_ids@.len() == 2 * r.items@.len(),
        r.raw_timestamp_ms@ == raw_times(
            r.output_ids@,
            aligner.config.timestamp_segment_time,
        ),
        r.fixed_timestamp_ms@ == repaired_sequence(r.raw_timestamp_ms@),
        r.output_ids@.len() <= pow2(51) ==> in_order(r) && is_sorted(r.fixed_timestamp_ms@),
{
    let words = texts(p.words@);
    let step = aligner.config.timestamp_segment_time;
    let ids = r.output_ids@;
    assert(item_texts(r) =~= words);
    if ids.len() <= pow2(51) {
        assert forall|i: int| 0 <= i < r.items@.len() implies at_most(
            number((#[trigger] r.items@[i]).start_time),
            number(r.items@[i].end_time),
        ) && (i + 1 < r.items@.len() ==> at_most(
            number(r.items@[i].end_time),
            number(r.items@[i + 1].start_time),
        )) by {
            lemma_words_in_order(r, words, ids, step, i);
        }
        if r.items@.len() > 0 {
            lemma_words_in_order(r, words, ids, step, 0);
        }
    }
}

/// Two engines that align a text agree on its words: their results have the same words
/// in the same order, and as many step numbers. Only the step numbers and the times may
/// differ.
pub proof fn lemma_engines_agree_on_words(
    aligner: Qwen3ForcedAligner,
    text: Seq<char>,
    language: Seq<char>,
    p: Prepared,
    scores: Seq<u32>,
    classes: int,
    r: ForcedAlignResult,
    other_p: Prepared,
    other_scores: Seq<u32>,
    other_classes: int,
    other: ForcedAlignResult,
)
    requires
        words_in(text, splitting_of(lowercase(language)), aligner.resources) == Ok::<_, TextError>(
            texts(p.words@),
        ),
        words_in(text, splitting_of(lowercase(language)), aligner.resources) == Ok::<_, TextError>(
            texts(other_p.words@),
        ),
        is_alignment(r, p, scores, classes, aligner.config.timestamp_segment_time),
        is_alignment(
            other,
            other_p,
            other_scores,
            other_classes,
            aligner.config.timestamp_segment_time,
        ),
    ensures
        item_texts(r) == item_texts(other),
        r.items@.len() == other.items@.len(),
        r.output_ids@.len() == other.output_ids@.len(),
{
    lemma_alignment_of_text(aligner, text, language, p, scores, classes, r);
    lemma_alignment_of_text(
        aligner,
        text,
        language,
        other_p,
        other_scores,
        other_classes,
        other,
    );
    assert(item_texts(r).len() == r.items@.len());
    assert(item_texts(other).len() == other.items@.len());
}

/// How the audio encoder takes the frames.
#[derive(Debug, Clone)]
pub struct AudioPlan {
    /// The number of frames of a chunk.
    pub chunk_size: usize,
    pub chunks: usize,
    /// The number of tokens of every chunk.
    pub chunk_tokens: Vec<usize>,
    /// The number of tokens.
    pub tokens: usize,
}

/// Cuts the frames into chunks of two windows.
pub fn plan_audio(config: &AudioConfig, frames: usize) -> (p: AudioPlan)
    requires
        config.n_window > 0,
        2 * config.n_window <= usize::MAX,
    ensures
        p.chunk_size == 2 * config.n_window,
        p.chunks == chunk_count(frames as int, p.chunk_size as int),
        p.chunk_tokens@.len() == p.chunks,
        p.chunk_tokens@.map_values(|t: usize| t as int) == tokens_per_chunk(
            frames as int,
            p.chunk_size as int,
        ),
        p.tokens == sum(tokens_per_chunk(frames as int, p.chunk_size as int)),
{
    let chunk_size: usize = config.n_window * 2;
    let tokens_of: Vec<usize> = chunk_tokens(frames, chunk_size);
    proof {
        lemma_tokens_within_frames(frames as int, chunk_size as int);
    }
    let tokens: usize = match sum_counts(&tokens_of) {
        Some(n) => n,
        None => 0,
    };
    AudioPlan { chunk_size, chunks: tokens_of.len(), chunk_tokens: tokens_of, tokens }
}

/// The audio must fill the places that the input has for it.
pub fn check_audio_tokens(features: usize, placeholders: usize) -> (r: Result<(), AlignError>)
    ensures
        match r {
            Ok(_) => features == placeholders,
            Err(AlignError::AudioTokenMismatch { features: f, placeholders: p }) => features
                != placeholders && f == features && p == placeholders,
            Err(_) => false,
        },
{
    if features == placeholders {
        Ok(())
    } else {
        Err(AlignError::AudioTokenMismatch { features, placeholders })
    }
}

/// With windows of fifty frames, the audio always fills the places that the input has
/// for it.
pub proof fn lemma_audio_fills_places(frames: int, config: AudioConfig)
    requires
        frames >= 0,
        config.n_window == 50,
    ensures
        sum(tokens_per_chunk(frames, 2 * config.n_window)) == audio_token_count(frames),
{
    lemma_token_counts_agree(frames);
}

/// The text part of the aligner: its configuration, its tokenizer, and what it needs
/// to split texts into words.
pub struct Qwen3ForcedAligner {
    pub config: AlignerConfig,
    pub tokenizer: QwenTokenizer,
    pub resources: TextResources,
}

impl Qwen3ForcedAligner {
    /// The words of a text and the aligner input for them.
    pub fn split_text(&self, text: &str, language: &str) -> (r: Result<
        (Vec<String>, String),
        AlignError,
    >)
        ensures
            ({
                let found = words_in(text@, splitting_of(lowercase(language@)), self.resources);
                match r {
                    Ok(out) => found == Ok::<_, TextError>(texts(out.0@)) && out.1@
                        == aligner_input(texts(out.0@)),
                    Err(AlignError::Text(e)) => found == Err::<Seq<Seq<char>>, _>(e),
                    Err(_) => false,
                }
            }),
    {
        match encode_timestamp(text, language, &self.resources) {
            Ok(out) => Ok(out),
            Err(e) => Err(AlignError::Text(e)),
        }
    }

    /// The input of an alignment, from its token ids.
    pub fn prepare_tokens(&self, words: Vec<String>, ids: &[u32], placeholders: usize) -> (p:
        Prepared)
        ensures
            p.words@ == words@,
            p.input_ids@ == widened_ids(ids@),
            p.placeholders == placeholders,
            as_ints(p.timestamp_positions@) == places_of(
                p.input_ids@,
                self.config.timestamp_token_id as i64,
            ),
            forall|k: int|
                0 <= k < p.timestamp_positions@.len() ==> #[trigger] p.timestamp_positions@[k]
                    < p.input_ids@.len(),
    {
        let input_ids: Vec<i64> = widen_ids(ids);
        let timestamp_positions: Vec<usize> = positions_of(
            &input_ids,
            self.config.timestamp_token_id as i64,
        );
        Prepared { words, input_ids, timestamp_positions, placeholders }
    }

    /// The input of an alignment: the aligner input, with a place for every audio token
    /// of so many frames, as token ids.
    pub fn prepare(&self, words: Vec<String>, input: &str, frames: usize) -> (r: Result<
        Prepared,
        AlignError,
    >)
        requires
            frames <= i64::MAX,
            self.tokenizer.can_encode(input@),
        ensures
            ({
                let count = audio_token_count(frames as int);
                let splitter = self.tokenizer.splitter();
                match r {
                    Ok(p) => {
                        &&& count > 0
                        &&& exists|i: int| #[trigger]
                            is_first_occurrence(input@, audio_pad(), i) && (encoding(
                                splitter,
                                expanded_at(input@, i, count),
                                false,
                            ) matches Some(found) && p.input_ids@ == widened_ids(
                                settled_ids(self.tokenizer.configured(), found.0, found.1),
                            ))
                        &&& p.words@ == words@
                        &&& p.placeholders == count
                        &&& as_ints(p.timestamp_positions@) == places_of(
                            p.input_ids@,
                            self.config.timestamp_token_id as i64,
                        )
                        &&& forall|k: int|
                            0 <= k < p.timestamp_positions@.len()
                                ==> #[trigger] p.timestamp_positions@[k] < p.input_ids@.len()
                    },
                    Err(AlignError::Prompt(PromptError::CountNotPositive)) => count == 0,
                    Err(AlignError::Prompt(PromptError::NoAudioPad)) => count > 0 && forall|i: int|
                        !occurs_at(input@, audio_pad(), i),
                    Err(AlignError::Tokenizer(e)) => count > 0 && e is EncodingFailed && exists|
                        i: int,
                    | #[trigger]
                        is_first_occurrence(input@, audio_pad(), i) && encoding(
                            splitter,
                            expanded_at(input@, i, count),
                            false,
                        ) is None,
                    Err(_) => false,
                }
            }),
    {
        let count: i64 = feature_extract_output_len(frames as i64);
        assert(0 <= count <= frames);
        let placeholders: usize = count as usize;
        let expanded: String = match expand_audio_pad_once(input, placeholders) {
            Ok(s) => s,
            Err(e) => return Err(AlignError::Prompt(e)),
        };
        let ghost at = choose|i: int| #[trigger]
            is_first_occurrence(input@, audio_pad(), i) && expanded@ == input@.take(i) + repeated(
                audio_pad(),
                placeholders as nat,
            ) + input@.skip(i + audio_pad().len());
        assert(is_first_occurrence(input@, audio_pad(), at));
        assert(expanded@ == expanded_at(input@, at, count as int));
        proof {
            if !has_space_run(input@) {
                lemma_places_add_no_space_run(input@, at, count as int);
            }
        }
        let ids: Vec<u32> = match encode_to_ids(&self.tokenizer, expanded.as_str()) {
            Ok(v) => v,
            Err(e) => return Err(AlignError::Tokenizer(e)),
        };
        Ok(self.prepare_tokens(words, &ids, placeholders))
    }

    /// The outcome of an alignment, from the scores of all positions.
    pub fn finish(&self, p: &Prepared, scores: &[u32], classes: usize) -> (r: Result<
        ForcedAlignResult,
        AlignError,
    >)
        requires
            classes > 0,
            scores@.len() == p.input_ids@.len() * classes,
            p.timestamp_positions@.len() * classes <= i64::MAX,
            forall|k: int|
                0 <= k < p.timestamp_positions@.len() ==> #[trigger] p.timestamp_positions@[k]
                    < p.input_ids@.len(),
            p.timestamp_positions@.len() == 2 * p.words@.len() ==> p.words@.len() > 0 && spans_fit(
                raw_times(
                    step_numbers(*p, scores@, classes as int),
                    self.config.timestamp_segment_time,
                ),
            ),
        ensures
            match r {
                Ok(run) => is_alignment(
                    run,
                    *p,
                    scores@,
                    classes as int,
                    self.config.timestamp_segment_time,
                ),
                Err(AlignError::TimestampMismatch { words: w, timestamps: t }) =>
                p.timestamp_positions@.len() != 2 * p.words@.len() && w == p.words@.len() && t
                    == p.timestamp_positions@.len(),
                Err(_) => false,
            },
    {
        let picked: Vec<u32> = gather_rows(
            scores,
            classes,
            p.input_ids.len(),
            &p.timestamp_positions,
        );
        let ids: Vec<i64> = argmax_rows(&picked, classes);
        proof {
            let n = p.timestamp_positions@.len() as int;
            vstd::arithmetic::div_mod::lemma_fundamental_div_mod_converse(
                picked@.len() as int,
                classes as int,
                n,
                0,
            );
            assert(ids@.len() == n);
        }
        timestamp_ids_to_run(&p.words, &ids, self.config.timestamp_segment_time)
    }
}

/// The aligner input of any words has a place for audio behind its first token, so its
/// expansion never fails for want of one.
pub proof fn lemma_input_has_a_place(words: Seq<Seq<char>>)
    ensures
        is_first_occurrence(aligner_input(words), audio_pad(), 15),
{
    let prefix = "<|audio_start|><|audio_pad|><|audio_end|>"@;
    lemma_input_starts(words);
    reveal_strlit("<|audio_start|><|audio_pad|><|audio_end|>");
    reveal_strlit("<|audio_pad|>");
    let input = aligner_input(words);
    assert(prefix.len() == 41 && audio_pad().len() == 13);
    assert forall|k: int| 0 <= k < 41 implies #[trigger] input[k] == prefix[k] by {
        assert(input.take(41)[k] == input[k]);
    }
    assert(input.subrange(15, 28) =~= audio_pad());
    assert forall|i: int| 0 <= i < 15 implies !occurs_at(input, audio_pad(), i) by {
        if occurs_at(input, audio_pad(), i) {
            assert(input.subrange(i, i + 13)[0] == input[i]);
            assert(input.subrange(i, i + 13)[8] == input[i + 8]);
            assert(input[i] == prefix[i]);
            assert(input[i + 8] == prefix[i + 8]);
            assert(prefix[i] == '<');
            assert(prefix[i + 8] == 'p');
        }
    }
}

proof fn lemma_input_starts(words: Seq<Seq<char>>)
    ensures
        aligner_input(words).len() >= 41,
        aligner_input(words).take(41) == "<|audio_start|><|audio_pad|><|audio_end|>"@,
    decreases words.len(),
{
    let prefix = "<|audio_start|><|audio_pad|><|audio_end|>"@;
    reveal_strlit("<|audio_start|><|audio_pad|><|audio_end|>");
    if words.len() == 0 {
        assert(prefix.take(41) =~= prefix);
    } else {
        lemma_input_starts(words.drop_last());
        assert(aligner_input(words).take(41) =~= aligner_input(words.drop_last()).take(41));
    }
}

/// The hidden states that go into the text decoder: the embeddings of the token ids,
/// with rows of the audio in place of those of the audio token.
pub fn merge_embeddings<T: Copy>(
    table: &CpuWeight<T>,
    input_ids: &[i64],
    audio_token: i64,
    audio: &[T],
) -> (out: CpuTensor<T>)
    requires
        table.well_formed(),
        forall|i: int| 0 <= i < input_ids@.len() ==> 0 <= #[trigger] input_ids@[i] < table.rows,
        audio@.len() >= places_of(input_ids@, audio_token).len() * table.cols,
    ensures
        out.well_formed(),
        out.shape@ == seq![1usize, input_ids@.len() as usize, table.cols],
        out.data@.len() == input_ids@.len() * table.cols,
        forall|k: int|
            0 <= k < out.data@.len() ==> #[trigger] out.data@[k] == spliced(
                rows_of(
                    table.data@,
                    table.cols as int,
                    input_ids@.map_values(|id: i64| id as int),
                ),
                table.cols as int,
                input_ids@,
                audio_token,
                audio@,
                k,
            ),
{
    let n: usize = input_ids.len();
    let found: CpuTensor<T> = embed_lookup(table, input_ids);
    let ghost shape2 = seq![n, table.cols];
    proof {
        assert(found.shape@ == shape2);
        lemma_matrix_numel(n, table.cols);
    }
    let data: Vec<T> = splice_rows(&found.data, table.cols, input_ids, audio_token, audio);
    let mut shape: Vec<usize> = Vec::new();
    shape.push(1);
    shape.push(n);
    shape.push(table.cols);
    assert(shape@ =~= seq![1usize, n, table.cols]);
    CpuTensor::new(data, shape)
}

proof fn lemma_matrix_numel(n: usize, cols: usize)
    ensures
        crate::tensor::numel(seq![n, cols]) == n * cols,
        crate::tensor::numel(seq![1usize, n, cols]) == n * cols,
{
    let empty = Seq::<usize>::empty();
    crate::tensor::lemma_numel_push(empty, n);
    crate::tensor::lemma_numel_push(empty.push(n), cols);
    assert(seq![n, cols] =~= empty.push(n).push(cols));
    crate::tensor::lemma_numel_push(empty, 1);
    crate::tensor::lemma_numel_push(empty.push(1), n);
    crate::tensor::lemma_numel_push(empty.push(1).push(n), cols);
    assert(seq![1usize, n, cols] =~= empty.push(1).push(n).push(cols));
    assert(crate::tensor::numel(empty.push(n)) == 1 * n as nat);
    assert(crate::tensor::numel(empty.push(1).push(n)) == 1 * n as nat);
}

/// The positions of a text without pictures: the same number in all three dimensions.
pub fn text_positions(count: usize) -> (out: Vec<Vec<i64>>)
    requires
        count <= i64::MAX,
    ensures
        out@.len() == 3,
        forall|d: int, t: int|
            0 <= d < 3 && 0 <= t < count ==> out@[d]@.len() == count && #[trigger] out@[d]@[t] == t,
        forall|d: int| 0 <= d < 3 ==> (#[trigger] out@[d])@.len() == count,
{
    let mut out: Vec<Vec<i64>> = Vec::new();
    for d in 0..3usize
        invariant
            count <= i64::MAX,
            out@.len() == d,
            forall|e: int| 0 <= e < d ==> (#[trigger] out@[e])@.len() == count,
            forall|e: int, t: int|
                0 <= e < d && 0 <= t < count ==> #[trigger] out@[e]@[t] == t,
    {
        let mut row: Vec<i64> = Vec::new();
        for t in 0..count
            invariant
                count <= i64::MAX,
                row@.len() == t,
                forall|u: int| 0 <= u < t ==> #[trigger] row@[u] == u,
        {
            row.push(t as i64);
        }
        out.push(row);
    }
    out
}

/// The room for new positions that the cache has beyond the input.
pub const CACHE_MARGIN: usize = 64;

} // verus!

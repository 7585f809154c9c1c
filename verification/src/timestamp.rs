//! Repair of timestamp sequences that run backwards.
//!
//! A longest non-decreasing subsequence of the timestamps is kept. Every other
//! entry is replaced: in a gap of at most two entries by the nearer kept
//! neighbour, in a longer one by a point interpolated between the neighbours.

use crate::binary64::{
    interpolate, interpolated, is_end, is_exact, lemma_interpolated_ordered,
    lemma_interpolated_range, lemma_small_is_exact,
};
use crate::chars::texts;
use crate::interpolation::{
    lemma_even_steps_are_exact, lemma_interpolated_near, lemma_interpolated_within_two,
};
use vstd::arithmetic::power2::{lemma2_to64, lemma2_to64_rest, pow2};
use vstd::prelude::*;

verus! {

/// The length of a longest non-decreasing subsequence that ends with entry
/// `i` and whose other entries lie before `j`.
pub open spec fn best_run(d: Seq<i64>, i: int, j: int) -> int
    decreases i, j,
{
    if j <= 0 || j > i {
        1
    } else {
        let shorter = best_run(d, i, j - 1);
        let longer = best_run(d, j - 1, j - 1) + 1;
        if d[j - 1] <= d[i] && longer > shorter {
            longer
        } else {
            shorter
        }
    }
}

/// The length of a longest non-decreasing subsequence that ends with entry `i`.
pub open spec fn run_len(d: Seq<i64>, i: int) -> int {
    best_run(d, i, i)
}

/// Entry `j` can stand directly before entry `i` in a longest run up to `i`.
pub open spec fn can_precede(d: Seq<i64>, j: int, i: int) -> bool {
    0 <= j < i && d[j] <= d[i] && run_len(d, j) + 1 == run_len(d, i)
}

/// The first entry that can stand directly before entry `i`.
pub open spec fn is_predecessor(d: Seq<i64>, j: int, i: int) -> bool {
    can_precede(d, j, i) && forall|k: int| 0 <= k < j ==> !can_precede(d, k, i)
}

pub open spec fn predecessor(d: Seq<i64>, i: int) -> int {
    choose|j: int| is_predecessor(d, j, i)
}

/// The longest run that ends with entry `i`, by index. Of several candidates
/// for a place, the first one takes it.
pub open spec fn run_to(d: Seq<i64>, i: int) -> Seq<int>
    decreases i,
{
    let j = predecessor(d, i);
    if run_len(d, i) > 1 && 0 <= j < i {
        run_to(d, j).push(i)
    } else {
        seq![i]
    }
}

/// The first entry at which a longest run of all ends.
pub open spec fn is_run_end(d: Seq<i64>, e: int) -> bool {
    &&& 0 <= e < d.len()
    &&& forall|i: int| 0 <= i < d.len() ==> run_len(d, i) <= run_len(d, e)
    &&& forall|i: int| 0 <= i < e ==> run_len(d, i) < run_len(d, e)
}

/// The indices of the entries that are kept.
pub open spec fn kept_indices(d: Seq<i64>) -> Seq<int> {
    run_to(d, choose|e: int| is_run_end(d, e))
}

pub open spec fn is_kept(d: Seq<i64>, k: int) -> bool {
    kept_indices(d).contains(k)
}

/// The last kept index before `k`, or -1.
pub open spec fn kept_before(d: Seq<i64>, k: int) -> int
    decreases k,
{
    if k <= 0 {
        -1
    } else if is_kept(d, k - 1) {
        k - 1
    } else {
        kept_before(d, k - 1)
    }
}

/// The first kept index after `k`, or the length.
pub open spec fn kept_after(d: Seq<i64>, k: int) -> int
    decreases d.len() - k,
{
    if k + 1 >= d.len() {
        d.len() as int
    } else if is_kept(d, k + 1) {
        k + 1
    } else {
        kept_after(d, k + 1)
    }
}

/// Entry `k` after the repair.
pub open spec fn repaired(d: Seq<i64>, k: int) -> int {
    let a = kept_before(d, k);
    let b = kept_after(d, k);
    let count = b - a - 1;
    if is_kept(d, k) {
        d[k] as int
    } else if a < 0 && b >= d.len() {
        d[k] as int
    } else if a < 0 {
        d[b] as int
    } else if b >= d.len() {
        d[a] as int
    } else if count <= 2 {
        if k - a <= b - k {
            d[a] as int
        } else {
            d[b] as int
        }
    } else {
        interpolated(d[a] as int, d[b] as int, count, k - a)
    }
}

/// Entry `k` is replaced by an interpolated point.
pub open spec fn is_interpolated(d: Seq<i64>, k: int) -> bool {
    let a = kept_before(d, k);
    let b = kept_after(d, k);
    0 <= k < d.len() && !is_kept(d, k) && 0 <= a && b < d.len() && b - a - 1 > 2
}

/// The ends of every interpolated gap are at most `i64::MAX` apart.
pub open spec fn spans_fit(d: Seq<i64>) -> bool {
    forall|k: int| #[trigger]
        is_interpolated(d, k) ==> d[kept_after(d, k)] - d[kept_before(d, k)] <= i64::MAX
}

/// The whole repaired sequence.
pub open spec fn repaired_sequence(d: Seq<i64>) -> Seq<i64> {
    Seq::new(d.len(), |k: int| repaired(d, k) as i64)
}

proof fn lemma_best_run_positive(d: Seq<i64>, i: int, j: int)
    ensures
        1 <= best_run(d, i, j),
        0 <= j ==> best_run(d, i, j) <= j + 1,
    decreases i, j,
{
    if j <= 0 || j > i {
    } else {
        lemma_best_run_positive(d, i, j - 1);
        lemma_best_run_positive(d, j - 1, j - 1);
    }
}

/// `best_run` is an upper bound, and is attained by a first entry unless it is one.
proof fn lemma_best_run(d: Seq<i64>, i: int, j: int) -> (p: int)
    requires
        0 <= j <= i < d.len(),
    ensures
        forall|k: int|
            0 <= k < j && d[k] <= d[i] ==> #[trigger] run_len(d, k) + 1 <= best_run(d, i, j),
        best_run(d, i, j) > 1 ==> 0 <= p < j && d[p] <= d[i] && run_len(d, p) + 1 == best_run(
            d,
            i,
            j,
        ) && forall|k: int|
            0 <= k < p && d[k] <= d[i] ==> #[trigger] run_len(d, k) + 1 < best_run(d, i, j),
    decreases j,
{
    if j == 0 {
        0
    } else {
        let p = lemma_best_run(d, i, j - 1);
        lemma_best_run_positive(d, i, j - 1);
        if d[j - 1] <= d[i] && run_len(d, j - 1) + 1 > best_run(d, i, j - 1) {
            assert forall|k: int| 0 <= k < j && d[k] <= d[i] implies #[trigger] run_len(d, k) + 1
                <= best_run(d, i, j) by {
                if k < j - 1 {
                    assert(run_len(d, k) + 1 <= best_run(d, i, j - 1));
                }
            }
            j - 1
        } else {
            p
        }
    }
}

proof fn lemma_predecessor(d: Seq<i64>, i: int)
    requires
        0 <= i < d.len(),
        run_len(d, i) > 1,
    ensures
        is_predecessor(d, predecessor(d, i), i),
{
    let p = lemma_best_run(d, i, i);
    assert(is_predecessor(d, p, i)) by {
        assert forall|k: int| 0 <= k < p implies !can_precede(d, k, i) by {
            if d[k] <= d[i] {
                assert(run_len(d, k) + 1 < best_run(d, i, i));
            }
        }
    }
}

proof fn lemma_predecessor_unique(d: Seq<i64>, i: int, p: int)
    requires
        0 <= i < d.len(),
        is_predecessor(d, p, i),
    ensures
        predecessor(d, i) == p,
{
    let q = predecessor(d, i);
    assert(is_predecessor(d, q, i));
    if q < p {
        assert(!can_precede(d, q, i));
    }
    if p < q {
        assert(!can_precede(d, p, i));
    }
}

/// Indices that increase and stay within the sequence, at entries that do not
/// decrease.
pub open spec fn is_nondecreasing_subsequence(d: Seq<i64>, s: Seq<int>) -> bool {
    &&& forall|x: int| 0 <= x < s.len() ==> 0 <= #[trigger] s[x] < d.len()
    &&& forall|x: int, y: int| 0 <= x < y < s.len() ==> s[x] < s[y] && d[s[x]] <= d[s[y]]
}

proof fn lemma_run_to(d: Seq<i64>, i: int)
    requires
        0 <= i < d.len(),
    ensures
        run_to(d, i).len() == run_len(d, i),
        run_to(d, i).last() == i,
        is_nondecreasing_subsequence(d, run_to(d, i)),
    decreases i,
{
    lemma_best_run_positive(d, i, i);
    let s = run_to(d, i);
    if run_len(d, i) > 1 {
        lemma_predecessor(d, i);
        let j = predecessor(d, i);
        lemma_run_to(d, j);
        let t = run_to(d, j);
        assert(t[t.len() - 1] == j);
        assert forall|x: int, y: int| 0 <= x < y < s.len() implies s[x] < s[y] && d[s[x]]
            <= d[s[y]] by {
            assert(s[x] == t[x]);
            if y < s.len() - 1 {
                assert(s[y] == t[y]);
            } else if x < t.len() - 1 {
                assert(t[x] < t[t.len() - 1]);
            }
        }
    }
}

proof fn lemma_run_end_exists(d: Seq<i64>, n: int) -> (e: int)
    requires
        0 < n <= d.len(),
    ensures
        0 <= e < n,
        forall|i: int| 0 <= i < n ==> run_len(d, i) <= run_len(d, e),
        forall|i: int| 0 <= i < e ==> run_len(d, i) < run_len(d, e),
    decreases n,
{
    if n == 1 {
        0
    } else {
        let e = lemma_run_end_exists(d, n - 1);
        if run_len(d, n - 1) > run_len(d, e) {
            n - 1
        } else {
            e
        }
    }
}

proof fn lemma_run_end_unique(d: Seq<i64>, e: int, f: int)
    requires
        is_run_end(d, e),
        is_run_end(d, f),
    ensures
        e == f,
{
    if e < f {
        assert(run_len(d, e) < run_len(d, f));
        assert(run_len(d, f) <= run_len(d, e));
    }
    if f < e {
        assert(run_len(d, f) < run_len(d, e));
        assert(run_len(d, e) <= run_len(d, f));
    }
}

proof fn lemma_kept_indices(d: Seq<i64>) -> (e: int)
    requires
        d.len() > 0,
    ensures
        is_run_end(d, e),
        kept_indices(d) == run_to(d, e),
        kept_indices(d).len() == run_len(d, e),
        is_nondecreasing_subsequence(d, kept_indices(d)),
{
    let e = lemma_run_end_exists(d, d.len() as int);
    assert(is_run_end(d, e));
    let f = choose|f: int| is_run_end(d, f);
    lemma_run_end_unique(d, e, f);
    lemma_run_to(d, e);
    e
}

/// Kept entries do not decrease.
proof fn lemma_kept_ordered(d: Seq<i64>, a: int, b: int)
    requires
        d.len() > 0,
        is_kept(d, a),
        is_kept(d, b),
        a <= b,
    ensures
        0 <= a < d.len(),
        0 <= b < d.len(),
        d[a] <= d[b],
{
    let e = lemma_kept_indices(d);
    let s = kept_indices(d);
    let x = choose|x: int| 0 <= x < s.len() && s[x] == a;
    let y = choose|y: int| 0 <= y < s.len() && s[y] == b;
    assert(0 <= s[x] < d.len() && 0 <= s[y] < d.len());
    if x < y {
        assert(d[s[x]] <= d[s[y]]);
    } else if y < x {
        assert(s[y] < s[x]);
    }
}

/// The length of the longest run up to every entry, and the predecessor in it.
fn longest_runs(data: &[i64]) -> (runs: (Vec<usize>, Vec<Option<usize>>))
    ensures
        runs.0@.len() == data@.len(),
        runs.1@.len() == data@.len(),
        forall|i: int| 0 <= i < data@.len() ==> #[trigger] runs.0@[i] == run_len(data@, i),
        forall|i: int| 0 <= i < data@.len() ==> #[trigger] has_predecessor(data@, i, runs.1@[i]),
{
    let n: usize = data.len();
    let mut lens: Vec<usize> = Vec::with_capacity(n);
    let mut parents: Vec<Option<usize>> = Vec::with_capacity(n);
    for i in 0..n
        invariant
            n == data@.len(),
            lens@.len() == i,
            parents@.len() == i,
            forall|k: int| 0 <= k < i ==> #[trigger] lens@[k] == run_len(data@, k),
            forall|k: int| 0 <= k < i ==> #[trigger] has_predecessor(data@, k, parents@[k]),
    {
        let mut len: usize = 1;
        let mut parent: Option<usize> = None;
        for j in 0..i
            invariant
                i < n == data@.len(),
                lens@.len() == i,
                forall|k: int| 0 <= k < i ==> #[trigger] lens@[k] == run_len(data@, k),
                1 <= len == best_run(data@, i as int, j as int) <= j + 1,
                parent is None <==> len == 1,
                forall|k: int|
                    0 <= k < j && data@[k] <= data@[i as int] ==> #[trigger] run_len(data@, k) + 1
                        <= len,
                parent matches Some(p) ==> p < j && data@[p as int] <= data@[i as int] && run_len(
                    data@,
                    p as int,
                ) + 1 == len && forall|k: int|
                    0 <= k < p && data@[k] <= data@[i as int] ==> #[trigger] run_len(data@, k) + 1
                        < len,
        {
            proof {
                lemma_best_run_positive(data@, j as int, j as int);
                lemma_best_run_positive(data@, i as int, j + 1);
                assert(lens@[j as int] == run_len(data@, j as int));
            }
            if data[j] <= data[i] && lens[j] + 1 > len {
                len = lens[j] + 1;
                parent = Some(j);
            }
        }
        proof {
            assert(has_predecessor(data@, i as int, parent));
        }
        lens.push(len);
        parents.push(parent);
    }
    (lens, parents)
}

/// `parent` is the predecessor of entry `i`, if it has one.
spec fn has_predecessor(d: Seq<i64>, i: int, parent: Option<usize>) -> bool {
    match parent {
        Some(p) => is_predecessor(d, p as int, i),
        None => run_len(d, i) == 1,
    }
}

/// Which entries are kept.
fn kept_flags(data: &[i64]) -> (flags: Vec<bool>)
    requires
        data@.len() > 0,
    ensures
        flags@.len() == data@.len(),
        forall|k: int| 0 <= k < data@.len() ==> #[trigger] flags@[k] == is_kept(data@, k),
{
    let n: usize = data.len();
    let (lens, parents) = longest_runs(data);
    let mut end: usize = 0;
    for i in 1..n
        invariant
            n == data@.len() == lens@.len(),
            end < i,
            forall|k: int| 0 <= k < n ==> #[trigger] lens@[k] == run_len(data@, k),
            forall|k: int| 0 <= k < i ==> run_len(data@, k) <= run_len(data@, end as int),
            forall|k: int| 0 <= k < end ==> run_len(data@, k) < run_len(data@, end as int),
    {
        proof {
            assert(lens@[i as int] == run_len(data@, i as int));
            assert(lens@[end as int] == run_len(data@, end as int));
        }
        if lens[i] > lens[end] {
            end = i;
        }
    }
    let mut flags: Vec<bool> = Vec::with_capacity(n);
    for i in 0..n
        invariant
            flags@.len() == i,
            forall|k: int| 0 <= k < i ==> !flags@[k],
    {
        flags.push(false);
    }
    let ghost mut rest: Seq<int> = Seq::empty();
    proof {
        let e = lemma_kept_indices(data@);
        assert(is_run_end(data@, end as int));
        lemma_run_end_unique(data@, e, end as int);
        assert(kept_indices(data@) =~= run_to(data@, end as int) + rest);
    }
    let mut current: usize = end;
    let mut more: bool = true;
    while more
        invariant
            n == data@.len() == flags@.len() == parents@.len(),
            current < n,
            forall|k: int| 0 <= k < n ==> #[trigger] has_predecessor(data@, k, parents@[k]),
            more ==> kept_indices(data@) == run_to(data@, current as int) + rest,
            !more ==> kept_indices(data@) == rest,
            forall|k: int| 0 <= k < n ==> #[trigger] flags@[k] == rest.contains(k),
        decreases current + (if more { 1int } else { 0int }),
    {
        let ghost before = rest;
        let ghost i = current as int;
        proof {
            assert(has_predecessor(data@, i, parents@[i]));
            rest = seq![i] + before;
            assert forall|k: int| rest.contains(k) <==> k == i || before.contains(k) by {
                if before.contains(k) {
                    let x = choose|x: int| 0 <= x < before.len() && before[x] == k;
                    assert(rest[x + 1] == k);
                }
                if k == i {
                    assert(rest[0] == i);
                }
            }
        }
        flags.set(current, true);
        match parents[current] {
            Some(p) => {
                proof {
                    lemma_predecessor_unique(data@, i, p as int);
                    lemma_best_run_positive(data@, p as int, p as int);
                    assert(run_to(data@, i) + before =~= run_to(data@, p as int) + rest);
                }
                current = p;
            },
            None => {
                proof {
                    assert(run_to(data@, i) =~= seq![i]);
                }
                more = false;
            },
        }
    }
    flags
}

/// Within a gap, the kept neighbours are those at its ends.
proof fn lemma_gap(d: Seq<i64>, i: int, j: int, k: int)
    requires
        0 <= i <= k < j <= d.len(),
        i == 0 || is_kept(d, i - 1),
        j == d.len() || is_kept(d, j),
        forall|x: int| i <= x < j ==> !is_kept(d, x),
    ensures
        kept_before(d, k) == i - 1,
        kept_after(d, k) == j,
{
    lemma_gap_left(d, i, k);
    lemma_gap_right(d, k, j);
}

proof fn lemma_gap_left(d: Seq<i64>, i: int, k: int)
    requires
        0 <= i <= k,
        i == 0 || is_kept(d, i - 1),
        forall|x: int| i <= x < k ==> !is_kept(d, x),
    ensures
        kept_before(d, k) == i - 1,
    decreases k,
{
    if k > i {
        lemma_gap_left(d, i, k - 1);
    }
}

proof fn lemma_gap_right(d: Seq<i64>, k: int, j: int)
    requires
        k < j <= d.len(),
        j == d.len() || is_kept(d, j),
        forall|x: int| k < x < j ==> !is_kept(d, x),
    ensures
        kept_after(d, k) == j,
    decreases j - k,
{
    if k + 1 < j {
        lemma_gap_right(d, k + 1, j);
    }
}

/// Repairs a flat timestamp sequence.
///
/// The entries outside the first longest non-decreasing subsequence are
/// anomalies. A run of at most two anomalies takes the value of the nearer
/// neighbour, the left one on a tie; a longer run is interpolated linearly in
/// double precision; a run at either end takes the value of its one neighbour.
pub fn fix_timestamp(data: &[i64]) -> (result: Vec<i64>)
    requires
        data@.len() > 0,
        spans_fit(data@),
    ensures
        result@ == repaired_sequence(data@),
        result@.len() == data@.len(),
        forall|k: int| 0 <= k < data@.len() ==> #[trigger] result@[k] == repaired(data@, k),
{
    let n: usize = data.len();
    let kept: Vec<bool> = kept_flags(data);
    let mut result: Vec<i64> = Vec::with_capacity(n);
    let ghost d = data@;
    let mut i: usize = 0;
    while i < n
        invariant
            d == data@,
            n == d.len() == kept@.len(),
            n > 0,
            spans_fit(d),
            i <= n,
            result@.len() == i,
            i == 0 || i == n || is_kept(d, i as int) || is_kept(d, i - 1),
            forall|k: int| 0 <= k < n ==> #[trigger] kept@[k] == is_kept(d, k),
            forall|k: int| 0 <= k < i ==> #[trigger] result@[k] == repaired(d, k),
        decreases n - i,
    {
        assert(kept@[i as int] == is_kept(d, i as int));
        if kept[i] {
            result.push(data[i]);
            i = i + 1;
            continue ;
        }
        let mut j: usize = i;
        while j < n && !kept[j]
            invariant
                i <= j <= n == d.len() == kept@.len(),
                forall|k: int| 0 <= k < n ==> #[trigger] kept@[k] == is_kept(d, k),
                forall|x: int| i <= x < j ==> !is_kept(d, x),
            decreases n - j,
        {
            assert(kept@[j as int] == is_kept(d, j as int));
            j = j + 1;
        }
        assert(j < n ==> kept@[j as int] == is_kept(d, j as int));
        let count: usize = j - i;
        let mut k: usize = i;
        while k < j
            invariant
                d == data@,
                n == d.len(),
                n > 0,
                spans_fit(d),
                i <= k <= j <= n,
                i < j,
                count == j - i,
                result@.len() == k,
                i == 0 || is_kept(d, i - 1),
                j == n || is_kept(d, j as int),
                forall|x: int| i <= x < j ==> !is_kept(d, x),
                forall|x: int| 0 <= x < k ==> #[trigger] result@[x] == repaired(d, x),
            decreases j - k,
        {
            proof {
                lemma_gap(d, i as int, j as int, k as int);
                if i > 0 && j < n {
                    lemma_kept_ordered(d, i - 1, j as int);
                    if count > 2 {
                        assert(is_interpolated(d, k as int));
                    }
                }
            }
            let value: i64 = if i == 0 && j == n {
                data[k]
            } else if i == 0 {
                data[j]
            } else if j == n {
                data[i - 1]
            } else if count <= 2 {
                if k - (i - 1) <= j - k {
                    data[i - 1]
                } else {
                    data[j]
                }
            } else {
                interpolate(data[i - 1], data[j], count, k - (i - 1))
            };
            result.push(value);
            k = k + 1;
        }
        i = j;
    }
    assert(result@ =~= repaired_sequence(d));
    result
}

/// One repaired pair of timestamps.
#[derive(Debug, Clone, PartialEq, Eq)]
pub struct RepairItem {
    pub raw_start_time: i64,
    pub raw_end_time: i64,
    pub start_time: i64,
    pub end_time: i64,
    pub repair_reasons: Vec<String>,
}

/// `reason`, if `applies`.
pub open spec fn reason_if(applies: bool, reason: Seq<char>) -> Seq<Seq<char>> {
    if applies {
        seq![reason]
    } else {
        seq![]
    }
}

/// What is said of a pair: each reason that applies, or that nothing changed.
pub open spec fn reasons_for(raw_start: i64, raw_end: i64, start: i64, end: i64) -> Seq<Seq<char>> {
    let reasons = reason_if(raw_start > raw_end, "inverted_pair_start_clamped_to_end"@) + reason_if(
        raw_start == raw_end,
        "raw_zero_duration"@,
    ) + reason_if(start != raw_start || end != raw_end, "timestamp_repaired"@) + reason_if(
        start == end,
        "zero_duration"@,
    );
    if reasons.len() == 0 {
        seq!["unchanged"@]
    } else {
        reasons
    }
}

/// `item` describes the pair of entries at `2 * i` in `raw` and in `fixed`.
pub open spec fn describes_pair(item: RepairItem, raw: Seq<i64>, fixed: Seq<i64>, i: int) -> bool {
    &&& item.raw_start_time == raw[2 * i]
    &&& item.raw_end_time == raw[2 * i + 1]
    &&& item.start_time == fixed[2 * i]
    &&& item.end_time == fixed[2 * i + 1]
    &&& texts(item.repair_reasons@) == reasons_for(
        raw[2 * i],
        raw[2 * i + 1],
        fixed[2 * i],
        fixed[2 * i + 1],
    )
}

/// A pair is described by what is true of it: that it was inverted, that it was empty,
/// that it was changed, that it is empty now, each once and in this order, and by nothing
/// else; only where none of these holds is it said to be unchanged.
pub proof fn lemma_reasons_hold(raw_start: i64, raw_end: i64, start: i64, end: i64)
    ensures
        ({
            let r = reasons_for(raw_start, raw_end, start, end);
            let changed = start != raw_start || end != raw_end;
            let none = raw_start < raw_end && !changed && start != end;
            &&& r.contains("inverted_pair_start_clamped_to_end"@) <==> raw_start > raw_end
            &&& r.contains("raw_zero_duration"@) <==> raw_start == raw_end
            &&& r.contains("timestamp_repaired"@) <==> changed
            &&& r.contains("zero_duration"@) <==> start == end
            &&& r.contains("unchanged"@) <==> none
            &&& r.len() == (if raw_start >= raw_end {
                1int
            } else {
                0
            }) + (if changed {
                1int
            } else {
                0
            }) + (if start == end {
                1int
            } else {
                0
            }) + (if none {
                1int
            } else {
                0
            })
            &&& raw_start > raw_end ==> r[0] == "inverted_pair_start_clamped_to_end"@
            &&& raw_start == raw_end ==> r[0] == "raw_zero_duration"@
            &&& start == end ==> r.last() == "zero_duration"@
        }),
{
    reveal_strlit("inverted_pair_start_clamped_to_end");
    reveal_strlit("raw_zero_duration");
    reveal_strlit("timestamp_repaired");
    reveal_strlit("zero_duration");
    reveal_strlit("unchanged");
    let r = reasons_for(raw_start, raw_end, start, end);
    let changed = start != raw_start || end != raw_end;
    let a = reason_if(raw_start > raw_end, "inverted_pair_start_clamped_to_end"@);
    let b = reason_if(raw_start == raw_end, "raw_zero_duration"@);
    let c = reason_if(changed, "timestamp_repaired"@);
    let z = reason_if(start == end, "zero_duration"@);
    let all = a + b + c + z;
    if raw_start > raw_end {
        assert(all[0] == "inverted_pair_start_clamped_to_end"@);
    }
    if raw_start == raw_end {
        assert(all[0] == "raw_zero_duration"@);
    }
    if changed {
        assert(all[(a + b).len() as int] == "timestamp_repaired"@);
    }
    if start == end {
        assert(all[all.len() - 1] == "zero_duration"@);
    }
    if all.len() == 0 {
        assert(r[0] == "unchanged"@);
    } else {
        assert(r == all);
    }
    assert forall|i: int| 0 <= i < r.len() implies (#[trigger] r[i]).len() == 34 && raw_start
        > raw_end || r[i].len() == 17 && raw_start == raw_end || r[i].len() == 18 && changed
        || r[i].len() == 13 && start == end || r[i].len() == 9 && all.len() == 0 by {
        if all.len() > 0 {
            if i < a.len() {
                assert(r[i] == a[i]);
            } else if i < (a + b).len() {
                assert(r[i] == b[i - a.len()]);
            } else if i < (a + b + c).len() {
                assert(r[i] == c[i - (a + b).len()]);
            } else {
                assert(r[i] == z[i - (a + b + c).len()]);
            }
        }
    }
    assert("inverted_pair_start_clamped_to_end"@.len() == 34);
    assert("raw_zero_duration"@.len() == 17);
    assert("timestamp_repaired"@.len() == 18);
    assert("zero_duration"@.len() == 13);
    assert("unchanged"@.len() == 9);
}

/// Adds a reason to a list if it applies.
fn add_reason(reasons: &mut Vec<String>, applies: bool, reason: &str)
    ensures
        texts(final(reasons)@) == texts(old(reasons)@) + reason_if(applies, reason@),
{
    if applies {
        reasons.push(reason.to_string());
        assert(texts(reasons@) =~= texts(old(reasons)@) + seq![reason@]);
    } else {
        assert(texts(reasons@) =~= texts(old(reasons)@) + Seq::<Seq<char>>::empty());
    }
}

/// Repairs a sequence of start and end timestamps and says of every pair what
/// happened to it. A last entry without a partner counts in the repair and
/// belongs to no pair.
pub fn repair_timestamps(data: &[i64]) -> (out: Vec<RepairItem>)
    requires
        data@.len() > 0,
        spans_fit(data@),
    ensures
        out@.len() == data@.len() / 2,
        forall|i: int|
            0 <= i < out@.len() ==> #[trigger] describes_pair(
                out@[i],
                data@,
                repaired_sequence(data@),
                i,
            ),
        forall|i: int|
            0 <= i < out@.len() ==> (#[trigger] out@[i]).raw_start_time == data@[2 * i]
                && out@[i].raw_end_time == data@[2 * i + 1] && out@[i].start_time
                == repaired_sequence(data@)[2 * i] && out@[i].end_time == repaired_sequence(
                data@,
            )[2 * i + 1],
{
    let fixed: Vec<i64> = fix_timestamp(data);
    let n: usize = data.len();
    let pairs: usize = n / 2;
    let mut out: Vec<RepairItem> = Vec::with_capacity(pairs);
    for i in 0..pairs
        invariant
            n == data@.len(),
            pairs == n / 2,
            fixed@ == repaired_sequence(data@),
            fixed@.len() == data@.len(),
            out@.len() == i,
            forall|k: int|
                0 <= k < i ==> #[trigger] describes_pair(
                    out@[k],
                    data@,
                    repaired_sequence(data@),
                    k,
                ),
    {
        let raw_start: i64 = data[2 * i];
        let raw_end: i64 = data[2 * i + 1];
        let start: i64 = fixed[2 * i];
        let end: i64 = fixed[2 * i + 1];
        let mut reasons: Vec<String> = Vec::new();
        assert(texts(reasons@) =~= seq![]);
        add_reason(&mut reasons, raw_start > raw_end, "inverted_pair_start_clamped_to_end");
        add_reason(&mut reasons, raw_start == raw_end, "raw_zero_duration");
        add_reason(&mut reasons, start != raw_start || end != raw_end, "timestamp_repaired");
        add_reason(&mut reasons, start == end, "zero_duration");
        let none: bool = reasons.len() == 0;
        let ghost found = texts(reasons@);
        add_reason(&mut reasons, none, "unchanged");
        proof {
            assert(found.len() == 0 ==> found + seq!["unchanged"@] =~= seq!["unchanged"@]);
            assert(found + Seq::<Seq<char>>::empty() =~= found);
            assert(Seq::<Seq<char>>::empty() + reason_if(
                raw_start > raw_end,
                "inverted_pair_start_clamped_to_end"@,
            ) =~= reason_if(raw_start > raw_end, "inverted_pair_start_clamped_to_end"@));
        }
        let item = RepairItem {
            raw_start_time: raw_start,
            raw_end_time: raw_end,
            start_time: start,
            end_time: end,
            repair_reasons: reasons,
        };
        assert(describes_pair(item, data@, repaired_sequence(data@), i as int));
        out.push(item);
    }
    assert forall|i: int| 0 <= i < out@.len() implies (#[trigger] out@[i]).raw_start_time == data@[2
        * i] && out@[i].raw_end_time == data@[2 * i + 1] && out@[i].start_time == repaired_sequence(
        data@,
    )[2 * i] && out@[i].end_time == repaired_sequence(data@)[2 * i + 1] by {
        assert(describes_pair(out@[i], data@, repaired_sequence(data@), i));
    }
    out
}

/// A non-decreasing subsequence is at most as long as the run to its last entry.
proof fn lemma_subsequence_bounded(d: Seq<i64>, s: Seq<int>)
    requires
        s.len() > 0,
        is_nondecreasing_subsequence(d, s),
    ensures
        s.len() <= run_len(d, s.last()),
    decreases s.len(),
{
    let i = s.last();
    lemma_best_run_positive(d, i, i);
    if s.len() > 1 {
        let t = s.drop_last();
        assert(is_nondecreasing_subsequence(d, t)) by {
            assert forall|x: int, y: int| 0 <= x < y < t.len() implies t[x] < t[y] && d[t[x]]
                <= d[t[y]] by {
                assert(s[x] < s[y]);
            }
        }
        lemma_subsequence_bounded(d, t);
        let j = t.last();
        assert(j == s[s.len() - 2] && i == s[s.len() - 1]);
        let p = lemma_best_run(d, i, i);
        assert(run_len(d, j) + 1 <= best_run(d, i, i));
    }
}

/// What is kept is a non-decreasing subsequence, and no other one is longer.
pub proof fn lemma_kept_is_longest(d: Seq<i64>, s: Seq<int>)
    requires
        d.len() > 0,
        is_nondecreasing_subsequence(d, s),
    ensures
        is_nondecreasing_subsequence(d, kept_indices(d)),
        s.len() <= kept_indices(d).len(),
{
    let e = lemma_kept_indices(d);
    lemma_best_run_positive(d, e, e);
    if s.len() > 0 {
        lemma_subsequence_bounded(d, s);
        assert(0 <= s[s.len() - 1] < d.len());
        assert(run_len(d, s.last()) <= run_len(d, e));
    }
}

/// Kept entries are left as they are.
pub proof fn lemma_kept_unchanged(d: Seq<i64>, k: int)
    requires
        0 <= k < d.len(),
        is_kept(d, k),
    ensures
        repaired_sequence(d)[k] == d[k],
{
}

/// The entries of `d` do not decrease.
pub open spec fn is_sorted(d: Seq<i64>) -> bool {
    forall|i: int, j: int| 0 <= i <= j < d.len() ==> d[i] <= d[j]
}

proof fn lemma_sorted_runs(d: Seq<i64>, i: int)
    requires
        is_sorted(d),
        0 <= i < d.len(),
    ensures
        run_len(d, i) == i + 1,
    decreases i,
{
    lemma_best_run_positive(d, i, i);
    if i > 0 {
        lemma_sorted_runs(d, i - 1);
        let p = lemma_best_run(d, i, i);
        assert(d[i - 1] <= d[i]);
        assert(run_len(d, i - 1) + 1 <= best_run(d, i, i));
    }
}

proof fn lemma_sorted_run_to(d: Seq<i64>, i: int, k: int)
    requires
        is_sorted(d),
        0 <= k <= i < d.len(),
    ensures
        run_to(d, i).contains(k),
    decreases i,
{
    lemma_sorted_runs(d, i);
    let s = run_to(d, i);
    lemma_run_to(d, i);
    if k == i {
        assert(s[s.len() - 1] == i);
    } else {
        lemma_predecessor(d, i);
        let p = predecessor(d, i);
        lemma_sorted_runs(d, p);
        lemma_sorted_run_to(d, i - 1, k);
        let t = run_to(d, i - 1);
        let x = choose|x: int| 0 <= x < t.len() && t[x] == k;
        assert(s[x] == k);
    }
}

/// A sequence that does not decrease is left as it is.
pub proof fn lemma_sorted_unchanged(d: Seq<i64>)
    requires
        is_sorted(d),
    ensures
        repaired_sequence(d) == d,
{
    assert forall|k: int| 0 <= k < d.len() implies #[trigger] repaired_sequence(d)[k] == d[k] by {
        let e = lemma_kept_indices(d);
        lemma_sorted_runs(d, e);
        lemma_sorted_runs(d, d.len() - 1);
        assert(run_len(d, d.len() - 1) <= run_len(d, e));
        lemma_sorted_run_to(d, e, k);
    }
    assert(repaired_sequence(d) =~= d);
}

/// Interpolation keeps the ends of every interpolated gap, and the gap has at most `2^51`
/// steps, or `2^53` over a distance that is a double-precision number.
pub open spec fn gaps_are_regular(d: Seq<i64>) -> bool {
    forall|k: int| #[trigger]
        is_interpolated(d, k) ==> {
            let left = d[kept_before(d, k)] as int;
            let right = d[kept_after(d, k)] as int;
            let steps = kept_after(d, k) - kept_before(d, k);
            is_end(left) && is_end(right) && (steps <= pow2(51) || (steps <= pow2(53) && is_exact(
                right - left,
            )))
        }
}

proof fn lemma_kept_before(d: Seq<i64>, k: int)
    requires
        0 <= k <= d.len(),
    ensures
        -1 <= kept_before(d, k) < k || (k == 0 && kept_before(d, k) == -1),
        kept_before(d, k) >= 0 ==> is_kept(d, kept_before(d, k)),
        forall|x: int| kept_before(d, k) < x < k ==> !is_kept(d, x),
    decreases k,
{
    if k > 0 && !is_kept(d, k - 1) {
        lemma_kept_before(d, k - 1);
    }
}

proof fn lemma_kept_after(d: Seq<i64>, k: int)
    requires
        0 <= k < d.len(),
    ensures
        k < kept_after(d, k) <= d.len(),
        kept_after(d, k) < d.len() ==> is_kept(d, kept_after(d, k)),
        forall|x: int| k < x < kept_after(d, k) ==> !is_kept(d, x),
    decreases d.len() - k,
{
    if k + 1 < d.len() && !is_kept(d, k + 1) {
        lemma_kept_after(d, k + 1);
    }
}

/// A repaired entry lies between its kept neighbours.
proof fn lemma_repaired_between(d: Seq<i64>, k: int)
    requires
        0 < d.len(),
        gaps_are_regular(d),
        0 <= k < d.len(),
        !is_kept(d, k),
    ensures
        kept_before(d, k) >= 0 ==> d[kept_before(d, k)] <= repaired(d, k),
        kept_after(d, k) < d.len() ==> repaired(d, k) <= d[kept_after(d, k)],
{
    let a = kept_before(d, k);
    let b = kept_after(d, k);
    lemma_kept_before(d, k);
    lemma_kept_after(d, k);
    if a >= 0 && b < d.len() {
        lemma_kept_ordered(d, a, b);
        if b - a - 1 > 2 {
            assert(is_interpolated(d, k));
            lemma_interpolated_ordered(d[a] as int, d[b] as int, b - a - 1, k - a, k - a);
        }
    }
}

/// Within one gap the repaired entries do not decrease.
proof fn lemma_gap_ordered(d: Seq<i64>, i: int, j: int)
    requires
        0 < d.len(),
        gaps_are_regular(d),
        0 <= i <= j < d.len(),
        forall|x: int| i <= x <= j ==> !is_kept(d, x),
    ensures
        repaired(d, i) <= repaired(d, j),
{
    let a = kept_before(d, i);
    let b = kept_after(d, j);
    lemma_kept_before(d, i);
    lemma_kept_after(d, j);
    lemma_gap(d, a + 1, b, i);
    lemma_gap(d, a + 1, b, j);
    if a < 0 && b >= d.len() {
        // Something is always kept.
        let e = lemma_kept_indices(d);
        lemma_best_run_positive(d, e, e);
        let s = kept_indices(d);
        assert(s.contains(s[0]));
        assert(0 <= s[0] < d.len());
        assert(is_kept(d, s[0]));
    } else if a >= 0 && b < d.len() {
        lemma_kept_ordered(d, a, b);
        if b - a - 1 > 2 {
            assert(is_interpolated(d, i));
            lemma_interpolated_ordered(d[a] as int, d[b] as int, b - a - 1, i - a, j - a);
        }
    }
}

/// A repaired sequence does not decrease, wherever the interpolated gaps are regular.
pub proof fn lemma_repaired_sorted(d: Seq<i64>)
    requires
        0 < d.len(),
        gaps_are_regular(d),
    ensures
        is_sorted(repaired_sequence(d)),
{
    let r = repaired_sequence(d);
    assert forall|i: int, j: int| 0 <= i <= j < r.len() implies r[i] <= r[j] by {
        lemma_repaired_range(d, i);
        lemma_repaired_range(d, j);
        // A kept entry at or after `i`, and one at or before `j`.
        let b = if is_kept(d, i) {
            i
        } else {
            kept_after(d, i)
        };
        let a = if is_kept(d, j) {
            j
        } else {
            kept_before(d, j)
        };
        lemma_kept_after(d, i);
        lemma_kept_before(d, j);
        if b <= j {
            assert(is_kept(d, b));
            assert(a >= b) by {
                if a < b {
                    assert(!is_kept(d, b));
                }
            }
            lemma_kept_ordered(d, b, a);
            if !is_kept(d, i) {
                lemma_repaired_between(d, i);
            }
            if !is_kept(d, j) {
                lemma_repaired_between(d, j);
            }
        } else {
            assert(forall|x: int| i <= x <= j ==> !is_kept(d, x));
            lemma_gap_ordered(d, i, j);
        }
    }
}

proof fn lemma_repaired_range(d: Seq<i64>, k: int)
    ensures
        i64::MIN <= repaired(d, k) <= i64::MAX,
{
    let a = kept_before(d, k);
    let b = kept_after(d, k);
    lemma_interpolated_range(d[a] as int, d[b] as int, b - a - 1, k - a);
}

/// Repairing a second time changes nothing.
pub proof fn lemma_repair_idempotent(d: Seq<i64>)
    requires
        0 < d.len(),
        gaps_are_regular(d),
    ensures
        repaired_sequence(repaired_sequence(d)) == repaired_sequence(d),
{
    lemma_repaired_sorted(d);
    lemma_sorted_unchanged(repaired_sequence(d));
}

/// Timestamps of at most `2^52` in magnitude can be repaired. Repaired, they never go
/// back, and repairing them a second time changes nothing.
pub proof fn lemma_small_timestamps(d: Seq<i64>)
    requires
        0 < d.len() <= pow2(53),
        forall|k: int| 0 <= k < d.len() ==> -pow2(52) <= #[trigger] d[k] <= pow2(52),
    ensures
        spans_fit(d),
        is_sorted(repaired_sequence(d)),
        repaired_sequence(repaired_sequence(d)) == repaired_sequence(d),
{
    lemma2_to64();
    lemma2_to64_rest();
    assert forall|k: int| #[trigger] is_interpolated(d, k) implies ({
        let left = d[kept_before(d, k)] as int;
        let right = d[kept_after(d, k)] as int;
        right - left <= i64::MAX && is_exact(left) && is_exact(right) && is_exact(right - left)
            && kept_after(d, k) - kept_before(d, k) <= pow2(53)
    }) by {
        let a = kept_before(d, k);
        let b = kept_after(d, k);
        lemma_kept_before(d, k);
        lemma_kept_after(d, k);
        lemma_kept_ordered(d, a, b);
        lemma_small_is_exact(d[a] as int);
        lemma_small_is_exact(d[b] as int);
        lemma_small_is_exact(d[b] - d[a]);
    }
    assert(gaps_are_regular(d));
    lemma_repaired_sorted(d);
    lemma_repair_idempotent(d);
}

/// Timestamps that interpolation keeps never go back once they are repaired, and repairing
/// them a second time changes nothing.
pub proof fn lemma_kept_ends_in_order(d: Seq<i64>)
    requires
        0 < d.len() <= pow2(51),
        forall|k: int| 0 <= k < d.len() ==> is_end(#[trigger] d[k] as int),
    ensures
        is_sorted(repaired_sequence(d)),
        repaired_sequence(repaired_sequence(d)) == repaired_sequence(d),
{
    assert forall|k: int| #[trigger] is_interpolated(d, k) implies ({
        let left = d[kept_before(d, k)] as int;
        let right = d[kept_after(d, k)] as int;
        is_end(left) && is_end(right) && kept_after(d, k) - kept_before(d, k) <= pow2(51)
    }) by {
        lemma_kept_before(d, k);
        lemma_kept_after(d, k);
    }
    assert(gaps_are_regular(d));
    lemma_repaired_sorted(d);
    lemma_repair_idempotent(d);
}

/// Timestamps can be repaired where any two of them are at most `i64::MAX` apart.
pub proof fn lemma_spans_of_close(d: Seq<i64>)
    requires
        forall|i: int, j: int|
            0 <= i < d.len() && 0 <= j < d.len() ==> #[trigger] d[j] - #[trigger] d[i] <= i64::MAX,
    ensures
        spans_fit(d),
{
    assert forall|k: int| #[trigger] is_interpolated(d, k) implies d[kept_after(d, k)]
        - d[kept_before(d, k)] <= i64::MAX by {
        lemma_kept_before(d, k);
        lemma_kept_after(d, k);
    }
}

/// Timestamps that are not negative meet the condition of the repair.
pub proof fn lemma_spans_of_nonnegative(d: Seq<i64>)
    requires
        forall|k: int| 0 <= k < d.len() ==> #[trigger] d[k] >= 0,
    ensures
        spans_fit(d),
{
    lemma_spans_of_close(d);
}

/// In the run to an entry, every entry is the first that can stand before the next one.
proof fn lemma_run_to_steps(d: Seq<i64>, i: int, x: int)
    requires
        0 <= i < d.len(),
        0 <= x < run_to(d, i).len(),
    ensures
        run_len(d, run_to(d, i)[x]) == x + 1,
        x + 1 < run_to(d, i).len() ==> is_predecessor(d, run_to(d, i)[x], run_to(d, i)[x + 1]),
    decreases i,
{
    lemma_best_run_positive(d, i, i);
    lemma_run_to(d, i);
    let s = run_to(d, i);
    if run_len(d, i) > 1 {
        lemma_predecessor(d, i);
        let j = predecessor(d, i);
        lemma_run_to(d, j);
        let t = run_to(d, j);
        assert(s == t.push(i));
        if x < t.len() {
            lemma_run_to_steps(d, j, x);
            assert(s[x] == t[x]);
            if x + 1 < t.len() {
                assert(s[x + 1] == t[x + 1]);
            } else {
                assert(t[x] == t.last());
                assert(s[x + 1] == i);
            }
        } else {
            assert(s[x] == i);
        }
    } else {
        assert(s[x] == i);
    }
}

/// Which entries are kept: a longest non-decreasing subsequence, and of these the one
/// whose indices are smallest, read from the last one to the first.
pub proof fn lemma_kept_is_first_longest(d: Seq<i64>, t: Seq<int>, x: int)
    requires
        0 <= x < t.len(),
        forall|i: int| 0 <= i < t.len() ==> 0 <= #[trigger] t[i] < d.len(),
        forall|i: int, j: int| 0 <= i < j < t.len() ==> t[i] < t[j] && d[t[i]] <= d[t[j]],
    ensures
        t.len() <= kept_indices(d).len(),
        t.len() == kept_indices(d).len() && (forall|y: int|
            x < y < t.len() ==> #[trigger] t[y] == kept_indices(d)[y]) ==> kept_indices(d)[x]
            <= t[x],
{
    assert(0 <= t[x] < d.len());
    assert(is_nondecreasing_subsequence(d, t));
    lemma_kept_is_longest(d, t);
    let e = lemma_kept_indices(d);
    let s = kept_indices(d);
    if t.len() == s.len() && (forall|y: int| x < y < t.len() ==> #[trigger] t[y] == s[y]) {
        let start = t.take(x + 1);
        assert(is_nondecreasing_subsequence(d, start)) by {
            assert forall|a: int, b: int| 0 <= a < b < start.len() implies start[a] < start[b]
                && d[start[a]] <= d[start[b]] by {
                assert(t[a] < t[b]);
            }
        }
        lemma_subsequence_bounded(d, start);
        assert(start.last() == t[x]);
        lemma_run_to_steps(d, e, x);
        if x + 1 < s.len() {
            let i = s[x + 1];
            assert(t[x + 1] == i);
            assert(t[x] < t[x + 1]);
            lemma_run_to_steps(d, e, x + 1);
            let p = lemma_best_run(d, i, i);
            assert(run_len(d, t[x]) + 1 <= best_run(d, i, i));
            assert(can_precede(d, t[x], i));
            assert(!(t[x] < s[x]));
        } else {
            lemma_run_to(d, e);
            assert(s[x] == e);
            assert(run_len(d, e) == s.len());
            assert(run_len(d, t[x]) <= run_len(d, e));
            if t[x] < e {
                assert(run_len(d, t[x]) < run_len(d, e));
            }
        }
    }
}

/// Between two kept entries with none kept between them, every entry of a gap of more
/// than two lies within 2 of the straight line from the one to the other, where these
/// are at most `2^40` in magnitude, and else is off by one at most, and by one part in
/// `2^49` of the magnitude of the earlier entry and of the distance between the two;
/// beyond the line, by that part only, where the earlier entry is not negative. An
/// entry of a gap of one or two takes the value of the nearer kept entry, the earlier one
/// where both are equally near.
pub proof fn lemma_gap_is_filled(d: Seq<i64>, a: int, b: int, j: int)
    requires
        d.len() > 0,
        is_kept(d, a),
        is_kept(d, b),
        forall|x: int| a < x < b ==> !is_kept(d, x),
        1 <= j <= b - a - 1,
    ensures
        ({
            let n = b - a - 1;
            let v = repaired_sequence(d)[a + j] as int;
            let off = v * (n + 1) - (d[a] * (n + 1) + (d[b] - d[a]) * j);
            &&& 0 <= a && b < d.len() && d[a] <= d[b]
            &&& n <= 2 && j <= n + 1 - j ==> v == d[a]
            &&& n <= 2 && j > n + 1 - j ==> v == d[b]
            &&& n > 2 && -0x100_0000_0000 <= d[a] && d[b] <= 0x100_0000_0000 ==> -2 * (n + 1) <= off
                <= 2 * (n + 1)
            &&& n > 2 ==> {
                let m = (if d[a] >= 0 {
                    d[a] as int
                } else {
                    -d[a]
                }) + (d[b] - d[a]);
                &&& (off - (n + 1)) * 0x2_0000_0000_0000 <= m * (n + 1)
                &&& (-off - (n + 1)) * 0x2_0000_0000_0000 <= m * (n + 1)
                &&& d[a] >= 0 ==> off * 0x2_0000_0000_0000 <= m * (n + 1)
            }
        }),
{
    let n = b - a - 1;
    lemma_kept_ordered(d, a, b);
    lemma_gap(d, a + 1, b, a + j);
    lemma_repaired_range(d, a + j);
    if n > 2 {
        lemma_interpolated_near(d[a] as int, d[b] as int, n, j);
        if -0x100_0000_0000 <= d[a] && d[b] <= 0x100_0000_0000 {
            lemma_interpolated_within_two(d[a] as int, d[b] as int, n, j);
        }
    }
}

/// Where the distance between two kept entries is a whole number of steps, one for every
/// place, the entries of a gap of more than two between them are those steps.
pub proof fn lemma_even_gap_is_exact(d: Seq<i64>, a: int, b: int, j: int, step: int)
    requires
        d.len() > 0,
        is_kept(d, a),
        is_kept(d, b),
        forall|x: int| a < x < b ==> !is_kept(d, x),
        1 <= j <= b - a - 1,
        2 < b - a - 1 < 0x20_0000_0000_0000,
        d[b] - d[a] == step * (b - a),
        -0x10_0000_0000_0000 <= d[a],
        d[b] <= 0x10_0000_0000_0000,
    ensures
        repaired_sequence(d)[a + j] == d[a] + step * j,
{
    lemma_kept_ordered(d, a, b);
    lemma_gap(d, a + 1, b, a + j);
    assert(step >= 0) by (nonlinear_arith)
        requires
            step * (b - a) >= 0,
            b - a > 0,
    ;
    lemma_even_steps_are_exact(d[a] as int, step, b - a - 1, j);
    lemma_repaired_range(d, a + j);
}

/// What stands before the first kept entry takes its value, and what stands after the
/// last one takes that of the last.
pub proof fn lemma_ends_are_filled(d: Seq<i64>, k: int)
    requires
        0 <= k < d.len(),
    ensures
        kept_indices(d).len() > 0,
        k < kept_indices(d)[0] ==> repaired_sequence(d)[k] == d[kept_indices(d)[0]],
        k > kept_indices(d).last() ==> repaired_sequence(d)[k] == d[kept_indices(d).last()],
{
    let s = kept_indices(d);
    let e = lemma_kept_indices(d);
    lemma_best_run_positive(d, e, e);
    let (first, last) = (s[0], s[s.len() - 1]);
    assert(s.contains(first) && s.contains(last));
    assert forall|x: int| is_kept(d, x) implies first <= x <= last by {
        let i = choose|i: int| 0 <= i < s.len() && s[i] == x;
        assert(i > 0 ==> s[0] < s[i]);
        assert(i < s.len() - 1 ==> s[i] < s[s.len() - 1]);
    }
    assert(0 <= s[0] < d.len() && 0 <= s[s.len() - 1] < d.len());
    if k < first {
        lemma_gap(d, 0, first, k);
    }
    if k > last {
        lemma_gap(d, last + 1, d.len() as int, k);
    }
}

} // verus!

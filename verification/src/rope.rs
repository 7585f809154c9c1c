//! Which position stream drives which rotary dimension, and the table layout.

use crate::tensor::{at, flat, lemma_at, lemma_place};
use vstd::prelude::*;

verus! {

/// The number of dimensions of the first `n` sections.
pub open spec fn section_end(sections: Seq<usize>, n: int) -> int
    decreases n,
{
    if n <= 0 {
        0
    } else {
        section_end(sections, n - 1) + sections[n - 1]
    }
}

/// Dimension `k` lies in section `d`; dimensions past the last section belong to it.
pub open spec fn lies_in_section(sections: Seq<usize>, k: int, d: int) -> bool {
    &&& 0 <= d < sections.len()
    &&& section_end(sections, d) <= k
    &&& k < section_end(sections, d + 1) || d == sections.len() - 1
}

/// Assigns dimensions to sections, section after section.
pub fn build_contiguous_dim_map(s: &[usize], t: usize) -> (m: Vec<usize>)
    requires
        s@.len() > 0 || t == 0,
    ensures
        m@.len() == t,
        forall|k: int| 0 <= k < t ==> lies_in_section(s@, k, #[trigger] m@[k] as int),
{
    let mut m: Vec<usize> = Vec::with_capacity(t);
    for d in 0..s.len()
        invariant
            m@.len() <= t,
            m@.len() == t || m@.len() == section_end(s@, d as int),
            m@.len() <= section_end(s@, d as int),
            forall|k: int| 0 <= k < m@.len() ==> lies_in_section(s@, k, #[trigger] m@[k] as int),
    {
        let size: usize = s[d];
        let ghost start = section_end(s@, d as int);
        for i in 0..size
            invariant
                m@.len() <= t,
                d < s@.len(),
                size == s@[d as int],
                start == section_end(s@, d as int),
                m@.len() == t || m@.len() == start + i,
                m@.len() <= start + i,
                forall|k: int|
                    0 <= k < m@.len() ==> lies_in_section(s@, k, #[trigger] m@[k] as int),
        {
            if m.len() < t {
                m.push(d);
            }
        }
    }
    while m.len() < t
        invariant
            s@.len() > 0 || t == 0,
            m@.len() <= t,
            m@.len() < t ==> m@.len() >= section_end(s@, s@.len() as int),
            forall|k: int| 0 <= k < m@.len() ==> lies_in_section(s@, k, #[trigger] m@[k] as int),
        decreases t - m@.len(),
    {
        proof {
            assert(section_end(s@, s@.len() - 1) <= section_end(s@, s@.len() as int));
        }
        m.push(s.len() - 1);
    }
    m
}

/// The sections of more than `round` dimensions among the first `n`.
pub open spec fn round_sections(sections: Seq<usize>, round: int, n: int) -> Seq<int>
    decreases n,
{
    if n <= 0 {
        Seq::empty()
    } else {
        let rest = round_sections(sections, round, n - 1);
        if sections[n - 1] > round {
            rest.push(n - 1)
        } else {
            rest
        }
    }
}

/// The sections in turn, `n` rounds long: in every round each section that has a
/// dimension left.
pub open spec fn rounds(sections: Seq<usize>, n: int) -> Seq<int>
    decreases n,
{
    if n <= 0 {
        Seq::empty()
    } else {
        rounds(sections, n - 1) + round_sections(sections, n - 1, sections.len() as int)
    }
}

/// At most the first `t` elements.
pub open spec fn at_most_first(s: Seq<int>, t: int) -> Seq<int> {
    if s.len() <= t {
        s
    } else {
        s.take(t)
    }
}

/// Dimensions assigned to sections in turn: at most `t` of them, and fewer where
/// the sections are smaller together.
pub open spec fn interleaved(sections: Seq<usize>, t: int) -> Seq<int> {
    at_most_first(rounds(sections, t), t)
}

proof fn lemma_round_len(sections: Seq<usize>, round: int, n: int)
    requires
        0 <= n <= sections.len(),
    ensures
        round_sections(sections, round, n).len() <= n,
        round_sections(sections, round, n).len() == 0 ==> round_sections(
            sections,
            round + 1,
            n,
        ).len() == 0,
    decreases n,
{
    if n > 0 {
        lemma_round_len(sections, round, n - 1);
    }
}

/// After a round without sections there are no more.
proof fn lemma_rounds_stop(sections: Seq<usize>, r: int, n: int)
    requires
        0 <= r < n,
        round_sections(sections, r, sections.len() as int).len() == 0,
    ensures
        rounds(sections, n) == rounds(sections, r),
        round_sections(sections, n - 1, sections.len() as int).len() == 0,
    decreases n,
{
    let all = sections.len() as int;
    if n - 1 > r {
        lemma_rounds_stop(sections, r, n - 1);
        lemma_round_len(sections, n - 2, all);
    }
    assert(round_sections(sections, n - 1, all) =~= Seq::empty());
    assert(rounds(sections, n) =~= rounds(sections, n - 1));
}

proof fn lemma_rounds_prefix(sections: Seq<usize>, r: int, n: int)
    requires
        0 <= r <= n,
    ensures
        rounds(sections, r).len() <= rounds(sections, n).len(),
        rounds(sections, n).take(rounds(sections, r).len() as int) == rounds(sections, r),
    decreases n,
{
    let a = rounds(sections, r);
    if r < n {
        lemma_rounds_prefix(sections, r, n - 1);
        let b = rounds(sections, n - 1);
        assert(rounds(sections, n).take(a.len() as int) =~= b.take(a.len() as int));
    } else {
        assert(a.take(a.len() as int) =~= a);
    }
}

/// Assigns dimensions to sections in turn.
pub fn build_interleaved_dim_map(s: &[usize], t: usize) -> (m: Vec<usize>)
    ensures
        m@.map_values(|d: usize| d as int) == interleaved(s@, t as int),
        m@.len() <= t,
        forall|k: int| 0 <= k < m@.len() ==> #[trigger] m@[k] < s@.len(),
{
    let n: usize = s.len();
    let mut m: Vec<usize> = Vec::with_capacity(t);
    let mut round: usize = 0;
    let mut more: bool = t > 0;
    let ghost all = n as int;
    proof {
        assert(m@.map_values(|d: usize| d as int) =~= Seq::empty());
        assert(at_most_first(rounds(s@, 0), t as int) =~= Seq::empty());
    }
    while more
        invariant
            n == s@.len(),
            all == n,
            round <= m@.len() <= t,
            m@.map_values(|d: usize| d as int) == at_most_first(rounds(s@, round as int), t as int),
            forall|k: int| 0 <= k < m@.len() ==> #[trigger] m@[k] < n,
            more ==> m@.len() < t,
            !more && m@.len() < t ==> m@.map_values(|d: usize| d as int) == interleaved(
                s@,
                t as int,
            ),
            !more && m@.len() == t ==> rounds(s@, round as int).len() >= t,
        decreases t - m@.len() + (if more { 1int } else { 0int }),
    {
        let before: usize = m.len();
        let ghost start = rounds(s@, round as int);
        proof {
            assert(m@.map_values(|d: usize| d as int).len() == m@.len());
            assert(start + round_sections(s@, round as int, 0) =~= start);
        }
        for d in 0..n
            invariant
                n == s@.len(),
                round <= before <= m@.len() <= t,
                before < t,
                start.len() == before,
                m@.map_values(|d: usize| d as int) == at_most_first(
                    start + round_sections(s@, round as int, d as int),
                    t as int,
                ),
                forall|k: int| 0 <= k < m@.len() ==> #[trigger] m@[k] < n,
        {
            let ghost part = start + round_sections(s@, round as int, d as int);
            let ghost longer = start + round_sections(s@, round as int, d + 1);
            proof {
                assert(m@.push(d).map_values(|d: usize| d as int) =~= m@.map_values(
                    |d: usize| d as int,
                ).push(d as int));
                if s@[d as int] > round {
                    assert(longer =~= part.push(d as int));
                    if part.len() >= t {
                        assert(longer.take(t as int) =~= part.take(t as int));
                        assert(part.len() == t ==> part.take(t as int) =~= part);
                    }
                } else {
                    assert(longer =~= part);
                }
            }
            if m.len() < t && s[d] > round {
                m.push(d);
            }
        }
        proof {
            assert(rounds(s@, round + 1) == start + round_sections(s@, round as int, all));
            if m@.len() == before {
                let rs = round_sections(s@, round as int, all);
                assert(rs.len() == 0);
                lemma_rounds_stop(s@, round as int, t as int);
            }
        }
        if m.len() == before {
            more = false;
        } else {
            round = round + 1;
            more = m.len() < t;
        }
    }
    proof {
        if m@.len() == t {
            if t > 0 {
                lemma_rounds_prefix(s@, round as int, t as int);
                let a = rounds(s@, round as int);
                let b = rounds(s@, t as int);
                assert(b.take(a.len() as int) == a);
                assert(at_most_first(a, t as int) =~= a.take(t as int));
                assert(at_most_first(b, t as int) =~= b.take(t as int));
                assert(b.take(t as int) =~= b.take(a.len() as int).take(t as int));
            }
        }
    }
    m
}

/// The position that drives dimension `j` of step `t`.
pub fn rotary_positions(
    streams: &[Vec<i64>],
    dims: &[usize],
    steps: usize,
) -> (out: Vec<i64>)
    requires
        forall|d: int| 0 <= d < streams@.len() ==> (#[trigger] streams@[d])@.len() >= steps,
        forall|j: int| 0 <= j < dims@.len() ==> #[trigger] dims@[j] < streams@.len(),
        steps * dims@.len() <= usize::MAX,
    ensures
        out@.len() == steps * dims@.len(),
        forall|t: int, j: int|
            0 <= t < steps && 0 <= j < dims@.len() ==> #[trigger] out@[at(dims@.len() as int, t, j)]
                == streams@[dims@[j] as int]@[t],
{
    let width: usize = dims.len();
    let total: usize = steps * width;
    let mut out: Vec<i64> = Vec::with_capacity(total);
    for k in 0..total
        invariant
            width == dims@.len(),
            total == steps * width,
            forall|d: int| 0 <= d < streams@.len() ==> (#[trigger] streams@[d])@.len() >= steps,
            forall|j: int| 0 <= j < dims@.len() ==> #[trigger] dims@[j] < streams@.len(),
            out@.len() == k,
            forall|p: int|
                0 <= p < k ==> #[trigger] out@[p] == streams@[dims@[p % (width as int)] as int]@[p
                    / (width as int)],
    {
        proof {
            lemma_place(steps as int, width as int, k as int);
            assert(dims@[k as int % width as int] < streams@.len());
        }
        let t: usize = k / width;
        let j: usize = k % width;
        let d: usize = dims[j];
        assert(streams@[d as int]@.len() >= steps);
        out.push(streams[d][t]);
    }
    assert forall|t: int, j: int| 0 <= t < steps && 0 <= j < dims@.len() implies #[trigger] out@[at(
        dims@.len() as int,
        t,
        j,
    )] == streams@[dims@[j] as int]@[t] by {
        lemma_at(steps as int, width as int, t, j);
    }
    out
}

/// An element of a rotary table: the values of a step, twice one after the other,
/// and `zero` in an odd last column.
pub open spec fn doubled<T>(values: Seq<T>, half: int, width: int, zero: T, k: int) -> T {
    let (t, c) = (k / width, k % width);
    if c < half {
        values[at(half, t, c)]
    } else if c < 2 * half {
        values[at(half, t, c - half)]
    } else {
        zero
    }
}

/// Builds a rotary table of `width` columns from half as many values for a step.
pub fn double_columns<T: Copy>(values: &[T], steps: usize, width: usize, zero: T) -> (out: Vec<T>)
    requires
        values@.len() == steps * (width / 2),
        steps * width <= usize::MAX,
    ensures
        out@.len() == steps * width,
        forall|k: int|
            0 <= k < out@.len() ==> #[trigger] out@[k] == doubled(
                values@,
                width as int / 2,
                width as int,
                zero,
                k,
            ),
{
    let half: usize = width / 2;
    let total: usize = steps * width;
    let limit: usize = values.len();
    let mut out: Vec<T> = Vec::with_capacity(total);
    for k in 0..total
        invariant
            half == width / 2,
            total == steps * width,
            limit == values@.len() == steps * half,
            out@.len() == k,
            forall|p: int|
                0 <= p < k ==> #[trigger] out@[p] == doubled(
                    values@,
                    half as int,
                    width as int,
                    zero,
                    p,
                ),
    {
        proof {
            lemma_place(steps as int, width as int, k as int);
        }
        let t: usize = k / width;
        let c: usize = k % width;
        let value: T = if c < half {
            proof {
                lemma_at(steps as int, half as int, t as int, c as int);
            }
            values[flat(half, t, c, Ghost(limit as int))]
        } else if c < 2 * half {
            proof {
                lemma_at(steps as int, half as int, t as int, c - half);
            }
            values[flat(half, t, c - half, Ghost(limit as int))]
        } else {
            zero
        };
        out.push(value);
    }
    out
}

proof fn lemma_round_members(sections: Seq<usize>, round: int, n: int)
    requires
        0 <= n <= sections.len(),
    ensures
        ({
            let m = round_sections(sections, round, n);
            &&& forall|k: int|
                0 <= k < m.len() ==> 0 <= #[trigger] m[k] < n && round < sections[m[k]]
            &&& forall|k: int, l: int| 0 <= k < l < m.len() ==> m[k] < m[l]
            &&& forall|d: int|
                0 <= d < n && round < #[trigger] sections[d] ==> exists|k: int|
                    0 <= k < m.len() && #[trigger] m[k] == d
        }),
    decreases n,
{
    if n > 0 {
        lemma_round_members(sections, round, n - 1);
        let rest = round_sections(sections, round, n - 1);
        let m = round_sections(sections, round, n);
        assert forall|k: int| 0 <= k < m.len() implies 0 <= #[trigger] m[k] < n && round
            < sections[m[k]] by {
            assert(k < rest.len() ==> m[k] == rest[k]);
        }
        assert forall|k: int, l: int| 0 <= k < l < m.len() implies m[k] < m[l] by {
            assert(m[k] == rest[k]);
            assert(l < rest.len() ==> m[l] == rest[l]);
        }
        assert forall|d: int| 0 <= d < n && round < #[trigger] sections[d] implies exists|k: int|
            0 <= k < m.len() && #[trigger] m[k] == d by {
            if d < n - 1 {
                let k = choose|k: int| 0 <= k < rest.len() && #[trigger] rest[k] == d;
                assert(m[k] == d);
            } else {
                assert(m[m.len() - 1] == d);
            }
        }
    }
}

/// In turn `r`, section `d` takes a dimension.
pub open spec fn takes_in_turn(m: Seq<int>, turns: Seq<int>, r: int, d: int) -> bool {
    exists|k: int| 0 <= k < m.len() && #[trigger] m[k] == d && turns[k] == r
}

/// Sections take dimensions in turns: in every turn each section that is not used up takes
/// one, the first section first, and so in turn after turn. The turns are returned.
pub proof fn lemma_sections_take_turns(sections: Seq<usize>, n: int) -> (turns: Seq<int>)
    requires
        n >= 0,
    ensures
        ({
            let m = rounds(sections, n);
            &&& turns.len() == m.len()
            &&& forall|k: int|
                0 <= k < m.len() ==> 0 <= #[trigger] m[k] < sections.len() && 0 <= turns[k] < n
                    && turns[k] < sections[m[k]]
            &&& forall|k: int, l: int|
                0 <= k < l < m.len() ==> turns[k] < turns[l] || (turns[k] == turns[l] && m[k]
                    < m[l])
            &&& forall|r: int, d: int|
                0 <= r < n && 0 <= d < sections.len() && r < sections[d]
                    ==> #[trigger] takes_in_turn(m, turns, r, d)
        }),
    decreases n,
{
    if n == 0 {
        Seq::empty()
    } else {
        let before = lemma_sections_take_turns(sections, n - 1);
        let rest = rounds(sections, n - 1);
        let last = round_sections(sections, n - 1, sections.len() as int);
        lemma_round_members(sections, n - 1, sections.len() as int);
        let turns = before + Seq::new(last.len(), |k: int| n - 1);
        let m = rounds(sections, n);
        assert(m == rest + last);
        assert forall|k: int| 0 <= k < m.len() implies 0 <= #[trigger] m[k] < sections.len() && 0
            <= turns[k] < n && turns[k] < sections[m[k]] by {
            if k < rest.len() {
                assert(m[k] == rest[k] && turns[k] == before[k]);
            } else {
                assert(m[k] == last[k - rest.len()]);
            }
        }
        assert forall|k: int, l: int| 0 <= k < l < m.len() implies turns[k] < turns[l] || (turns[k]
            == turns[l] && m[k] < m[l]) by {
            if l < rest.len() {
                assert(m[k] == rest[k] && m[l] == rest[l]);
                assert(turns[k] == before[k] && turns[l] == before[l]);
            } else if k < rest.len() {
                assert(m[k] == rest[k] && turns[k] == before[k]);
            } else {
                assert(m[k] == last[k - rest.len()] && m[l] == last[l - rest.len()]);
            }
        }
        assert forall|r: int, d: int|
            0 <= r < n && 0 <= d < sections.len() && r < sections[d] implies #[trigger] takes_in_turn(
            m,
            turns,
            r,
            d,
        ) by {
            if r < n - 1 {
                assert(takes_in_turn(rest, before, r, d));
                let k = choose|k: int|
                    0 <= k < rest.len() && #[trigger] rest[k] == d && before[k] == r;
                assert(m[k] == d && turns[k] == r);
            } else {
                let k = choose|k: int| 0 <= k < last.len() && #[trigger] last[k] == d;
                assert(m[rest.len() + k] == d && turns[rest.len() + k] == r);
            }
        }
        turns
    }
}

/// A section ends where the sizes up to it add up to.
pub proof fn lemma_sections_add_up(sections: Seq<usize>, n: int)
    requires
        0 <= n <= sections.len(),
    ensures
        section_end(sections, n) == sections.take(n).fold_left(
            0int,
            |sum: int, size: usize| sum + size,
        ),
    decreases n,
{
    reveal_with_fuel(Seq::fold_left, 2);
    if n > 0 {
        lemma_sections_add_up(sections, n - 1);
        assert(sections.take(n).drop_last() =~= sections.take(n - 1));
        assert(sections.take(n).last() == sections[n - 1]);
    }
}

/// Row `t` of the doubled table holds row `t` of the table twice, and zero in a column
/// that is left.
pub proof fn lemma_row_is_doubled<T>(
    values: Seq<T>,
    steps: int,
    width: int,
    zero: T,
    t: int,
    c: int,
)
    requires
        0 <= t < steps,
        0 <= c < width,
    ensures
        c < width / 2 ==> doubled(values, width / 2, width, zero, t * width + c) == values[t * (width
            / 2) + c],
        width / 2 <= c < 2 * (width / 2) ==> doubled(values, width / 2, width, zero, t * width + c)
            == values[t * (width / 2) + c - width / 2],
        2 * (width / 2) <= c ==> doubled(values, width / 2, width, zero, t * width + c) == zero,
{
    lemma_at(steps, width, t, c);
}

} // verus!

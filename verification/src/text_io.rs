//! Transcripts as they are stored.

use crate::chars::{lemma_lines_of_text, lines, lines_of, push_text, texts, trim, trimmed};
use vstd::prelude::*;

verus! {

/// The lines of a source without white space at their ends; empty ones are left
/// out.
pub open spec fn clean_lines(source: Seq<char>) -> Seq<Seq<char>> {
    lines_of(source).map_values(|line: Seq<char>| trimmed(line)).filter(
        |line: Seq<char>| line.len() > 0,
    )
}

/// Texts joined by single spaces.
pub open spec fn joined(parts: Seq<Seq<char>>) -> Seq<char>
    decreases parts.len(),
{
    if parts.len() == 0 {
        Seq::empty()
    } else if parts.len() == 1 {
        parts[0]
    } else {
        joined(parts.drop_last()) + " "@ + parts.last()
    }
}

/// Brings a transcript onto one line: its lines, without white space at their
/// ends and without empty ones, joined by single spaces.
pub fn clean_text(source: &str) -> (r: String)
    ensures
        r@ == joined(clean_lines(source@)),
{
    let all: Vec<String> = lines(source);
    let n: usize = all.len();
    let mut r: String = String::new();
    let mut first: bool = true;
    let ghost ts = lines_of(source@).map_values(|line: Seq<char>| trimmed(line));
    let ghost keep = |line: Seq<char>| line.len() > 0;
    proof {
        reveal(Seq::filter);
        assert(ts.take(0).filter(keep) =~= Seq::empty());
        assert(r@ =~= Seq::empty());
    }
    for i in 0..n
        invariant
            n == all@.len(),
            texts(all@) == lines_of(source@),
            ts == lines_of(source@).map_values(|line: Seq<char>| trimmed(line)),
            keep == (|line: Seq<char>| line.len() > 0),
            r@ == joined(ts.take(i as int).filter(keep)),
            first <==> ts.take(i as int).filter(keep).len() == 0,
    {
        let ghost before = ts.take(i as int).filter(keep);
        let line: String = trim(all[i].as_str());
        proof {
            assert(texts(all@)[i as int] == all@[i as int]@);
            assert(ts[i as int] == line@);
            let longer = ts.take(i + 1);
            assert(longer.drop_last() =~= ts.take(i as int));
            reveal(Seq::filter);
            assert(longer.last() == line@);
            assert(before.push(line@).drop_last() =~= before);
        }
        let empty: bool = crate::chars::to_chars(line.as_str()).len() == 0;
        if !empty {
            if !first {
                push_text(&mut r, " ");
            }
            push_text(&mut r, line.as_str());
            proof {
                if before.len() == 0 {
                    assert(r@ =~= line@);
                }
            }
            first = false;
        }
    }
    assert(ts.take(n as int) =~= ts);
    r
}

/// A transcript is cleaned line by line: a line adds what is left of it without white
/// space at its ends, before a space where more follows, and a blank line adds nothing.
pub proof fn lemma_clean_text_by_line(line: Seq<char>, rest: Seq<char>)
    requires
        !line.contains('\n'),
        line.len() == 0 || line.last() != '\r',
    ensures
        ({
            let first = trimmed(line);
            let more = joined(clean_lines(rest));
            joined(clean_lines(line + seq!['\n'] + rest)) == if first.len() == 0 {
                more
            } else if more.len() == 0 {
                first
            } else {
                first + " "@ + more
            }
        }),
        joined(clean_lines(line)) == trimmed(line),
{
    lemma_lines_of_text(line, rest);
    let f = |line: Seq<char>| trimmed(line);
    let keep = |line: Seq<char>| line.len() > 0;
    let s = line + seq!['\n'] + rest;
    let ts = lines_of(rest).map_values(f);
    assert(lines_of(s).map_values(f) =~= seq![trimmed(line)] + ts);
    Seq::filter_distributes_over_add(seq![trimmed(line)], ts, keep);
    reveal(Seq::filter);
    let one = seq![trimmed(line)];
    assert(one.drop_last() =~= Seq::empty());
    assert(one.drop_last().filter(keep) =~= Seq::empty());
    let kept = one.filter(keep);
    let parts = ts.filter(keep);
    if trimmed(line).len() == 0 {
        assert(kept =~= Seq::empty());
        assert(kept + parts =~= parts);
    } else {
        assert(kept =~= seq![trimmed(line)]);
        assert forall|i: int| 0 <= i < parts.len() implies (#[trigger] parts[i]).len() > 0 by {
            ts.lemma_filter_pred(keep, i);
        }
        lemma_joined_starts(trimmed(line), parts);
    }
    if line.len() > 0 {
        assert(lines_of(line).map_values(f) =~= one);
    } else {
        assert(lines_of(line).map_values(f) =~= Seq::empty());
        assert(Seq::<Seq<char>>::empty().filter(keep) =~= Seq::empty());
        assert(trimmed(line) =~= Seq::empty());
    }
    assert(joined(kept) =~= trimmed(line));
}

proof fn lemma_joined_starts(first: Seq<char>, parts: Seq<Seq<char>>)
    requires
        first.len() > 0,
        forall|i: int| 0 <= i < parts.len() ==> (#[trigger] parts[i]).len() > 0,
    ensures
        joined(parts).len() == 0 <==> parts.len() == 0,
        parts.len() == 0 ==> joined(seq![first] + parts) == first,
        parts.len() > 0 ==> joined(seq![first] + parts) == first + " "@ + joined(parts),
    decreases parts.len(),
{
    let all = seq![first] + parts;
    if parts.len() > 0 {
        let shorter = parts.drop_last();
        assert forall|i: int| 0 <= i < shorter.len() implies (#[trigger] shorter[i]).len() > 0 by {
            assert(shorter[i] == parts[i]);
        }
        lemma_joined_starts(first, shorter);
        assert(all.drop_last() =~= seq![first] + shorter);
        assert(all.last() == parts.last());
        assert(parts[parts.len() - 1].len() > 0);
        assert(joined(all) =~= first + " "@ + joined(parts));
    }
}

} // verus!

//! Lists of alignments.
//!
//! A manifest has a job on every line. Relative paths of audio and text start at the
//! directory of the manifest, relative outputs at the output directory.

use crate::chars::{
    copy_text, from_chars, is_whitespace, lemma_texts_push, lines, lines_of, push_text, same_text,
    texts, to_chars, trim, trimmed,
};
use crate::request::{AlignRequest, AudioInput, TextInput};
use crate::tensor::append_range;
use vstd::prelude::*;

verus! {

/// One alignment of a batch, and where its result goes.
#[derive(Debug, Clone)]
pub struct BatchJob {
    pub request: AlignRequest,
    pub output: String,
}

/// A job as a manifest line states it.
#[derive(Debug, Clone)]
pub struct ManifestJob {
    pub audio: String,
    pub text: String,
    pub output: Option<String>,
    pub language: Option<String>,
}

/// Why a manifest makes no batch.
#[derive(Debug, Clone)]
pub enum BatchError {
    /// The path of the audio has no file name to name the output after.
    NoFileStem(String),
    /// The manifest has no jobs.
    NoJobs,
}

/// How paths are written.
#[derive(Debug, Clone, Copy, PartialEq, Eq, Structural)]
pub enum PathStyle {
    /// A slash separates components.
    Unix,
    /// A slash or a backslash separates components. A path may start with a prefix: a
    /// drive, which is a letter and a colon; two separators, a server and a share; two
    /// separators, a dot, a separator and a device. A path that starts with `\\?\` is
    /// verbatim: behind its prefix the backslash alone separates, and `.` is a name.
    Windows,
}

/// What separates the components of a path.
#[derive(Debug, Clone, Copy, PartialEq, Eq, Structural)]
pub enum Separators {
    Slash,
    Backslash,
    Either,
}

/// Whether a character separates components.
pub open spec fn separates(seps: Separators, c: char) -> bool {
    match seps {
        Separators::Slash => c == '/',
        Separators::Backslash => c == '\\',
        Separators::Either => c == '/' || c == '\\',
    }
}

fn is_separator(seps: Separators, c: char) -> (r: bool)
    ensures
        r == separates(seps, c),
{
    match seps {
        Separators::Slash => c == '/',
        Separators::Backslash => c == '\\',
        Separators::Either => c == '/' || c == '\\',
    }
}

/// What separates the components of a path that is not verbatim.
pub open spec fn separators_of(style: PathStyle) -> Separators {
    match style {
        PathStyle::Unix => Separators::Slash,
        PathStyle::Windows => Separators::Either,
    }
}

fn style_separators(style: PathStyle) -> (r: Separators)
    ensures
        r == separators_of(style),
{
    match style {
        PathStyle::Unix => Separators::Slash,
        PathStyle::Windows => Separators::Either,
    }
}

/// The character that is put between components.
pub open spec fn separator_of(style: PathStyle) -> char {
    match style {
        PathStyle::Unix => '/',
        PathStyle::Windows => '\\',
    }
}

/// The number of characters before the first separator.
pub open spec fn component_len(seps: Separators, p: Seq<char>) -> nat
    decreases p.len(),
{
    if p.len() == 0 || separates(seps, p[0]) {
        0
    } else {
        1 + component_len(seps, p.skip(1))
    }
}

/// Whether a letter and a colon stand at a place of a path.
pub open spec fn is_drive_at(p: Seq<char>, i: int) -> bool {
    &&& i + 2 <= p.len()
    &&& 'a' <= p[i] <= 'z' || 'A' <= p[i] <= 'Z'
    &&& p[i + 1] == ':'
}

/// Whether a path starts with a drive.
pub open spec fn has_drive(style: PathStyle, p: Seq<char>) -> bool {
    style == PathStyle::Windows && is_drive_at(p, 0)
}

/// Whether a path is verbatim.
pub open spec fn is_verbatim(style: PathStyle, p: Seq<char>) -> bool {
    style == PathStyle::Windows && p.len() >= 4 && p[0] == '\\' && p[1] == '\\' && p[2] == '?'
        && p[3] == '\\'
}

/// Whether a path starts with two separators, a dot and a separator.
pub open spec fn is_device(style: PathStyle, p: Seq<char>) -> bool {
    &&& style == PathStyle::Windows
    &&& p.len() >= 4
    &&& separates(Separators::Either, p[0])
    &&& separates(Separators::Either, p[1])
    &&& p[2] == '.'
    &&& separates(Separators::Either, p[3])
}

/// Whether a path starts with two separators.
pub open spec fn is_shared(style: PathStyle, p: Seq<char>) -> bool {
    style == PathStyle::Windows && p.len() >= 2 && separates(Separators::Either, p[0])
        && separates(Separators::Either, p[1])
}

/// The lengths of a server that starts at `start`, and of the share behind the separator
/// after it.
pub open spec fn server_and_share(seps: Separators, p: Seq<char>, start: int) -> (int, int) {
    let server = component_len(seps, p.skip(start)) as int;
    let share = if start + server < p.len() {
        component_len(seps, p.skip(start + server + 1)) as int
    } else {
        0
    };
    (server, share)
}

/// The length of the prefix of a verbatim path: `\\?\UNC\` with a server and a share, or
/// `\\?\` with a drive, or else with the component behind it.
pub open spec fn verbatim_len(p: Seq<char>) -> int {
    if p.len() >= 8 && p[4] == 'U' && p[5] == 'N' && p[6] == 'C' && separates(
        Separators::Either,
        p[7],
    ) {
        let (server, share) = server_and_share(Separators::Backslash, p, 8);
        8 + server + (if share > 0 {
            1 + share
        } else {
            0
        })
    } else if is_drive_at(p, 4) && (p.len() == 6 || separates(Separators::Either, p[6])) {
        6
    } else {
        4 + component_len(Separators::Backslash, p.skip(4)) as int
    }
}

/// The length of the prefix that a path starts with.
pub open spec fn prefix_len(style: PathStyle, p: Seq<char>) -> int {
    if is_verbatim(style, p) {
        verbatim_len(p)
    } else if is_device(style, p) {
        4 + component_len(Separators::Either, p.skip(4)) as int
    } else if is_shared(style, p) {
        let (server, share) = server_and_share(Separators::Either, p, 2);
        if server > 0 && share > 0 {
            2 + server + 1 + share
        } else {
            0
        }
    } else if has_drive(style, p) {
        2
    } else {
        0
    }
}

/// Whether a separator stands behind the prefix of a path.
pub open spec fn names_root(style: PathStyle, p: Seq<char>) -> bool {
    let n = prefix_len(style, p);
    n < p.len() && separates(separators_of(style), p[n])
}

/// Whether a path starts at a root. A prefix other than a drive has one.
pub open spec fn is_rooted(style: PathStyle, p: Seq<char>) -> bool {
    names_root(style, p) || (prefix_len(style, p) > 0 && !has_drive(style, p))
}

/// A path that does not depend on where it is read from. On Windows a root alone is not
/// enough: it may be the root of any drive.
pub open spec fn is_absolute(style: PathStyle, p: Seq<char>) -> bool {
    is_rooted(style, p) && (style == PathStyle::Windows ==> prefix_len(style, p) > 0)
}

/// What stands behind the prefix of a path and the separator after it.
pub open spec fn body(style: PathStyle, p: Seq<char>) -> Seq<char> {
    let n = prefix_len(style, p);
    if names_root(style, p) {
        p.skip(n + 1)
    } else {
        p.skip(n)
    }
}

/// The components of a path without a prefix. There is nothing between two separators.
pub open spec fn components(seps: Separators, p: Seq<char>) -> Seq<Seq<char>>
    decreases p.len(),
{
    if p.len() == 0 {
        Seq::empty()
    } else if separates(seps, p[0]) {
        components(seps, p.skip(1))
    } else {
        let n = component_len(seps, p) as int;
        proof {
            lemma_component_len(seps, p);
        }
        seq![p.take(n)] + components(seps, p.skip(n))
    }
}

/// A component ends within the path, and is not empty.
pub proof fn lemma_component_len(seps: Separators, p: Seq<char>)
    ensures
        component_len(seps, p) <= p.len(),
        p.len() > 0 && !separates(seps, p[0]) ==> component_len(seps, p) > 0,
    decreases p.len(),
{
    if p.len() > 0 && !separates(seps, p[0]) {
        lemma_component_len(seps, p.skip(1));
    }
}

/// Where components lead from a directory: `.` stays, and `..` leaves a directory that
/// has a name.
pub open spec fn walked(from: Seq<Seq<char>>, steps: Seq<Seq<char>>) -> Seq<Seq<char>>
    decreases steps.len(),
{
    if steps.len() == 0 {
        from
    } else {
        let at = walked(from, steps.drop_last());
        let step = steps.last();
        if step == seq!['.'] {
            at
        } else if step == seq!['.', '.'] {
            if at.len() > 0 && at.last() != seq!['.'] && at.last() != seq!['.', '.'] {
                at.drop_last()
            } else {
                at
            }
        } else {
            at.push(step)
        }
    }
}

/// Components with a backslash before every one.
pub open spec fn backslashed(parts: Seq<Seq<char>>) -> Seq<char>
    decreases parts.len(),
{
    if parts.len() == 0 {
        Seq::empty()
    } else {
        backslashed(parts.drop_last()).push('\\') + parts.last()
    }
}

/// The path `p`, which is not empty and has no prefix, read from a verbatim directory on:
/// the steps of `p` are taken one by one.
pub open spec fn verbatim_joined(style: PathStyle, base: Seq<char>, p: Seq<char>) -> Seq<char> {
    let from = if is_rooted(style, p) {
        Seq::empty()
    } else {
        components(Separators::Backslash, body(style, base))
    };
    let parts = walked(from, components(separators_of(style), p));
    let prefix = base.take(prefix_len(style, base));
    if parts.len() > 0 {
        prefix + backslashed(parts)
    } else if is_rooted(style, p) || names_root(style, base) {
        prefix.push('\\')
    } else {
        prefix
    }
}

/// The path `p`, read from the directory `base` on.
pub open spec fn joined(style: PathStyle, base: Seq<char>, p: Seq<char>) -> Seq<char> {
    if is_absolute(style, p) || prefix_len(style, p) > 0 {
        p
    } else if is_verbatim(style, base) && p.len() > 0 {
        verbatim_joined(style, base, p)
    } else if is_rooted(style, p) {
        base.take(prefix_len(style, base)) + p
    } else if base.len() > 0 && !separates(separators_of(style), base.last()) && !(has_drive(
        style,
        base,
    ) && base.len() == 2) {
        base.push(separator_of(style)) + p
    } else {
        base + p
    }
}

/// Where the component that starts at `start` ends.
fn component_end(seps: Separators, p: &[char], start: usize) -> (end: usize)
    requires
        start <= p@.len(),
    ensures
        start <= end <= p@.len(),
        end - start == component_len(seps, p@.skip(start as int)),
        end < p@.len() ==> separates(seps, p@[end as int]),
{
    let mut end: usize = start;
    while end < p.len() && !is_separator(seps, p[end])
        invariant
            start <= end <= p@.len(),
            component_len(seps, p@.skip(start as int)) == end - start + component_len(
                seps,
                p@.skip(end as int),
            ),
        decreases p@.len() - end,
    {
        assert(p@.skip(end as int).skip(1) =~= p@.skip(end + 1));
        end = end + 1;
    }
    end
}

fn drive_at(p: &[char], i: usize) -> (r: bool)
    requires
        i <= p@.len(),
    ensures
        r == is_drive_at(p@, i as int),
{
    p.len() - i >= 2 && (('a' <= p[i] && p[i] <= 'z') || ('A' <= p[i] && p[i] <= 'Z')) && p[i + 1]
        == ':'
}

fn starts_verbatim(style: PathStyle, p: &[char]) -> (r: bool)
    ensures
        r == is_verbatim(style, p@),
{
    style == PathStyle::Windows && p.len() >= 4 && p[0] == '\\' && p[1] == '\\' && p[2] == '?'
        && p[3] == '\\'
}

/// Where a server that starts at `start`, and the share behind it, end.
fn find_share(seps: Separators, p: &[char], start: usize) -> (r: (usize, usize))
    requires
        start <= p@.len(),
    ensures
        ({
            let (server, share) = server_and_share(seps, p@, start as int);
            &&& r.0 == start + server
            &&& r.1 == (if share > 0 {
                start + server + 1 + share
            } else {
                start + server
            })
            &&& start <= r.0 <= r.1 <= p@.len()
        }),
{
    let server: usize = component_end(seps, p, start);
    if server < p.len() {
        let share: usize = component_end(seps, p, server + 1);
        if share > server + 1 {
            return (server, share);
        }
    }
    (server, server)
}

fn find_verbatim_prefix(p: &[char]) -> (n: usize)
    requires
        p@.len() >= 4,
    ensures
        n == verbatim_len(p@),
        n <= p@.len(),
{
    let either = Separators::Either;
    if p.len() >= 8 && p[4] == 'U' && p[5] == 'N' && p[6] == 'C' && is_separator(either, p[7]) {
        let (_, end): (usize, usize) = find_share(Separators::Backslash, p, 8);
        end
    } else if drive_at(p, 4) && (p.len() == 6 || is_separator(either, p[6])) {
        6
    } else {
        component_end(Separators::Backslash, p, 4)
    }
}

/// Finds the prefix of a path.
fn find_prefix(style: PathStyle, p: &[char]) -> (n: usize)
    ensures
        n == prefix_len(style, p@),
        n <= p@.len(),
{
    let either = Separators::Either;
    if style == PathStyle::Unix {
        return 0;
    }
    if starts_verbatim(style, p) {
        return find_verbatim_prefix(p);
    }
    if p.len() >= 2 && is_separator(either, p[0]) && is_separator(either, p[1]) {
        if p.len() >= 4 && p[2] == '.' && is_separator(either, p[3]) {
            return component_end(either, p, 4);
        }
        let (server, share): (usize, usize) = find_share(either, p, 2);
        if server > 2 && share > server {
            return share;
        }
        return 0;
    }
    if drive_at(p, 0) {
        2
    } else {
        0
    }
}

fn has_named_root(style: PathStyle, p: &[char]) -> (r: bool)
    ensures
        r == names_root(style, p@),
{
    let n: usize = find_prefix(style, p);
    n < p.len() && is_separator(style_separators(style), p[n])
}

fn starts_at_root(style: PathStyle, p: &[char]) -> (r: bool)
    ensures
        r == is_rooted(style, p@),
{
    let drive: bool = style == PathStyle::Windows && drive_at(p, 0);
    has_named_root(style, p) || (find_prefix(style, p) > 0 && !drive)
}

/// Finds what stands behind the prefix of a path and the separator after it.
fn find_body(style: PathStyle, p: &[char]) -> (start: usize)
    ensures
        start <= p@.len(),
        p@.skip(start as int) == body(style, p@),
{
    let n: usize = find_prefix(style, p);
    if n < p.len() && has_named_root(style, p) {
        n + 1
    } else {
        n
    }
}

/// Splits a path without a prefix into its components.
fn split_components(seps: Separators, p: &[char]) -> (out: Vec<String>)
    ensures
        texts(out@) == components(seps, p@),
{
    let n: usize = p.len();
    let mut out: Vec<String> = Vec::new();
    let mut i: usize = 0;
    proof {
        assert(p@.skip(0) =~= p@);
        assert(texts(out@) =~= Seq::empty());
        assert(Seq::<Seq<char>>::empty() + components(seps, p@) =~= components(seps, p@));
    }
    while i < n
        invariant
            i <= n == p@.len(),
            texts(out@) + components(seps, p@.skip(i as int)) == components(seps, p@),
        decreases n - i,
    {
        let ghost rest = p@.skip(i as int);
        proof {
            lemma_component_len(seps, rest);
        }
        if is_separator(seps, p[i]) {
            assert(rest.skip(1) =~= p@.skip(i + 1));
            i = i + 1;
        } else {
            let end: usize = component_end(seps, p, i);
            let part: String = from_chars(p, i, end);
            proof {
                let k = end - i;
                assert(rest.take(k) =~= p@.subrange(i as int, end as int));
                assert(rest.skip(k) =~= p@.skip(end as int));
                lemma_texts_push(out@, part);
                let tail = components(seps, p@.skip(end as int));
                assert(texts(out@).push(part@) + tail =~= texts(out@) + (seq![part@] + tail));
            }
            out.push(part);
            i = end;
        }
    }
    assert(components(seps, p@.skip(n as int)) =~= Seq::empty());
    assert(texts(out@) + Seq::<Seq<char>>::empty() =~= texts(out@));
    out
}

/// Whether a component is `.` (one dot) or `..` (two).
fn is_dots(part: &str, two: bool) -> (r: bool)
    ensures
        r == (part@ == (if two {
            seq!['.', '.']
        } else {
            seq!['.']
        })),
{
    proof {
        reveal_strlit(".");
        reveal_strlit("..");
        assert("."@ =~= seq!['.']);
        assert(".."@ =~= seq!['.', '.']);
    }
    if two {
        same_text(part, "..")
    } else {
        same_text(part, ".")
    }
}

/// Takes steps from a directory.
fn walk(parts: &mut Vec<String>, steps: &[String])
    ensures
        texts(final(parts)@) == walked(texts(old(parts)@), texts(steps@)),
{
    let ghost from = texts(parts@);
    let ghost all = texts(steps@);
    let n: usize = steps.len();
    assert(all.take(0) =~= Seq::empty());
    for i in 0..n
        invariant
            n == steps@.len(),
            all == texts(steps@),
            texts(parts@) == walked(from, all.take(i as int)),
    {
        let step: &str = steps[i].as_str();
        proof {
            let longer = all.take(i + 1);
            assert(longer.drop_last() =~= all.take(i as int));
            assert(longer.last() == steps@[i as int]@);
            assert(texts(parts@).len() == parts@.len());
            if parts@.len() > 0 {
                assert(texts(parts@).last() == parts@.last()@);
                assert(texts(parts@.drop_last()) =~= texts(parts@).drop_last());
            }
        }
        if is_dots(step, false) {
        } else if is_dots(step, true) {
            let len: usize = parts.len();
            if len > 0 && !is_dots(parts[len - 1].as_str(), false) && !is_dots(
                parts[len - 1].as_str(),
                true,
            ) {
                parts.pop();
            }
        } else {
            let copy: String = copy_text(step);
            proof {
                lemma_texts_push(parts@, copy);
            }
            parts.push(copy);
        }
    }
    assert(all.take(n as int) =~= all);
}

/// Appends components, with a backslash before every one.
fn push_backslashed(r: &mut String, parts: &[String])
    ensures
        final(r)@ == old(r)@ + backslashed(texts(parts@)),
{
    let ghost all = texts(parts@);
    let n: usize = parts.len();
    assert(all.take(0) =~= Seq::empty());
    assert(r@ + Seq::<char>::empty() =~= r@);
    for i in 0..n
        invariant
            n == parts@.len(),
            all == texts(parts@),
            r@ == old(r)@ + backslashed(all.take(i as int)),
    {
        proof {
            let longer = all.take(i + 1);
            assert(longer.drop_last() =~= all.take(i as int));
            assert(longer.last() == parts@[i as int]@);
        }
        r.push('\\');
        push_text(r, parts[i].as_str());
        assert(r@ =~= old(r)@ + backslashed(all.take(i + 1)));
    }
    assert(all.take(n as int) =~= all);
}

fn join_verbatim(style: PathStyle, b: &[char], p: &[char]) -> (r: String)
    ensures
        r@ == verbatim_joined(style, b@, p@),
{
    let rooted: bool = starts_at_root(style, p);
    let mut parts: Vec<String> = Vec::new();
    assert(texts(parts@) =~= Seq::empty());
    if !rooted {
        let start: usize = find_body(style, b);
        let mut rest: Vec<char> = Vec::new();
        append_range(&mut rest, b, start, b.len());
        assert(rest@ =~= body(style, b@));
        parts = split_components(Separators::Backslash, &rest);
    }
    let steps: Vec<String> = split_components(style_separators(style), p);
    walk(&mut parts, &steps);
    let n: usize = find_prefix(style, b);
    let mut r: String = from_chars(b, 0, n);
    assert(r@ =~= b@.take(n as int));
    assert(texts(parts@).len() == parts@.len());
    if parts.len() > 0 {
        push_backslashed(&mut r, &parts);
    } else if rooted || has_named_root(style, b) {
        r.push('\\');
    }
    r
}

fn join(style: PathStyle, base: &str, path: &str) -> (r: String)
    ensures
        r@ == joined(style, base@, path@),
{
    let b: Vec<char> = to_chars(base);
    let p: Vec<char> = to_chars(path);
    let mut r: String = String::new();
    assert(r@ =~= Seq::empty());
    let prefix: usize = find_prefix(style, &p);
    let rooted: bool = starts_at_root(style, &p);
    if prefix > 0 || (rooted && style == PathStyle::Unix) {
        push_text(&mut r, path);
        assert(r@ =~= path@);
        return r;
    }
    if starts_verbatim(style, &b) && p.len() > 0 {
        return join_verbatim(style, &b, &p);
    }
    if rooted {
        let kept: usize = find_prefix(style, &b);
        let start: String = from_chars(&b, 0, kept);
        push_text(&mut r, start.as_str());
        push_text(&mut r, path);
        assert(r@ =~= base@.take(kept as int) + path@);
        return r;
    }
    push_text(&mut r, base);
    assert(r@ =~= base@);
    let drive: bool = style == PathStyle::Windows && drive_at(&b, 0);
    if b.len() > 0 && !is_separator(style_separators(style), b[b.len() - 1]) && !(drive && b.len()
        == 2) {
        r.push(
            match style {
                PathStyle::Unix => '/',
                PathStyle::Windows => '\\',
            },
        );
    }
    push_text(&mut r, path);
    r
}

/// A path, read from a directory on unless it is absolute.
pub fn resolve_relative_to(style: PathStyle, base: &str, path: String) -> (r: String)
    ensures
        r@ == joined(style, base@, path@),
{
    join(style, base, path.as_str())
}

/// Absolute paths do not depend on the directory.
pub proof fn lemma_absolute_paths_stay(style: PathStyle, base: Seq<char>, p: Seq<char>)
    requires
        is_absolute(style, p),
    ensures
        joined(style, base, p) == p,
{
}

/// Where the last component of a path starts, if separators after it are removed.
pub open spec fn component_start(seps: Separators, p: Seq<char>) -> int
    decreases p.len(),
{
    if p.len() == 0 || separates(seps, p.last()) {
        p.len() as int
    } else {
        component_start(seps, p.drop_last())
    }
}

/// The last component that names a file, of a path without a prefix: not the current or
/// the parent directory, and not the root. Separators at the end do not count, and
/// neither do components `.` behind others, unless the path is verbatim.
pub open spec fn last_name(seps: Separators, p: Seq<char>) -> Option<Seq<char>>
    decreases p.len(),
{
    if p.len() == 0 {
        None
    } else if separates(seps, p.last()) {
        last_name(seps, p.drop_last())
    } else {
        proof {
            lemma_component_start(seps, p);
        }
        let start = component_start(seps, p);
        let name = p.skip(start);
        if name == seq!['.'] {
            if start > 0 && seps != Separators::Backslash {
                last_name(seps, p.take(start))
            } else {
                None
            }
        } else if name == seq!['.', '.'] {
            None
        } else {
            Some(name)
        }
    }
}

/// What separates the components of a path behind its prefix.
pub open spec fn separators_in(style: PathStyle, p: Seq<char>) -> Separators {
    if is_verbatim(style, p) {
        Separators::Backslash
    } else {
        separators_of(style)
    }
}

/// The name of the file that a path names.
pub open spec fn file_name(style: PathStyle, p: Seq<char>) -> Option<Seq<char>> {
    last_name(separators_in(style, p), body(style, p))
}

/// The last component lies within the path, and is not empty where the path does not
/// end with a separator.
pub proof fn lemma_component_start(seps: Separators, p: Seq<char>)
    ensures
        0 <= component_start(seps, p) <= p.len(),
        p.len() > 0 && !separates(seps, p.last()) ==> component_start(seps, p) < p.len(),
    decreases p.len(),
{
    if p.len() > 0 && !separates(seps, p.last()) {
        lemma_component_start(seps, p.drop_last());
    }
}

/// The place of the last dot, or -1.
pub open spec fn last_dot(name: Seq<char>) -> int
    decreases name.len(),
{
    if name.len() == 0 {
        -1
    } else if name.last() == '.' {
        name.len() - 1
    } else {
        last_dot(name.drop_last())
    }
}

/// A file name without its extension. A dot at the start is no start of an
/// extension.
pub open spec fn stem(name: Seq<char>) -> Seq<char> {
    let dot = last_dot(name);
    if dot > 0 {
        name.take(dot)
    } else {
        name
    }
}

/// The range of the last name in a path without a prefix.
fn find_last_name(seps: Separators, p: &[char]) -> (r: Option<(usize, usize)>)
    ensures
        match r {
            Some((a, b)) => a < b <= p@.len() && last_name(seps, p@) == Some(
                p@.subrange(a as int, b as int),
            ),
            None => last_name(seps, p@) is None,
        },
{
    let mut end: usize = p.len();
    assert(p@.take(end as int) =~= p@);
    while end > 0
        invariant
            end <= p@.len(),
            last_name(seps, p@) == last_name(seps, p@.take(end as int)),
        decreases end,
    {
        let ghost q = p@.take(end as int);
        if is_separator(seps, p[end - 1]) {
            assert(q.drop_last() =~= p@.take(end - 1));
            end = end - 1;
        } else {
            let mut start: usize = end;
            assert(q.take(end as int) =~= q);
            while start > 0 && !is_separator(seps, p[start - 1])
                invariant
                    start <= end <= p@.len(),
                    q == p@.take(end as int),
                    component_start(seps, q) == component_start(seps, q.take(start as int)),
                decreases start,
            {
                assert(q.take(start as int).drop_last() =~= q.take(start - 1));
                start = start - 1;
            }
            proof {
                lemma_component_start(seps, q);
                assert(start > 0 ==> q.take(start as int).last() == p@[start - 1]);
                assert(component_start(seps, q.take(start as int)) == start);
                assert(q.skip(start as int) =~= p@.subrange(start as int, end as int));
            }
            let len: usize = end - start;
            if len == 1 && p[start] == '.' {
                assert(q.skip(start as int) =~= seq!['.']);
                if start == 0 || seps == Separators::Backslash {
                    return None;
                }
                assert(q.take(start as int) =~= p@.take(start as int));
                end = start;
            } else if len == 2 && p[start] == '.' && p[start + 1] == '.' {
                assert(q.skip(start as int) =~= seq!['.', '.']);
                assert(q.skip(start as int) != seq!['.']) by {
                    assert(q.skip(start as int).len() == 2);
                }
                return None;
            } else {
                proof {
                    let name = q.skip(start as int);
                    assert(name.len() == len);
                    assert(name[0] == p@[start as int]);
                    if len == 2 {
                        assert(name[1] == p@[start + 1]);
                        assert(seq!['.', '.'][1] == '.');
                    }
                    assert(seq!['.'].len() == 1 && seq!['.'][0] == '.');
                    assert(seq!['.', '.'].len() == 2 && seq!['.', '.'][0] == '.');
                }
                return Some((start, end));
            }
        }
    }
    assert(p@.take(0) =~= Seq::empty());
    None
}

/// The range of the file name in a path.
fn find_file_name(style: PathStyle, p: &[char]) -> (r: Option<(usize, usize)>)
    ensures
        match r {
            Some((a, b)) => a < b <= p@.len() && file_name(style, p@) == Some(
                p@.subrange(a as int, b as int),
            ),
            None => file_name(style, p@) is None,
        },
{
    let start: usize = find_body(style, p);
    let seps: Separators = if starts_verbatim(style, p) {
        Separators::Backslash
    } else {
        style_separators(style)
    };
    let mut rest: Vec<char> = Vec::new();
    append_range(&mut rest, p, start, p.len());
    assert(rest@ =~= p@.skip(start as int));
    match find_last_name(seps, &rest) {
        Some((a, b)) => {
            assert(rest@.subrange(a as int, b as int) =~= p@.subrange(start + a, start + b));
            Some((start + a, start + b))
        },
        None => None,
    }
}

/// The name of the file that a path names, without its extension.
pub fn file_stem_string(style: PathStyle, path: &str) -> (r: Result<String, BatchError>)
    ensures
        match r {
            Ok(s) => file_name(style, path@) matches Some(name) && s@ == stem(name),
            Err(BatchError::NoFileStem(p)) => file_name(style, path@) is None && p@ == path@,
            Err(BatchError::NoJobs) => false,
        },
{
    let p: Vec<char> = to_chars(path);
    match find_file_name(style, &p) {
        None => {
            let n: usize = p.len();
            assert(p@.subrange(0, n as int) =~= p@);
            Err(BatchError::NoFileStem(from_chars(&p, 0, n)))
        },
        Some((a, b)) => {
            let ghost name = p@.subrange(a as int, b as int);
            let mut dot: usize = b;
            assert(name.take(b - a) =~= name);
            while dot > a && p[dot - 1] != '.'
                invariant
                    a <= dot <= b <= p@.len(),
                    name == p@.subrange(a as int, b as int),
                    last_dot(name) == last_dot(name.take(dot - a)),
                decreases dot,
            {
                assert(name.take(dot - a).drop_last() =~= name.take(dot - 1 - a));
                dot = dot - 1;
            }
            proof {
                if dot > a {
                    assert(name.take(dot - a).last() == p@[dot - 1]);
                    assert(last_dot(name) == dot - 1 - a);
                } else {
                    assert(last_dot(name) == -1);
                }
            }
            if dot > a + 1 {
                assert(name.take(dot - 1 - a) =~= p@.subrange(a as int, dot - 1));
                Ok(from_chars(&p, a, dot - 1))
            } else {
                Ok(from_chars(&p, a, b))
            }
        },
    }
}

/// The output of a job that names none: the name of its audio, with the extension
/// `json`, in the output directory.
pub fn default_output_path(style: PathStyle, audio: &str, output_dir: &str) -> (r: Result<
    String,
    BatchError,
>)
    ensures
        match r {
            Ok(s) => file_name(style, audio@) matches Some(name) && s@ == joined(
                style,
                output_dir@,
                stem(name) + ".json"@,
            ),
            Err(BatchError::NoFileStem(p)) => file_name(style, audio@) is None && p@ == audio@,
            Err(BatchError::NoJobs) => false,
        },
{
    match file_stem_string(style, audio) {
        Ok(s) => {
            let mut name: String = s;
            push_text(&mut name, ".json");
            Ok(join(style, output_dir, name.as_str()))
        },
        Err(e) => Err(e),
    }
}

/// The language of a job: the one it names, unless that is blank.
pub open spec fn language_of(named: Option<Seq<char>>, default: Seq<char>) -> Seq<char> {
    match named {
        Some(l) => if trimmed(l).len() > 0 {
            l
        } else {
            default
        },
        None => default,
    }
}

/// The output of a job.
pub open spec fn output_of(
    style: PathStyle,
    job: ManifestJob,
    audio: Seq<char>,
    output_dir: Seq<char>,
) -> Option<Seq<char>> {
    match job.output {
        Some(o) => Some(joined(style, output_dir, o@)),
        None => match file_name(style, audio) {
            Some(name) => Some(joined(style, output_dir, stem(name) + ".json"@)),
            None => None,
        },
    }
}

/// The alignment that a manifest line asks for.
pub fn manifest_job(
    style: PathStyle,
    job: &ManifestJob,
    manifest_dir: &str,
    output_dir: &str,
    default_language: &str,
) -> (r: Result<BatchJob, BatchError>)
    ensures
        match r {
            Ok(b) => is_job(b, style, *job, manifest_dir@, output_dir@, default_language@),
            Err(BatchError::NoFileStem(p)) => has_no_output(
                style,
                *job,
                manifest_dir@,
                output_dir@,
            ) && p@ == joined(style, manifest_dir@, job.audio@),
            Err(BatchError::NoJobs) => false,
        },
{
    let audio: String = join(style, manifest_dir, job.audio.as_str());
    let text: String = join(style, manifest_dir, job.text.as_str());
    let output: String = match &job.output {
        Some(o) => join(style, output_dir, o.as_str()),
        None => match default_output_path(style, audio.as_str(), output_dir) {
            Ok(o) => o,
            Err(e) => return Err(e),
        },
    };
    let language: String = match &job.language {
        Some(l) => {
            let clean: String = trim(l.as_str());
            let blank: bool = to_chars(clean.as_str()).len() == 0;
            if blank {
                default_language.to_string()
            } else {
                l.clone()
            }
        },
        None => default_language.to_string(),
    };
    Ok(
        BatchJob {
            request: AlignRequest::new(AudioInput::Path(audio), TextInput::Path(text), language),
            output,
        },
    )
}

/// A line of a manifest that holds a job.
#[derive(Debug, Clone)]
pub struct ManifestLine {
    /// The number of the line, from one.
    pub number: usize,
    pub text: String,
}

/// The lines of a manifest that hold jobs, by number: those that are not blank,
/// without white space at their ends.
pub open spec fn job_lines(all: Seq<Seq<char>>) -> Seq<(int, Seq<char>)>
    decreases all.len(),
{
    if all.len() == 0 {
        Seq::empty()
    } else {
        let rest = job_lines(all.drop_last());
        let line = trimmed(all.last());
        if line.len() > 0 {
            rest.push((all.len() as int, line))
        } else {
            rest
        }
    }
}

/// The number and the text of every line.
pub open spec fn line_views(v: Seq<ManifestLine>) -> Seq<(int, Seq<char>)> {
    v.map_values(|l: ManifestLine| (l.number as int, l.text@))
}

/// Finds the lines of a manifest that hold jobs.
pub fn manifest_lines(manifest: &str) -> (out: Vec<ManifestLine>)
    ensures
        line_views(out@) == job_lines(lines_of(manifest@)),
{
    let all: Vec<String> = lines(manifest);
    let n: usize = all.len();
    let ghost views = lines_of(manifest@);
    let mut out: Vec<ManifestLine> = Vec::new();
    assert(views.take(0) =~= Seq::empty());
    assert(line_views(out@) =~= Seq::empty());
    for i in 0..n
        invariant
            n == all@.len(),
            views == lines_of(manifest@),
            texts(all@) == views,
            line_views(out@) == job_lines(views.take(i as int)),
    {
        let line: String = trim(all[i].as_str());
        let ghost t = line@;
        proof {
            let longer = views.take(i + 1);
            assert(longer.drop_last() =~= views.take(i as int));
            assert(texts(all@)[i as int] == all@[i as int]@);
            assert(longer.last() == all@[i as int]@);
        }
        let blank: bool = to_chars(line.as_str()).len() == 0;
        if !blank {
            let entry = ManifestLine { number: i + 1, text: line };
            assert(line_views(out@.push(entry)) =~= line_views(out@).push((i + 1, t)));
            out.push(entry);
        }
    }
    assert(views.take(n as int) =~= views);
    out
}

/// A batch needs a job.
pub fn require_jobs(jobs: Vec<BatchJob>) -> (r: Result<Vec<BatchJob>, BatchError>)
    ensures
        match r {
            Ok(b) => b@ == jobs@ && jobs@.len() > 0,
            Err(e) => jobs@.len() == 0 && e is NoJobs,
        },
{
    if jobs.len() == 0 {
        Err(BatchError::NoJobs)
    } else {
        Ok(jobs)
    }
}

/// Whether a job is the one that a manifest line asks for.
pub open spec fn is_job(
    b: BatchJob,
    style: PathStyle,
    job: ManifestJob,
    manifest_dir: Seq<char>,
    output_dir: Seq<char>,
    default_language: Seq<char>,
) -> bool {
    let audio = joined(style, manifest_dir, job.audio@);
    &&& b.request.audio matches AudioInput::Path(p) && p@ == audio
    &&& b.request.text matches TextInput::Path(p) && p@ == joined(
        style,
        manifest_dir,
        job.text@,
    )
    &&& b.request.language@ == language_of(
        (match job.language {
            Some(l) => Some(l@),
            None => None,
        }),
        default_language,
    )
    &&& output_of(style, job, audio, output_dir) == Some(b.output@)
}

/// Whether a manifest line has no output: it names none, and its audio has no file name.
pub open spec fn has_no_output(
    style: PathStyle,
    job: ManifestJob,
    manifest_dir: Seq<char>,
    output_dir: Seq<char>,
) -> bool {
    output_of(style, job, joined(style, manifest_dir, job.audio@), output_dir) is None
}

/// The batch that the lines of a manifest ask for: a job for every line, in the order of
/// the lines. The first line without an output fails the whole batch, and a batch needs
/// a job.
pub fn collect_jobs(
    style: PathStyle,
    lines: Vec<ManifestJob>,
    manifest_dir: &str,
    output_dir: &str,
    default_language: &str,
) -> (r: Result<Vec<BatchJob>, BatchError>)
    ensures
        match r {
            Ok(jobs) => {
                &&& lines@.len() > 0
                &&& jobs@.len() == lines@.len()
                &&& forall|i: int|
                    0 <= i < lines@.len() ==> !has_no_output(
                        style,
                        #[trigger] lines@[i],
                        manifest_dir@,
                        output_dir@,
                    )
                &&& forall|i: int|
                    0 <= i < lines@.len() ==> is_job(
                        #[trigger] jobs@[i],
                        style,
                        lines@[i],
                        manifest_dir@,
                        output_dir@,
                        default_language@,
                    )
            },
            Err(BatchError::NoJobs) => lines@.len() == 0,
            Err(BatchError::NoFileStem(p)) => exists|i: int|
                0 <= i < lines@.len() && has_no_output(
                    style,
                    #[trigger] lines@[i],
                    manifest_dir@,
                    output_dir@,
                ) && (forall|j: int|
                    0 <= j < i ==> !has_no_output(
                        style,
                        #[trigger] lines@[j],
                        manifest_dir@,
                        output_dir@,
                    )) && p@ == joined(style, manifest_dir@, lines@[i].audio@),
        },
{
    let mut jobs: Vec<BatchJob> = Vec::new();
    for i in 0..lines.len()
        invariant
            jobs@.len() == i,
            forall|k: int|
                0 <= k < i ==> !has_no_output(
                    style,
                    #[trigger] lines@[k],
                    manifest_dir@,
                    output_dir@,
                ),
            forall|k: int|
                0 <= k < i ==> is_job(
                    #[trigger] jobs@[k],
                    style,
                    lines@[k],
                    manifest_dir@,
                    output_dir@,
                    default_language@,
                ),
    {
        match manifest_job(style, &lines[i], manifest_dir, output_dir, default_language) {
            Ok(job) => jobs.push(job),
            Err(e) => {
                return Err(e);
            },
        }
    }
    require_jobs(jobs)
}

/// The directory of a manifest: the parent of its path, or the current one where the
/// path has no parent or an empty one.
pub fn manifest_directory(parent: Option<String>) -> (r: String)
    ensures
        r@ == match parent {
            Some(p) => if p@.len() > 0 {
                p@
            } else {
                "."@
            },
            None => "."@,
        },
{
    match parent {
        Some(p) => {
            let empty: bool = to_chars(p.as_str()).len() == 0;
            if empty {
                ".".to_string()
            } else {
                p
            }
        },
        None => ".".to_string(),
    }
}

/// How paths join where only a slash separates: one that starts with a slash stands by
/// itself; any other follows the base, behind a slash unless the base is empty or ends
/// with one.
pub proof fn lemma_unix_paths_join(base: Seq<char>, p: Seq<char>)
    ensures
        p.len() > 0 && p[0] == '/' ==> joined(PathStyle::Unix, base, p) == p,
        p.len() == 0 || p[0] != '/' ==> joined(PathStyle::Unix, base, p) == if base.len() == 0
            || base.last() == '/' {
            base + p
        } else {
            base + seq!['/'] + p
        },
{
    assert(base.push('/') + p =~= base + seq!['/'] + p);
}

/// How paths join where drives and backslashes count: a path that names a drive stands by
/// itself; one that starts with a separator keeps the drive of a base that names one; any
/// other follows the base, behind a backslash unless the base is empty, ends with a
/// separator or is a drive alone.
pub proof fn lemma_windows_paths_join(base: Seq<char>, p: Seq<char>)
    ensures
        p.len() >= 2 && p[1] == ':' && ('a' <= p[0] <= 'z' || 'A' <= p[0] <= 'Z') ==> joined(
            PathStyle::Windows,
            base,
            p,
        ) == p,
        (base.len() == 0 || base[0] != '\\' && base[0] != '/') && (p.len() == 1 && (p[0] == '/'
            || p[0] == '\\') || p.len() >= 2 && (p[0] == '/' || p[0] == '\\') && p[1] != '/' && p[1]
            != '\\') ==> joined(PathStyle::Windows, base, p) == if base.len() >= 2 && base[1] == ':'
            && ('a' <= base[0] <= 'z' || 'A' <= base[0] <= 'Z') {
            base.take(2) + p
        } else {
            p
        },
        !(base.len() >= 4 && base[0] == '\\' && base[1] == '\\' && base[2] == '?' && base[3]
            == '\\') && p.len() > 0 && p[0] != '/' && p[0] != '\\' && !(p.len() >= 2 && p[1] == ':'
            && ('a' <= p[0] <= 'z' || 'A' <= p[0] <= 'Z')) ==> joined(PathStyle::Windows, base, p)
            == if base.len() == 0 || base.last() == '/' || base.last() == '\\' || (base.len() == 2
            && base[1] == ':' && ('a' <= base[0] <= 'z' || 'A' <= base[0] <= 'Z')) {
            base + p
        } else {
            base + seq!['\\'] + p
        },
{
    assert(base.push('\\') + p =~= base + seq!['\\'] + p);
    assert(base.take(0) + p =~= p);
}

proof fn lemma_component_len_is(seps: Separators, name: Seq<char>, rest: Seq<char>)
    requires
        forall|i: int| 0 <= i < name.len() ==> !separates(seps, #[trigger] name[i]),
        rest.len() == 0 || separates(seps, rest[0]),
    ensures
        component_len(seps, name + rest) == name.len(),
    decreases name.len(),
{
    let p = name + rest;
    if name.len() == 0 {
        assert(p =~= rest);
    } else {
        let t = name.skip(1);
        assert(p[0] == name[0]);
        assert(p.skip(1) =~= t + rest);
        assert forall|i: int| 0 <= i < t.len() implies !separates(seps, #[trigger] t[i]) by {
            assert(t[i] == name[i + 1]);
        }
        lemma_component_len_is(seps, t, rest);
    }
}

/// A path on a shared folder, which starts with two separators and the names of a server
/// and a share, stands by itself.
pub proof fn lemma_shared_paths_stay(
    base: Seq<char>,
    server: Seq<char>,
    share: Seq<char>,
    rest: Seq<char>,
)
    requires
        server.len() > 0 && share.len() > 0,
        !server.contains('\\') && !server.contains('/'),
        !share.contains('\\') && !share.contains('/'),
        server != seq!['?'] && server != seq!['.'],
        rest.len() == 0 || rest[0] == '\\' || rest[0] == '/',
    ensures
        ({
            let p = seq!['\\', '\\'] + server + seq!['\\'] + share + rest;
            joined(PathStyle::Windows, base, p) == p
        }),
{
    let p = seq!['\\', '\\'] + server + seq!['\\'] + share + rest;
    let seps = Separators::Either;
    assert forall|i: int| 0 <= i < server.len() implies !separates(seps, #[trigger] server[i]) by {
        assert(server.contains(server[i]));
    }
    assert forall|i: int| 0 <= i < share.len() implies !separates(seps, #[trigger] share[i]) by {
        assert(share.contains(share[i]));
    }
    assert(p[0] == '\\' && p[1] == '\\' && p[2] == server[0]);
    let n = server.len() as int;
    assert(p.skip(2) =~= server + (seq!['\\'] + share + rest));
    lemma_component_len_is(seps, server, seq!['\\'] + share + rest);
    assert(p.skip(2 + n + 1) =~= share + rest);
    lemma_component_len_is(seps, share, rest);
    assert(p[3] == if n == 1 {
        '\\'
    } else {
        server[1]
    });
    assert(n == 1 ==> server =~= seq![server[0]]);
    assert(n > 1 ==> !separates(seps, server[1]));
}

/// Where only a slash separates and the directories do not end with one, the relative paths
/// of a job follow the directory of the manifest, and a relative output follows the output
/// directory; paths that start with a slash are taken as they are.
pub proof fn lemma_job_paths(
    b: BatchJob,
    job: ManifestJob,
    manifest_dir: Seq<char>,
    output_dir: Seq<char>,
    default_language: Seq<char>,
)
    requires
        is_job(b, PathStyle::Unix, job, manifest_dir, output_dir, default_language),
        manifest_dir.len() > 0 && manifest_dir.last() != '/',
        output_dir.len() > 0 && output_dir.last() != '/',
        job.audio@.len() > 0 && job.text@.len() > 0,
    ensures
        b.request.audio matches AudioInput::Path(a) && a@ == if job.audio@[0] == '/' {
            job.audio@
        } else {
            manifest_dir + seq!['/'] + job.audio@
        },
        b.request.text matches TextInput::Path(t) && t@ == if job.text@[0] == '/' {
            job.text@
        } else {
            manifest_dir + seq!['/'] + job.text@
        },
        job.output matches Some(o) ==> o@.len() > 0 ==> b.output@ == if o@[0] == '/' {
            o@
        } else {
            output_dir + seq!['/'] + o@
        },
        job.language is None ==> b.request.language@ == default_language,
{
    lemma_unix_paths_join(manifest_dir, job.audio@);
    lemma_unix_paths_join(manifest_dir, job.text@);
    if let Some(o) = job.output {
        lemma_unix_paths_join(output_dir, o@);
    }
}

/// A job without an output of its own writes to the output directory, under the name of its
/// audio with `.json` for what stood behind the last dot.
pub proof fn lemma_job_output_is_named_after_audio(
    b: BatchJob,
    job: ManifestJob,
    folder: Seq<char>,
    front: Seq<char>,
    extension: Seq<char>,
    manifest_dir: Seq<char>,
    output_dir: Seq<char>,
    default_language: Seq<char>,
)
    requires
        is_job(b, PathStyle::Unix, job, manifest_dir, output_dir, default_language),
        job.output is None,
        job.audio@ == seq!['/'] + folder + front + seq!['.'] + extension,
        folder.len() == 0 || folder.last() == '/',
        front.len() > 0,
        front != seq!['.'] || extension.len() > 0,
        !front.contains('/') && !extension.contains('/') && !extension.contains('.'),
        output_dir.len() > 0 && output_dir.last() != '/',
    ensures
        b.output@ == output_dir + seq!['/'] + front + ".json"@,
{
    let name = front + seq!['.'] + extension;
    let dir = seq!['/'] + folder;
    let none = Seq::<char>::empty();
    assert(job.audio@ =~= dir + name + none);
    lemma_unix_paths_join(manifest_dir, job.audio@);
    assert(job.audio@[0] == '/');
    assert(!name.contains('/')) by {
        if name.contains('/') {
            let i = choose|i: int| 0 <= i < name.len() && name[i] == '/';
            if i < front.len() {
                assert(front[i] == '/');
            } else if i > front.len() {
                assert(extension[i - front.len() - 1] == '/');
            }
        }
    }
    assert(dir.last() == '/');
    assert(name != seq!['.'] && name != seq!['.', '.']) by {
        assert(name.len() >= 2);
        if name == seq!['.', '.'] {
            assert(name.len() == 2);
            assert(front =~= seq![name[0]]);
            assert(extension.len() == 0);
        }
    }
    lemma_unix_file_name(dir, name, none);
    lemma_stem_ends_at_last_dot(front, extension);
    lemma_unix_paths_join(output_dir, front + ".json"@);
    assert((front + ".json"@)[0] == front[0]);
    assert(front[0] != '/') by {
        assert(front.contains(front[0]));
    }
    assert(output_dir + seq!['/'] + (front + ".json"@) =~= output_dir + seq!['/'] + front
        + ".json"@);
}

proof fn lemma_component_start_is(seps: Separators, dir: Seq<char>, name: Seq<char>)
    requires
        dir.len() == 0 || separates(seps, dir.last()),
        forall|i: int| 0 <= i < name.len() ==> !separates(seps, #[trigger] name[i]),
    ensures
        component_start(seps, dir + name) == dir.len(),
    decreases name.len(),
{
    let p = dir + name;
    if name.len() == 0 {
        assert(p =~= dir);
    } else {
        let shorter = name.drop_last();
        assert(p.last() == name[name.len() - 1]);
        assert forall|i: int| 0 <= i < shorter.len() implies !separates(
            seps,
            #[trigger] shorter[i],
        ) by {
            assert(shorter[i] == name[i]);
        }
        assert(p.drop_last() =~= dir + shorter);
        lemma_component_start_is(seps, dir, shorter);
    }
}

proof fn lemma_last_name_is(seps: Separators, dir: Seq<char>, name: Seq<char>, tail: Seq<char>)
    requires
        dir.len() == 0 || separates(seps, dir.last()),
        name.len() > 0,
        forall|i: int| 0 <= i < name.len() ==> !separates(seps, #[trigger] name[i]),
        forall|i: int| 0 <= i < tail.len() ==> separates(seps, #[trigger] tail[i]),
        seps != Separators::Backslash,
    ensures
        name != seq!['.'] && name != seq!['.', '.'] ==> last_name(seps, dir + name + tail) == Some(
            name,
        ),
        name == seq!['.', '.'] ==> last_name(seps, dir + name + tail) is None,
        name == seq!['.'] ==> last_name(seps, dir + name + tail) == last_name(seps, dir),
    decreases tail.len(),
{
    let p = dir + name + tail;
    if tail.len() > 0 {
        let rest = tail.drop_last();
        assert(p.last() == tail[tail.len() - 1]);
        assert forall|i: int| 0 <= i < rest.len() implies separates(seps, #[trigger] rest[i]) by {
            assert(rest[i] == tail[i]);
        }
        assert(p.drop_last() =~= dir + name + rest);
        lemma_last_name_is(seps, dir, name, rest);
    } else {
        assert(p =~= dir + name);
        assert(p.last() == name[name.len() - 1]);
        lemma_component_start_is(seps, dir, name);
        assert(p.skip(dir.len() as int) =~= name);
        assert(p.take(dir.len() as int) =~= dir);
        assert(seq!['.'].len() == 1 && seq!['.', '.'].len() == 2);
    }
}

/// The file name of a path is the last name in it that is no single dot, whatever slashes
/// follow it; a path that ends with two dots has none, and neither has one without names.
pub proof fn lemma_unix_file_name(dir: Seq<char>, name: Seq<char>, tail: Seq<char>)
    requires
        dir.len() == 0 || dir.last() == '/',
        !name.contains('/'),
        name.len() > 0,
        forall|i: int| 0 <= i < tail.len() ==> #[trigger] tail[i] == '/',
    ensures
        name != seq!['.'] && name != seq!['.', '.'] ==> file_name(
            PathStyle::Unix,
            dir + name + tail,
        ) == Some(name),
        name == seq!['.', '.'] ==> file_name(PathStyle::Unix, dir + name + tail) is None,
        name == seq!['.'] ==> file_name(PathStyle::Unix, dir + name + tail) == file_name(
            PathStyle::Unix,
            dir,
        ),
        file_name(PathStyle::Unix, Seq::empty()) is None,
        file_name(PathStyle::Unix, tail) is None,
{
    let p = dir + name + tail;
    assert forall|i: int| 0 <= i < name.len() implies #[trigger] name[i] != '/' by {
        assert(name.contains(name[i]));
    }
    let inner = if dir.len() > 0 && dir[0] == '/' {
        dir.skip(1)
    } else {
        dir
    };
    assert(inner.len() == 0 || inner.last() == '/') by {
        if dir.len() > 1 && dir[0] == '/' {
            assert(inner.last() == dir.last());
        }
    }
    assert(body(PathStyle::Unix, p) =~= inner + name + tail) by {
        if dir.len() > 0 {
            assert(p[0] == dir[0]);
        } else {
            assert(p[0] == name[0]);
        }
    }
    assert(body(PathStyle::Unix, dir) =~= inner);
    lemma_last_name_is(Separators::Slash, inner, name, tail);
    lemma_no_names(Separators::Slash, body(PathStyle::Unix, tail));
    assert(body(PathStyle::Unix, Seq::<char>::empty()) =~= Seq::empty());
}

proof fn lemma_no_names(seps: Separators, p: Seq<char>)
    requires
        forall|i: int| 0 <= i < p.len() ==> separates(seps, #[trigger] p[i]),
    ensures
        last_name(seps, p) is None,
    decreases p.len(),
{
    if p.len() > 0 {
        let rest = p.drop_last();
        assert(separates(seps, p[p.len() - 1]));
        assert forall|i: int| 0 <= i < rest.len() implies separates(seps, #[trigger] rest[i]) by {
            assert(rest[i] == p[i]);
        }
        lemma_no_names(seps, rest);
    }
}

/// The file name of a path on a drive is the last name in it, whatever separators of
/// either kind stand before and after it.
pub proof fn lemma_windows_file_name(drive: char, dir: Seq<char>, name: Seq<char>, tail: Seq<char>)
    requires
        'a' <= drive <= 'z' || 'A' <= drive <= 'Z',
        dir.len() == 0 || dir.last() == '/' || dir.last() == '\\',
        !name.contains('/') && !name.contains('\\'),
        name.len() > 0,
        name != seq!['.'] && name != seq!['.', '.'],
        forall|i: int| 0 <= i < tail.len() ==> #[trigger] tail[i] == '/' || tail[i] == '\\',
    ensures
        file_name(PathStyle::Windows, seq![drive, ':'] + (dir + name + tail)) == Some(name),
{
    let p = seq![drive, ':'] + (dir + name + tail);
    assert forall|i: int| 0 <= i < name.len() implies #[trigger] name[i] != '/' && name[i]
        != '\\' by {
        assert(name.contains(name[i]));
    }
    assert(p[0] == drive && p[1] == ':');
    assert(prefix_len(PathStyle::Windows, p) == 2);
    let rest = dir + name + tail;
    assert(p.skip(2) =~= rest);
    assert(p[2] == rest[0]);
    let inner = if dir.len() > 0 && (dir[0] == '/' || dir[0] == '\\') {
        dir.skip(1)
    } else {
        dir
    };
    assert(inner.len() == 0 || separates(Separators::Either, inner.last())) by {
        if dir.len() > 1 {
            assert(dir.skip(1).last() == dir.last());
        }
    }
    assert(body(PathStyle::Windows, p) =~= inner + name + tail) by {
        if dir.len() > 0 {
            assert(rest[0] == dir[0]);
        } else {
            assert(rest[0] == name[0]);
        }
        assert(p.skip(3) =~= rest.skip(1));
    }
    lemma_last_name_is(Separators::Either, inner, name, tail);
}

/// The stem of a file name is what stands before its last dot; a name without a dot, and
/// one with no dot but the one that it starts with, is its own stem.
pub proof fn lemma_stem_ends_at_last_dot(front: Seq<char>, extension: Seq<char>)
    requires
        !extension.contains('.'),
    ensures
        front.len() > 0 ==> stem(front + seq!['.'] + extension) == front,
        front.len() == 0 ==> stem(front + seq!['.'] + extension) == front + seq!['.'] + extension,
        stem(extension) == extension,
{
    let name = front + seq!['.'] + extension;
    lemma_last_dot_is(front, extension);
    assert(name.take(front.len() as int) =~= front);
}

proof fn lemma_last_dot_is(front: Seq<char>, extension: Seq<char>)
    requires
        !extension.contains('.'),
    ensures
        last_dot(front + seq!['.'] + extension) == front.len(),
        last_dot(extension) == -1,
    decreases extension.len(),
{
    let name = front + seq!['.'] + extension;
    if extension.len() == 0 {
        assert(name.last() == '.');
    } else {
        let shorter = extension.drop_last();
        assert(extension.contains(extension[extension.len() - 1]));
        assert(name.last() == extension.last());
        assert(name.drop_last() =~= front + seq!['.'] + shorter);
        assert(!shorter.contains('.')) by {
            if shorter.contains('.') {
                let i = choose|i: int| 0 <= i < shorter.len() && shorter[i] == '.';
                assert(extension[i] == '.');
            }
        }
        lemma_last_dot_is(front, shorter);
    }
}

/// A language that is named holds, as it is written, where any character of it is no white
/// space; else the default does.
pub proof fn lemma_blank_language_is_default(named: Seq<char>, default: Seq<char>)
    ensures
        (exists|i: int| 0 <= i < named.len() && !is_whitespace(#[trigger] named[i]))
            ==> language_of(Some(named), default) == named,
        (forall|i: int| 0 <= i < named.len() ==> is_whitespace(#[trigger] named[i]))
            ==> language_of(Some(named), default) == default,
        language_of(None, default) == default,
{
    lemma_blank_is_trimmed_away(named);
}

proof fn lemma_blank_is_trimmed_away(s: Seq<char>)
    ensures
        trimmed(s).len() == 0 <==> forall|i: int|
            0 <= i < s.len() ==> is_whitespace(#[trigger] s[i]),
    decreases s.len(),
{
    if s.len() > 0 {
        if is_whitespace(s[0]) {
            let t = s.skip(1);
            lemma_blank_is_trimmed_away(t);
            if forall|i: int| 0 <= i < t.len() ==> is_whitespace(#[trigger] t[i]) {
                assert forall|i: int| 0 <= i < s.len() implies is_whitespace(#[trigger] s[i]) by {
                    assert(i > 0 ==> t[i - 1] == s[i]);
                }
            } else {
                let i = choose|i: int| 0 <= i < t.len() && !is_whitespace(#[trigger] t[i]);
                assert(s[i + 1] == t[i]);
            }
        } else {
            assert(!is_whitespace(s[0]));
            if is_whitespace(s.last()) {
                let t = s.drop_last();
                lemma_blank_is_trimmed_away(t);
                assert(t[0] == s[0]);
            }
        }
    }
}

/// The jobs of a manifest are its lines that are not blank, each without the white space
/// at its ends, with its number counted from one, and in order: nothing else is a job and
/// none is left out.
pub proof fn lemma_every_line_is_a_job(all: Seq<Seq<char>>)
    ensures
        ({
            let jobs = job_lines(all);
            &&& forall|k: int|
                0 <= k < jobs.len() ==> 1 <= (#[trigger] jobs[k]).0 <= all.len() && jobs[k].1
                    == trimmed(all[jobs[k].0 - 1]) && jobs[k].1.len() > 0
            &&& forall|k: int, l: int| 0 <= k < l < jobs.len() ==> jobs[k].0 < jobs[l].0
            &&& forall|i: int|
                0 <= i < all.len() && trimmed(#[trigger] all[i]).len() > 0 ==> exists|k: int|
                    0 <= k < jobs.len() && (#[trigger] jobs[k]).0 == i + 1
        }),
    decreases all.len(),
{
    let jobs = job_lines(all);
    if all.len() > 0 {
        let fewer = all.drop_last();
        let rest = job_lines(fewer);
        lemma_every_line_is_a_job(fewer);
        assert forall|k: int| 0 <= k < jobs.len() implies 1 <= (#[trigger] jobs[k]).0 <= all.len()
            && jobs[k].1 == trimmed(all[jobs[k].0 - 1]) && jobs[k].1.len() > 0 by {
            if k < rest.len() {
                assert(jobs[k] == rest[k]);
                assert(fewer[rest[k].0 - 1] == all[rest[k].0 - 1]);
            }
        }
        assert forall|k: int, l: int| 0 <= k < l < jobs.len() implies jobs[k].0 < jobs[l].0 by {
            assert(jobs[k] == rest[k]);
            if l < rest.len() {
                assert(jobs[l] == rest[l]);
            }
        }
        assert forall|i: int|
            0 <= i < all.len() && trimmed(#[trigger] all[i]).len() > 0 implies exists|k: int|
            0 <= k < jobs.len() && (#[trigger] jobs[k]).0 == i + 1 by {
            if i < fewer.len() {
                assert(fewer[i] == all[i]);
                let k = choose|k: int| 0 <= k < rest.len() && (#[trigger] rest[k]).0 == i + 1;
                assert(jobs[k] == rest[k]);
            } else {
                assert(jobs[jobs.len() - 1].0 == i + 1);
            }
        }
    }
}

} // verus!

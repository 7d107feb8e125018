//! The Windows path grammar: how a string falls apart into components.
//!
//! A path is an optional prefix, an optional root, and a body of segments
//! between separators. Both `\` and `/` separate, everywhere. Empty
//! segments and `.` segments vanish, but a `.` that opens a relative path
//! is kept, and `..` is a component of its own.
//!
//! The prefixes are a drive (`C:`), a server and a share
//! (`\\server\share`), a device (`\\.\name`), and the verbatim forms
//! `\\?\name` and `\\?\UNC\server\share`. The verbatim forms are known by
//! `\\?\` written with backslashes; the letters of `UNC` may be in either
//! case. Every prefix but a drive implies a root. A verbatim prefix is
//! kept as it was written; in any other the separators are unified.

use vstd::prelude::*;
use crate::text::{is_separator, is_ascii_letter, ascii_lower, separator, ascii_letter, chars_of};

verus! {

/// One component of a path, as specifications see it.
pub enum Part {
    Prefix(Seq<char>),
    RootDir,
    CurDir,
    ParentDir,
    Normal(Seq<char>),
}

/// One component of a path.
#[derive(Debug, PartialEq, Eq)]
pub enum Component {
    Prefix(String),
    RootDir,
    CurDir,
    ParentDir,
    Normal(String),
}

impl View for Component {
    type V = Part;

    open spec fn view(&self) -> Part {
        match self {
            Component::Prefix(t) => Part::Prefix(t@),
            Component::RootDir => Part::RootDir,
            Component::CurDir => Part::CurDir,
            Component::ParentDir => Part::ParentDir,
            Component::Normal(t) => Part::Normal(t@),
        }
    }
}

/// The components of `v`, each by its view.
pub open spec fn parts_of(v: Seq<Component>) -> Seq<Part> {
    Seq::new(v.len(), |i: int| v[i]@)
}

/// How many characters stand before the first separator of `s`.
pub open spec fn seg_len(s: Seq<char>) -> int
    decreases s.len(),
{
    if s.len() == 0 || is_separator(s[0]) {
        0
    } else {
        1 + seg_len(s.skip(1))
    }
}

/// The length of `first\second` at the start of `s`, where either segment
/// may be empty and the second may be missing.
pub open spec fn two_segments(s: Seq<char>) -> int {
    let first = seg_len(s);
    if first < s.len() {
        first + 1 + seg_len(s.skip(first + 1))
    } else {
        first
    }
}

/// `s` opens with `\\?\`, written with backslashes.
pub open spec fn is_verbatim(s: Seq<char>) -> bool {
    s.len() >= 4 && s[0] == '\\' && s[1] == '\\' && s[2] == '?' && s[3] == '\\'
}

/// `s` opens with `\\?\UNC\`, the letters in either case.
pub open spec fn is_verbatim_unc(s: Seq<char>) -> bool {
    is_verbatim(s) && s.len() >= 8 && ascii_lower(s[4]) == 'u' && ascii_lower(s[5]) == 'n'
        && ascii_lower(s[6]) == 'c' && s[7] == '\\'
}

/// `s` opens with `\\.\`, with either separator.
pub open spec fn is_device(s: Seq<char>) -> bool {
    s.len() >= 4 && is_separator(s[0]) && is_separator(s[1]) && s[2] == '.' && is_separator(
        s[3],
    )
}

/// `s` opens with two separators.
pub open spec fn is_double_separator(s: Seq<char>) -> bool {
    s.len() >= 2 && is_separator(s[0]) && is_separator(s[1])
}

/// `s` opens with a drive letter and a colon.
pub open spec fn is_drive(s: Seq<char>) -> bool {
    s.len() >= 2 && is_ascii_letter(s[0]) && s[1] == ':'
}

/// The length of `\\server\share` at the start of `s`, or 0 where the
/// server or the share is missing.
pub open spec fn unc_len(s: Seq<char>) -> int {
    let server = seg_len(s.skip(2));
    if server > 0 && 2 + server < s.len() {
        let share = seg_len(s.skip(2 + server + 1));
        if share > 0 {
            2 + server + 1 + share
        } else {
            0
        }
    } else {
        0
    }
}

/// The length of the prefix of `s`; 0 where it has none.
pub open spec fn prefix_len(s: Seq<char>) -> int {
    if is_verbatim_unc(s) {
        8 + two_segments(s.skip(8))
    } else if is_verbatim(s) {
        4 + seg_len(s.skip(4))
    } else if is_device(s) {
        4 + seg_len(s.skip(4))
    } else if is_double_separator(s) {
        unc_len(s)
    } else if is_drive(s) {
        2
    } else {
        0
    }
}

/// `c`, with the separator `/` written `\\`.
pub open spec fn unified_char(c: char) -> char {
    if c == '/' {
        '\\'
    } else {
        c
    }
}

/// `t` with every separator written `\\`.
pub open spec fn unified(t: Seq<char>) -> Seq<char> {
    Seq::new(t.len(), |i: int| unified_char(t[i]))
}

/// The text of the prefix of `s`. A verbatim prefix is kept as it was
/// written. In any other, the separators are unified, so that
/// `//server/share` and `\\\\server\\share` are one prefix.
pub open spec fn prefix_text(s: Seq<char>) -> Seq<char> {
    let written = s.take(prefix_len(s));
    if is_verbatim(s) {
        written
    } else {
        unified(written)
    }
}

/// `s` is `.` alone or `.` before a separator.
pub open spec fn leading_dot(s: Seq<char>) -> bool {
    s.len() >= 1 && s[0] == '.' && (s.len() == 1 || is_separator(s[1]))
}

/// What one segment of the body contributes: nothing where it is empty or
/// `.`, the parent directory for `..`, else a normal component.
pub open spec fn segment(seg: Seq<char>) -> Seq<Part> {
    if seg.len() == 0 || seg == seq!['.'] {
        Seq::empty()
    } else if seg == seq!['.', '.'] {
        seq![Part::ParentDir]
    } else {
        seq![Part::Normal(seg)]
    }
}

/// The components of a body: its segments, split at each separator.
pub open spec fn body(s: Seq<char>) -> Seq<Part>
    decreases s.len(),
{
    if s.len() == 0 {
        Seq::empty()
    } else {
        let n = seg_len(s);
        if n < s.len() {
            proof {
                lemma_seg_len_bound(s);
            }
            segment(s.take(n)) + body(s.skip(n + 1))
        } else {
            segment(s)
        }
    }
}

/// What follows the prefix and the root separator, if there is one.
pub open spec fn tail_of(s: Seq<char>) -> Seq<char> {
    let rest = s.skip(prefix_len(s));
    if rest.len() > 0 && is_separator(rest[0]) {
        rest.skip(1)
    } else {
        rest
    }
}

/// `s` has a root: a separator after the prefix, or a prefix other than a
/// drive, which implies one.
pub open spec fn has_root(s: Seq<char>) -> bool {
    let p = prefix_len(s);
    (p < s.len() && is_separator(s[p])) || (p > 0 && !is_drive(s))
}

/// The components of the path `s`.
pub open spec fn components(s: Seq<char>) -> Seq<Part> {
    let p = prefix_len(s);
    let tail = tail_of(s);
    (if p > 0 {
        seq![Part::Prefix(prefix_text(s))]
    } else {
        Seq::empty()
    }) + (if has_root(s) {
        seq![Part::RootDir]
    } else {
        Seq::empty()
    }) + (if !has_root(s) && leading_dot(tail) {
        seq![Part::CurDir]
    } else {
        Seq::empty()
    }) + body(tail)
}

/// `seg_len` is the one number up to which no separator stands and at
/// which one does, or the string ends.
pub proof fn lemma_seg_len_is(s: Seq<char>, n: int)
    requires
        0 <= n <= s.len(),
        forall|j: int| 0 <= j < n ==> !is_separator(#[trigger] s[j]),
        n == s.len() || is_separator(s[n]),
    ensures
        seg_len(s) == n,
    decreases n,
{
    if n > 0 {
        let t = s.skip(1);
        assert forall|j: int| 0 <= j < n - 1 implies !is_separator(#[trigger] t[j]) by {
            assert(t[j] == s[j + 1]);
        }
        lemma_seg_len_is(t, n - 1);
    }
}

/// A segment ends within the string, holds no separator, and is followed
/// by one unless the string ends.
pub proof fn lemma_seg_len_bound(s: Seq<char>)
    ensures
        0 <= seg_len(s) <= s.len(),
        forall|j: int| 0 <= j < seg_len(s) ==> !is_separator(#[trigger] s[j]),
        seg_len(s) == s.len() || is_separator(s[seg_len(s)]),
    decreases s.len(),
{
    if s.len() == 0 || is_separator(s[0]) {
    } else {
        let t = s.skip(1);
        lemma_seg_len_bound(t);
        assert forall|j: int| 0 <= j < seg_len(s) implies !is_separator(#[trigger] s[j]) by {
            if j > 0 {
                assert(s[j] == t[j - 1]);
            }
        }
    }
}

/// A prefix ends within the string.
pub proof fn lemma_prefix_len_bound(s: Seq<char>)
    ensures
        0 <= prefix_len(s) <= s.len(),
        prefix_text(s).len() == prefix_len(s),
{
    if is_verbatim_unc(s) {
        let t = s.skip(8);
        lemma_seg_len_bound(t);
        if seg_len(t) < t.len() {
            lemma_seg_len_bound(t.skip(seg_len(t) + 1));
        }
    } else if is_verbatim(s) || is_device(s) {
        lemma_seg_len_bound(s.skip(4));
    } else if is_double_separator(s) {
        let t = s.skip(2);
        lemma_seg_len_bound(t);
        if seg_len(t) > 0 && 2 + seg_len(t) < s.len() {
            lemma_seg_len_bound(s.skip(2 + seg_len(t) + 1));
        }
    }
}

/// The index at which the segment that starts at `from` ends.
fn segment_end(s: &Vec<char>, from: usize) -> (end: usize)
    requires
        from <= s.len(),
    ensures
        from <= end <= s.len(),
        end == from + seg_len(s@.skip(from as int)),
{
    let mut i: usize = from;
    while i < s.len() && !separator(s[i])
        invariant
            from <= i <= s.len(),
            forall|j: int| from <= j < i ==> !is_separator(#[trigger] s@[j]),
        decreases s.len() - i,
    {
        i += 1;
    }
    proof {
        let t = s@.skip(from as int);
        assert forall|j: int| 0 <= j < i - from implies !is_separator(#[trigger] t[j]) by {
            assert(t[j] == s@[from + j]);
        }
        lemma_seg_len_is(t, i - from);
    }
    i
}

/// The length of the prefix of `s`.
pub(crate) fn prefix_end(s: &Vec<char>) -> (p: usize)
    ensures
        p == prefix_len(s@),
        p <= s.len(),
{
    proof {
        lemma_prefix_len_bound(s@);
    }
    let n = s.len();
    if n >= 4 && s[0] == '\\' && s[1] == '\\' && s[2] == '?' && s[3] == '\\' {
        if n >= 8 && (s[4] == 'u' || s[4] == 'U') && (s[5] == 'n' || s[5] == 'N') && (s[6] == 'c'
            || s[6] == 'C') && s[7] == '\\' {
            let first = segment_end(s, 8);
            if first < n {
                proof {
                    assert(s@.skip(8).skip(first - 8 + 1) == s@.skip(first + 1));
                }
                segment_end(s, first + 1)
            } else {
                first
            }
        } else {
            segment_end(s, 4)
        }
    } else if n >= 4 && separator(s[0]) && separator(s[1]) && s[2] == '.' && separator(s[3]) {
        segment_end(s, 4)
    } else if n >= 2 && separator(s[0]) && separator(s[1]) {
        let server = segment_end(s, 2);
        if server > 2 && server < n {
            let share = segment_end(s, server + 1);
            if share > server + 1 {
                share
            } else {
                0
            }
        } else {
            0
        }
    } else if n >= 2 && ascii_letter(s[0]) && s[1] == ':' {
        2
    } else {
        0
    }
}

/// The characters of `s` from `start` up to `end`, as a string.
fn text_between(s: &Vec<char>, start: usize, end: usize) -> (r: String)
    requires
        start <= end <= s.len(),
    ensures
        r@ == s@.subrange(start as int, end as int),
{
    let mut out = String::new();
    let mut i: usize = start;
    while i < end
        invariant
            start <= i <= end <= s.len(),
            out@ == s@.subrange(start as int, i as int),
        decreases end - i,
    {
        out.push(s[i]);
        proof {
            assert(s@.subrange(start as int, i as int).push(s@[i as int]) == s@.subrange(
                start as int,
                i + 1,
            ));
        }
        i += 1;
    }
    out
}

/// The first `end` characters of `s` with their separators unified.
fn unified_between(s: &Vec<char>, end: usize) -> (r: String)
    requires
        end <= s.len(),
    ensures
        r@ == unified(s@.take(end as int)),
{
    let mut out = String::new();
    let mut i: usize = 0;
    while i < end
        invariant
            i <= end <= s.len(),
            out@ == unified(s@.take(i as int)),
        decreases end - i,
    {
        let c = if s[i] == '/' { '\\' } else { s[i] };
        out.push(c);
        proof {
            assert(unified(s@.take(i as int)).push(unified_char(s@[i as int])) == unified(
                s@.take(i + 1),
            ));
        }
        i += 1;
    }
    out
}

/// Appends to `out` what the segment from `start` to `end` contributes.
fn push_segment(out: &mut Vec<Component>, s: &Vec<char>, start: usize, end: usize)
    requires
        start <= end <= s.len(),
    ensures
        parts_of(final(out)@) == parts_of(old(out)@) + segment(
            s@.subrange(start as int, end as int),
        ),
{
    let ghost seg = s@.subrange(start as int, end as int);
    let ghost before = out@;
    let len = end - start;
    if len == 0 {
        assert(parts_of(out@) == parts_of(before) + segment(seg));
    } else if len == 1 && s[start] == '.' {
        assert(seg == seq!['.']);
        assert(parts_of(out@) == parts_of(before) + segment(seg));
    } else if len == 2 && s[start] == '.' && s[start + 1] == '.' {
        assert(seg == seq!['.', '.']);
        out.push(Component::ParentDir);
        assert(parts_of(out@) == parts_of(before) + segment(seg));
    } else {
        proof {
            let dot = seq!['.'];
            let dots = seq!['.', '.'];
            assert(seg[0] == s@[start as int]);
            if len >= 2 {
                assert(seg[1] == s@[start + 1]);
            }
            assert(dot.len() == 1 && dot[0] == '.');
            assert(dots.len() == 2 && dots[0] == '.' && dots[1] == '.');
            assert(seg != dot);
            assert(seg != dots);
        }
        let text = text_between(s, start, end);
        out.push(Component::Normal(text));
        assert(parts_of(out@) == parts_of(before) + segment(seg));
    }
}

/// The components of the path whose characters are `s`.
pub(crate) fn parse_chars(s: &Vec<char>) -> (r: Vec<Component>)
    ensures
        parts_of(r@) == components(s@),
{
    let n = s.len();
    let p = prefix_end(s);
    let mut out: Vec<Component> = Vec::new();
    if p > 0 {
        let verbatim = n >= 4 && s[0] == '\\' && s[1] == '\\' && s[2] == '?' && s[3] == '\\';
        let text = if verbatim {
            let written = text_between(s, 0, p);
            assert(s@.subrange(0, p as int) == s@.take(p as int));
            written
        } else {
            unified_between(s, p)
        };
        out.push(Component::Prefix(text));
    }
    let physical = p < n && separator(s[p]);
    let drive = n >= 2 && ascii_letter(s[0]) && s[1] == ':';
    let rooted = physical || (p > 0 && !drive);
    let start: usize = if physical { p + 1 } else { p };
    proof {
        assert(s@.skip(p as int).len() == n - p);
        if physical {
            assert(s@.skip(p as int)[0] == s@[p as int]);
            assert(s@.skip(p as int).skip(1) == s@.skip(start as int));
        }
        assert(tail_of(s@) == s@.skip(start as int));
    }
    if rooted {
        out.push(Component::RootDir);
    } else if start < n && s[start] == '.' && (start + 1 == n || separator(s[start + 1])) {
        out.push(Component::CurDir);
    }
    let ghost tail = s@.skip(start as int);
    proof {
        if start < n {
            assert(tail[0] == s@[start as int]);
            if start + 1 < n {
                assert(tail[1] == s@[start + 1]);
            }
        }
        assert(parts_of(out@) + body(tail) == components(s@));
    }
    let mut i: usize = start;
    while i < n
        invariant
            start <= i <= n,
            n == s.len(),
            parts_of(out@) + body(s@.skip(i as int)) == components(s@),
        decreases n - i,
    {
        let end = segment_end(s, i);
        let ghost before = out@;
        let ghost rest = s@.skip(i as int);
        push_segment(&mut out, s, i, end);
        proof {
            assert(rest.take(end - i) == s@.subrange(i as int, end as int));
            if end < n {
                assert(rest.skip(end - i + 1) == s@.skip(end + 1));
            } else {
                assert(rest.take(end - i) == rest);
                assert(body(s@.skip(n as int)) == Seq::<Part>::empty());
            }
        }
        i = if end < n { end + 1 } else { end };
    }
    proof {
        assert(body(s@.skip(n as int)) == Seq::<Part>::empty());
    }
    out
}

/// The components of `path`.
pub fn parse(path: &str) -> (r: Vec<Component>)
    ensures
        parts_of(r@) == components(path@),
{
    let chars = chars_of(path);
    parse_chars(&chars)
}

} // verus!

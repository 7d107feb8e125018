//! Paths that differ only in characters the grammar cannot tell apart fall
//! into the same components, and so do their cleaned forms.

use vstd::prelude::*;
use crate::clean::{clean, clean_step, cleaned, is_drive_text, join_parts, needs_separator, part_text, separator_before_last};
use crate::grammar::{Part, prefix_text, unified, body, components, has_root, is_device, is_double_separator, is_drive, is_verbatim, is_verbatim_unc, leading_dot, lemma_prefix_len_bound, lemma_seg_len_bound, prefix_len, seg_len, segment, tail_of, two_segments};
use crate::text::{ascii_lower, is_ascii, is_ascii_letter, is_separator};

verus! {

/// The grammar cannot tell `a` from `b`: where either is ASCII, they are
/// the same character but for the case of a letter.
pub open spec fn same_class(a: char, b: char) -> bool {
    (is_ascii(a) || is_ascii(b)) ==> ascii_lower(a) == ascii_lower(b)
}

/// A relation between characters under which the grammar sees no
/// difference, and which holds between `\` and itself and between `.` and
/// itself, the two characters that cleaning writes.
pub open spec fn respects_grammar(r: spec_fn(char, char) -> bool) -> bool {
    &&& forall|a: char, b: char| #[trigger] r(a, b) ==> same_class(a, b)
    &&& r('\\', '\\')
    &&& r('.', '.')
}

/// `p` and `q` have the same length and are related place by place.
pub open spec fn related(r: spec_fn(char, char) -> bool, p: Seq<char>, q: Seq<char>) -> bool {
    p.len() == q.len() && forall|i: int| 0 <= i < p.len() ==> #[trigger] r(p[i], q[i])
}

/// Two components of the same kind with related texts.
pub open spec fn related_part(r: spec_fn(char, char) -> bool, a: Part, b: Part) -> bool {
    match (a, b) {
        (Part::Prefix(x), Part::Prefix(y)) => related(r, x, y),
        (Part::RootDir, Part::RootDir) => true,
        (Part::CurDir, Part::CurDir) => true,
        (Part::ParentDir, Part::ParentDir) => true,
        (Part::Normal(x), Part::Normal(y)) => related(r, x, y),
        _ => false,
    }
}

/// Two lists of components, related place by place.
pub open spec fn related_parts(r: spec_fn(char, char) -> bool, a: Seq<Part>, b: Seq<Part>) -> bool {
    a.len() == b.len() && forall|i: int| 0 <= i < a.len() ==> #[trigger] related_part(r, a[i], b[i])
}

/// What the grammar asks of a character has the same answer for both.
pub proof fn lemma_same_class(a: char, b: char)
    requires
        same_class(a, b),
    ensures
        is_separator(a) == is_separator(b),
        (a == '\\') == (b == '\\'),
        (a == '.') == (b == '.'),
        (a == ':') == (b == ':'),
        (a == '?') == (b == '?'),
        is_ascii_letter(a) == is_ascii_letter(b),
        ascii_lower(a) == 'u' <==> ascii_lower(b) == 'u',
        ascii_lower(a) == 'n' <==> ascii_lower(b) == 'n',
        ascii_lower(a) == 'c' <==> ascii_lower(b) == 'c',
{
}

proof fn lemma_related_skip(r: spec_fn(char, char) -> bool, p: Seq<char>, q: Seq<char>, k: int)
    requires
        related(r, p, q),
        0 <= k <= p.len(),
    ensures
        related(r, p.skip(k), q.skip(k)),
        related(r, p.take(k), q.take(k)),
{
    assert forall|i: int| 0 <= i < p.skip(k).len() implies #[trigger] r(
        p.skip(k)[i],
        q.skip(k)[i],
    ) by {
        assert(r(p[i + k], q[i + k]));
    }
    assert forall|i: int| 0 <= i < p.take(k).len() implies #[trigger] r(
        p.take(k)[i],
        q.take(k)[i],
    ) by {
        assert(r(p[i], q[i]));
    }
}

proof fn lemma_related_concat(
    r: spec_fn(char, char) -> bool,
    x: Seq<char>,
    y: Seq<char>,
    more_x: Seq<char>,
    more_y: Seq<char>,
)
    requires
        related(r, x, y),
        related(r, more_x, more_y),
    ensures
        related(r, x + more_x, y + more_y),
{
    assert forall|i: int| 0 <= i < (x + more_x).len() implies #[trigger] r(
        (x + more_x)[i],
        (y + more_y)[i],
    ) by {
        if i < x.len() {
            assert(r(x[i], y[i]));
        } else {
            assert(r(more_x[i - x.len()], more_y[i - x.len()]));
        }
    }
}

/// The grammar's questions about the character in place `i` have the same
/// answers for `p` and `q`.
proof fn lemma_same_at(r: spec_fn(char, char) -> bool, p: Seq<char>, q: Seq<char>, i: int)
    requires
        respects_grammar(r),
        related(r, p, q),
        0 <= i < p.len(),
    ensures
        is_separator(p[i]) == is_separator(q[i]),
        (p[i] == '\\') == (q[i] == '\\'),
        (p[i] == '.') == (q[i] == '.'),
        (p[i] == ':') == (q[i] == ':'),
        (p[i] == '?') == (q[i] == '?'),
        is_ascii_letter(p[i]) == is_ascii_letter(q[i]),
        ascii_lower(p[i]) == 'u' <==> ascii_lower(q[i]) == 'u',
        ascii_lower(p[i]) == 'n' <==> ascii_lower(q[i]) == 'n',
        ascii_lower(p[i]) == 'c' <==> ascii_lower(q[i]) == 'c',
{
    assert(r(p[i], q[i]));
    lemma_same_class(p[i], q[i]);
}

/// Related texts have first segments of the same length.
pub proof fn lemma_seg_len_related(r: spec_fn(char, char) -> bool, p: Seq<char>, q: Seq<char>)
    requires
        respects_grammar(r),
        related(r, p, q),
    ensures
        seg_len(p) == seg_len(q),
    decreases p.len(),
{
    if p.len() > 0 {
        lemma_same_at(r, p, q, 0);
        if !is_separator(p[0]) {
            lemma_related_skip(r, p, q, 1);
            lemma_seg_len_related(r, p.skip(1), q.skip(1));
        }
    }
}

proof fn lemma_two_segments_related(r: spec_fn(char, char) -> bool, p: Seq<char>, q: Seq<char>)
    requires
        respects_grammar(r),
        related(r, p, q),
    ensures
        two_segments(p) == two_segments(q),
{
    lemma_seg_len_related(r, p, q);
    lemma_seg_len_bound(p);
    let first = seg_len(p);
    if first < p.len() {
        lemma_related_skip(r, p, q, first + 1);
        lemma_seg_len_related(r, p.skip(first + 1), q.skip(first + 1));
    }
}

/// Related texts have prefixes of the same kind and length.
pub proof fn lemma_prefix_len_related(r: spec_fn(char, char) -> bool, p: Seq<char>, q: Seq<char>)
    requires
        respects_grammar(r),
        related(r, p, q),
    ensures
        prefix_len(p) == prefix_len(q),
        is_drive(p) == is_drive(q),
        is_double_separator(p) == is_double_separator(q),
        is_verbatim(p) == is_verbatim(q),
{
    if p.len() >= 1 {
        lemma_same_at(r, p, q, 0);
    }
    if p.len() >= 2 {
        lemma_same_at(r, p, q, 1);
    }
    if p.len() >= 4 {
        lemma_same_at(r, p, q, 2);
        lemma_same_at(r, p, q, 3);
    }
    if p.len() >= 8 {
        lemma_same_at(r, p, q, 4);
        lemma_same_at(r, p, q, 5);
        lemma_same_at(r, p, q, 6);
        lemma_same_at(r, p, q, 7);
    }
    assert(is_verbatim(p) == is_verbatim(q));
    assert(is_verbatim_unc(p) == is_verbatim_unc(q));
    assert(is_device(p) == is_device(q));
    if is_verbatim_unc(p) {
        lemma_related_skip(r, p, q, 8);
        lemma_two_segments_related(r, p.skip(8), q.skip(8));
    } else if is_verbatim(p) || is_device(p) {
        lemma_related_skip(r, p, q, 4);
        lemma_seg_len_related(r, p.skip(4), q.skip(4));
    } else if is_double_separator(p) {
        lemma_related_skip(r, p, q, 2);
        lemma_seg_len_related(r, p.skip(2), q.skip(2));
        lemma_seg_len_bound(p.skip(2));
        let server = seg_len(p.skip(2));
        if server > 0 && 2 + server < p.len() {
            lemma_related_skip(r, p, q, 2 + server + 1);
            lemma_seg_len_related(r, p.skip(2 + server + 1), q.skip(2 + server + 1));
        }
    }
}

proof fn lemma_segment_related(r: spec_fn(char, char) -> bool, p: Seq<char>, q: Seq<char>)
    requires
        respects_grammar(r),
        related(r, p, q),
    ensures
        related_parts(r, segment(p), segment(q)),
{
    let dot = seq!['.'];
    let dots = seq!['.', '.'];
    if p.len() >= 1 {
        lemma_same_at(r, p, q, 0);
    }
    if p.len() >= 2 {
        lemma_same_at(r, p, q, 1);
    }
    assert(dot.len() == 1 && dot[0] == '.');
    assert(dots.len() == 2 && dots[0] == '.' && dots[1] == '.');
    if p == dot {
        assert(q == dot);
    } else if q == dot {
        assert(p == dot);
    }
    if p == dots {
        assert(q == dots);
    } else if q == dots {
        assert(p == dots);
    }
}

proof fn lemma_related_parts_concat(
    r: spec_fn(char, char) -> bool,
    a1: Seq<Part>,
    b1: Seq<Part>,
    a2: Seq<Part>,
    b2: Seq<Part>,
)
    requires
        related_parts(r, a1, b1),
        related_parts(r, a2, b2),
    ensures
        related_parts(r, a1 + a2, b1 + b2),
{
    assert forall|i: int| 0 <= i < (a1 + a2).len() implies #[trigger] related_part(
        r,
        (a1 + a2)[i],
        (b1 + b2)[i],
    ) by {
        if i < a1.len() {
            assert(related_part(r, a1[i], b1[i]));
        } else {
            assert(related_part(r, a2[i - a1.len()], b2[i - a1.len()]));
        }
    }
}

/// Related bodies fall into related components.
pub proof fn lemma_body_related(r: spec_fn(char, char) -> bool, p: Seq<char>, q: Seq<char>)
    requires
        respects_grammar(r),
        related(r, p, q),
    ensures
        related_parts(r, body(p), body(q)),
    decreases p.len(),
{
    if p.len() > 0 {
        lemma_seg_len_related(r, p, q);
        lemma_seg_len_bound(p);
        let n = seg_len(p);
        if n < p.len() {
            lemma_related_skip(r, p, q, n);
            lemma_related_skip(r, p, q, n + 1);
            lemma_segment_related(r, p.take(n), q.take(n));
            lemma_body_related(r, p.skip(n + 1), q.skip(n + 1));
            lemma_related_parts_concat(
                r,
                segment(p.take(n)),
                segment(q.take(n)),
                body(p.skip(n + 1)),
                body(q.skip(n + 1)),
            );
        } else {
            lemma_segment_related(r, p, q);
        }
    }
}

/// Related paths fall into related components.
pub proof fn lemma_components_related(r: spec_fn(char, char) -> bool, p: Seq<char>, q: Seq<char>)
    requires
        respects_grammar(r),
        related(r, p, q),
    ensures
        related_parts(r, components(p), components(q)),
{
    lemma_prefix_len_related(r, p, q);
    lemma_prefix_len_bound(p);
    let n = prefix_len(p);
    lemma_related_skip(r, p, q, n);
    let rest_p = p.skip(n);
    let rest_q = q.skip(n);
    if rest_p.len() > 0 {
        lemma_same_at(r, rest_p, rest_q, 0);
        assert(rest_p[0] == p[n] && rest_q[0] == q[n]);
        lemma_related_skip(r, rest_p, rest_q, 1);
    }
    let tail_p = tail_of(p);
    let tail_q = tail_of(q);
    assert(related(r, tail_p, tail_q));
    assert(has_root(p) == has_root(q));
    if tail_p.len() >= 1 {
        lemma_same_at(r, tail_p, tail_q, 0);
    }
    if tail_p.len() >= 2 {
        lemma_same_at(r, tail_p, tail_q, 1);
    }
    assert(leading_dot(tail_p) == leading_dot(tail_q));
    lemma_body_related(r, tail_p, tail_q);
    let head_p = if n > 0 {
        seq![Part::Prefix(prefix_text(p))]
    } else {
        Seq::empty()
    };
    let head_q = if n > 0 {
        seq![Part::Prefix(prefix_text(q))]
    } else {
        Seq::empty()
    };
    assert(related(r, prefix_text(p), prefix_text(q))) by {
        lemma_related_skip(r, p, q, n);
        let wp = p.take(n);
        let wq = q.take(n);
        if !is_verbatim(p) {
            assert forall|i: int| 0 <= i < wp.len() implies #[trigger] r(
                unified(wp)[i],
                unified(wq)[i],
            ) by {
                lemma_same_at(r, wp, wq, i);
                assert(r(wp[i], wq[i]));
                assert((wp[i] == '/') == (wq[i] == '/'));
            }
        }
    }
    assert(related_parts(r, head_p, head_q));
    let root_p = if has_root(p) {
        seq![Part::RootDir]
    } else {
        Seq::empty()
    };
    let cur_p = if !has_root(p) && leading_dot(tail_p) {
        seq![Part::CurDir]
    } else {
        Seq::empty()
    };
    assert(related_parts(r, root_p, root_p));
    assert(related_parts(r, cur_p, cur_p));
    lemma_related_parts_concat(r, head_p, head_q, root_p, root_p);
    lemma_related_parts_concat(r, head_p + root_p, head_q + root_p, cur_p, cur_p);
    lemma_related_parts_concat(
        r,
        head_p + root_p + cur_p,
        head_q + root_p + cur_p,
        body(tail_p),
        body(tail_q),
    );
}

/// Related components are cleaned to related components.
pub proof fn lemma_clean_related(r: spec_fn(char, char) -> bool, a: Seq<Part>, b: Seq<Part>)
    requires
        related_parts(r, a, b),
    ensures
        related_parts(r, clean(a), clean(b)),
    decreases a.len(),
{
    if a.len() > 0 {
        let a0 = a.drop_last();
        let b0 = b.drop_last();
        assert forall|i: int| 0 <= i < a0.len() implies #[trigger] related_part(
            r,
            a0[i],
            b0[i],
        ) by {
            assert(related_part(r, a[i], b[i]));
        }
        lemma_clean_related(r, a0, b0);
        let ca = clean(a0);
        let cb = clean(b0);
        assert(related_part(r, a[a.len() - 1], b[a.len() - 1]));
        if ca.len() > 0 {
            assert(related_part(r, ca[ca.len() - 1], cb[ca.len() - 1]));
        }
        let na = clean_step(ca, a.last());
        let nb = clean_step(cb, b.last());
        assert forall|i: int| 0 <= i < na.len() implies #[trigger] related_part(
            r,
            na[i],
            nb[i],
        ) by {
            if i < ca.len() {
                assert(related_part(r, ca[i], cb[i]));
            }
        }
    }
}

proof fn lemma_part_text_related(r: spec_fn(char, char) -> bool, a: Part, b: Part)
    requires
        respects_grammar(r),
        related_part(r, a, b),
    ensures
        related(r, part_text(a), part_text(b)),
{
}

/// Related components are written out as related texts.
pub proof fn lemma_join_related(r: spec_fn(char, char) -> bool, a: Seq<Part>, b: Seq<Part>)
    requires
        respects_grammar(r),
        related_parts(r, a, b),
    ensures
        related(r, join_parts(a), join_parts(b)),
    decreases a.len(),
{
    if a.len() > 0 {
        let a0 = a.drop_last();
        let b0 = b.drop_last();
        assert forall|i: int| 0 <= i < a0.len() implies #[trigger] related_part(
            r,
            a0[i],
            b0[i],
        ) by {
            assert(related_part(r, a[i], b[i]));
        }
        lemma_join_related(r, a0, b0);
        assert(related_part(r, a[a.len() - 1], b[a.len() - 1]));
        lemma_part_text_related(r, a.last(), b.last());
        if a.len() >= 2 {
            let pa = a[a.len() - 2];
            let pb = b[a.len() - 2];
            assert(related_part(r, pa, pb));
            match (pa, pb) {
                (Part::Prefix(x), Part::Prefix(y)) => {
                    if x.len() == 2 {
                        lemma_same_at(r, x, y, 0);
                        lemma_same_at(r, x, y, 1);
                    }
                    assert(is_drive_text(x) == is_drive_text(y));
                },
                _ => {},
            }
            assert(needs_separator(pa, a.last()) == needs_separator(pb, b.last()));
        }
        let sa = separator_before_last(a);
        let sb = separator_before_last(b);
        assert(sa == sb);
        assert(related(r, sa, sb));
        lemma_related_concat(r, join_parts(a0), join_parts(b0), sa, sb);
        lemma_related_concat(
            r,
            join_parts(a0) + sa,
            join_parts(b0) + sb,
            part_text(a.last()),
            part_text(b.last()),
        );
    }
}

/// Related paths have related cleaned forms.
pub proof fn lemma_cleaned_related(r: spec_fn(char, char) -> bool, p: Seq<char>, q: Seq<char>)
    requires
        respects_grammar(r),
        related(r, p, q),
    ensures
        related(r, cleaned(p), cleaned(q)),
        related_parts(r, clean(components(p)), clean(components(q))),
{
    lemma_components_related(r, p, q);
    lemma_clean_related(r, components(p), components(q));
    lemma_join_related(r, clean(components(p)), clean(components(q)));
}

/// The relation of being the same character, of which `holds` is true.
pub open spec fn by_holding(holds: spec_fn(char) -> bool) -> spec_fn(char, char) -> bool {
    |a: char, b: char| a == b && holds(a)
}

/// What is true of `\\`, of `.` and of every character of a path is true
/// of every character of its cleaned form.
pub proof fn lemma_cleaned_holds(holds: spec_fn(char) -> bool, p: Seq<char>)
    requires
        holds('\\'),
        holds('.'),
        forall|i: int| 0 <= i < p.len() ==> #[trigger] holds(p[i]),
    ensures
        forall|i: int| 0 <= i < cleaned(p).len() ==> #[trigger] holds(cleaned(p)[i]),
{
    let r = by_holding(holds);
    assert(respects_grammar(r)) by {
        assert(r('\\', '\\'));
        assert(r('.', '.'));
        assert forall|a: char, b: char| #[trigger] r(a, b) implies same_class(a, b) by {}
    }
    assert(related(r, p, p)) by {
        assert forall|i: int| 0 <= i < p.len() implies #[trigger] r(p[i], p[i]) by {
            assert(holds(p[i]));
        }
    }
    lemma_cleaned_related(r, p, p);
    let x = cleaned(p);
    assert forall|i: int| 0 <= i < x.len() implies #[trigger] holds(x[i]) by {
        assert(r(x[i], x[i]));
    }
}

/// What is true of `\\`, of `.` and of every character of a path is true
/// of every character of its components written out again.
pub proof fn lemma_rest_holds(holds: spec_fn(char) -> bool, s: Seq<char>, from: int)
    requires
        holds('\\'),
        holds('.'),
        forall|i: int| 0 <= i < s.len() ==> #[trigger] holds(s[i]),
        0 <= from <= components(s).len(),
    ensures
        forall|i: int|
            0 <= i < join_parts(components(s).skip(from)).len() ==> #[trigger] holds(
                join_parts(components(s).skip(from))[i],
            ),
{
    let r = by_holding(holds);
    assert(respects_grammar(r)) by {
        assert(r('\\', '\\'));
        assert(r('.', '.'));
        assert forall|a: char, b: char| #[trigger] r(a, b) implies same_class(a, b) by {}
    }
    assert(related(r, s, s)) by {
        assert forall|i: int| 0 <= i < s.len() implies #[trigger] r(s[i], s[i]) by {
            assert(holds(s[i]));
        }
    }
    lemma_components_related(r, s, s);
    let parts = components(s);
    let rest = parts.skip(from);
    assert forall|i: int| 0 <= i < rest.len() implies #[trigger] related_part(
        r,
        rest[i],
        rest[i],
    ) by {
        assert(related_part(r, parts[i + from], parts[i + from]));
    }
    lemma_join_related(r, rest, rest);
    let j = join_parts(rest);
    assert forall|i: int| 0 <= i < j.len() implies #[trigger] holds(j[i]) by {
        assert(r(j[i], j[i]));
    }
}

} // verus!

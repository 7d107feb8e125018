//! What the components of a path are once more components have been
//! written behind it.

use vstd::prelude::*;
use crate::clean::{join_parts, needs_separator, part_text};
use crate::grammar::{Part, prefix_text, body, components, has_root, is_device, is_double_separator, is_drive, is_verbatim, is_verbatim_unc, leading_dot, lemma_prefix_len_bound, lemma_seg_len_bound, lemma_seg_len_is, prefix_len, seg_len, segment, tail_of, two_segments, unc_len};
use crate::join::joined;
use crate::text::is_separator;

verus! {

/// No character of `t` is a separator.
pub open spec fn is_unbroken(t: Seq<char>) -> bool {
    forall|i: int| 0 <= i < t.len() ==> !is_separator(#[trigger] t[i])
}

/// `t` can be the text of a normal component: it is not empty, holds no
/// separator, and is neither `.` nor `..`.
pub open spec fn is_name(t: Seq<char>) -> bool {
    t.len() > 0 && is_unbroken(t) && t != seq!['.'] && t != seq!['.', '.']
}

/// A component of the kind that bodies are made of: `..` or a name.
pub open spec fn is_plain(c: Part) -> bool {
    match c {
        Part::ParentDir => true,
        Part::Normal(t) => is_name(t),
        _ => false,
    }
}

/// Every component is plain.
pub open spec fn all_plain(parts: Seq<Part>) -> bool {
    forall|i: int| 0 <= i < parts.len() ==> is_plain(#[trigger] parts[i])
}

/// The text of a path can take more text behind it without its prefix
/// changing: it is not empty, it does not open with two separators unless
/// these open a prefix, and a prefix other than a drive is followed by
/// something, which is then a separator.
pub open spec fn is_anchored(a: Seq<char>) -> bool {
    &&& a.len() > 0
    &&& prefix_len(a) == 0 ==> !is_double_separator(a)
    &&& prefix_len(a) > 0 && !is_drive(a) ==> prefix_len(a) < a.len()
}

/// A segment that ends at a separator ends there whatever is written
/// behind the text.
pub proof fn lemma_seg_len_keeps(x: Seq<char>, y: Seq<char>)
    requires
        seg_len(x) < x.len(),
    ensures
        seg_len(x + y) == seg_len(x),
{
    lemma_seg_len_bound(x);
    let n = seg_len(x);
    let z = x + y;
    assert forall|j: int| 0 <= j < n implies !is_separator(#[trigger] z[j]) by {
        assert(z[j] == x[j]);
    }
    assert(z[n] == x[n]);
    lemma_seg_len_is(z, n);
}

/// An unbroken text is a whole segment where nothing or a separator
/// follows it.
pub proof fn lemma_seg_len_stops(x: Seq<char>, y: Seq<char>)
    requires
        is_unbroken(x),
        y.len() == 0 || is_separator(y[0]),
    ensures
        seg_len(x + y) == x.len(),
{
    let z = x + y;
    assert forall|j: int| 0 <= j < x.len() implies !is_separator(#[trigger] z[j]) by {
        assert(z[j] == x[j]);
    }
    if y.len() > 0 {
        assert(z[x.len() as int] == y[0]);
    }
    lemma_seg_len_is(z, x.len() as int);
}

/// The first segment is the whole text exactly where the text is
/// unbroken.
pub proof fn lemma_seg_len_whole(x: Seq<char>)
    ensures
        seg_len(x) == x.len() <==> is_unbroken(x),
{
    lemma_seg_len_bound(x);
    if is_unbroken(x) {
        lemma_seg_len_is(x, x.len() as int);
    }
}

/// An unbroken text is one segment.
pub proof fn lemma_body_of_segment(seg: Seq<char>)
    requires
        is_unbroken(seg),
    ensures
        body(seg) == segment(seg),
{
    lemma_seg_len_whole(seg);
}

/// A segment written behind a separator adds what it contributes.
pub proof fn lemma_body_append(y: Seq<char>, sep: char, seg: Seq<char>)
    requires
        is_separator(sep),
        is_unbroken(seg),
    ensures
        body(y + seq![sep] + seg) == body(y) + segment(seg),
    decreases y.len(),
{
    let x = y + seq![sep] + seg;
    lemma_body_of_segment(seg);
    if y.len() == 0 {
        assert(x[0] == sep);
        assert(seg_len(x) == 0);
        assert(x.take(0) == Seq::<char>::empty());
        assert(x.skip(1) == seg);
        assert(body(x) == segment(Seq::<char>::empty()) + body(seg));
        assert(body(x) == body(y) + segment(seg));
    } else {
        lemma_seg_len_bound(y);
        let n = seg_len(y);
        let after = seq![sep] + seg;
        assert(x == y + after);
        if n < y.len() {
            lemma_seg_len_keeps(y, after);
            assert(x.take(n) == y.take(n));
            assert(x.skip(n + 1) == y.skip(n + 1) + seq![sep] + seg);
            lemma_body_append(y.skip(n + 1), sep, seg);
            assert(body(x) == segment(y.take(n)) + (body(y.skip(n + 1)) + segment(seg)));
            assert(body(x) == body(y) + segment(seg));
        } else {
            lemma_seg_len_whole(y);
            assert(after[0] == sep);
            lemma_seg_len_stops(y, after);
            assert(x.take(n) == y);
            assert(x.skip(n + 1) == seg);
            assert(body(x) == segment(y) + body(seg));
            assert(body(y) == segment(y));
        }
    }
}

/// A segment written behind a text that is empty or ends in a separator
/// adds what it contributes.
pub proof fn lemma_body_extend(h: Seq<char>, seg: Seq<char>)
    requires
        h.len() == 0 || is_separator(h.last()),
        is_unbroken(seg),
    ensures
        body(h + seg) == body(h) + segment(seg),
{
    if h.len() == 0 {
        assert(h + seg == seg);
        lemma_body_of_segment(seg);
    } else {
        let h0 = h.drop_last();
        let sep = h.last();
        assert(h == h0 + seq![sep]);
        assert(h + seg == h0 + seq![sep] + seg);
        lemma_body_append(h0, sep, seg);
        let none = Seq::<char>::empty();
        assert(h == h0 + seq![sep] + none);
        lemma_body_append(h0, sep, none);
        assert(segment(none) == Seq::<Part>::empty());
    }
}

/// The text of a plain component is one segment that contributes the
/// component.
pub proof fn lemma_plain_text(c: Part)
    requires
        is_plain(c),
    ensures
        is_unbroken(part_text(c)),
        segment(part_text(c)) == seq![c],
        part_text(c).len() > 0,
{
    match c {
        Part::ParentDir => {
            let t = part_text(c);
            assert(t.len() == 2 && t[0] == '.' && t[1] == '.');
            let dot = seq!['.'];
            assert(dot.len() == 1);
        },
        _ => {},
    }
}

/// Plain components written one after another start with the text of the
/// first.
pub proof fn lemma_join_plain_head(r: Seq<Part>)
    requires
        all_plain(r),
        r.len() > 0,
    ensures
        part_text(r[0]).is_prefix_of(join_parts(r)),
        join_parts(r).len() > 0,
        !is_separator(join_parts(r)[0]),
        join_parts(r).len() == part_text(r[0]).len() || is_separator(
            join_parts(r)[part_text(r[0]).len() as int],
        ),
    decreases r.len(),
{
    let last = r.last();
    assert(is_plain(r[r.len() - 1]));
    lemma_plain_text(last);
    assert(is_plain(r[0]));
    lemma_plain_text(r[0]);
    let first = part_text(r[0]);
    assert(!is_separator(first[0]));
    if r.len() == 1 {
        assert(r.drop_last() == Seq::<Part>::empty());
        assert(join_parts(r.drop_last()) == Seq::<char>::empty());
        assert(join_parts(r) == part_text(last));
        assert(first == join_parts(r).subrange(0, first.len() as int));
    } else {
        let r0 = r.drop_last();
        assert forall|i: int| 0 <= i < r0.len() implies is_plain(#[trigger] r0[i]) by {
            assert(r0[i] == r[i]);
        }
        lemma_join_plain_head(r0);
        assert(r0[0] == r[0]);
        let j0 = join_parts(r0);
        let j = join_parts(r);
        assert(is_plain(r[r.len() - 2]));
        assert(needs_separator(r[r.len() - 2], last));
        assert(j == j0 + seq!['\\'] + part_text(last));
        assert(first == j0.subrange(0, first.len() as int));
        assert(first == j.subrange(0, first.len() as int));
        assert(j[0] == j0[0]);
        if j0.len() == first.len() {
            assert(j[first.len() as int] == '\\');
        } else {
            assert(j[first.len() as int] == j0[first.len() as int]);
        }
    }
}

/// Plain components written behind a text that is empty or ends in a
/// separator are read back as they are.
pub proof fn lemma_body_of_join(h: Seq<char>, r: Seq<Part>)
    requires
        h.len() == 0 || is_separator(h.last()),
        all_plain(r),
        r.len() > 0,
    ensures
        body(h + join_parts(r)) == body(h) + r,
    decreases r.len(),
{
    let last = r.last();
    assert(is_plain(r[r.len() - 1]));
    lemma_plain_text(last);
    let t = part_text(last);
    if r.len() == 1 {
        assert(r.drop_last() == Seq::<Part>::empty());
        assert(join_parts(r.drop_last()) == Seq::<char>::empty());
        assert(join_parts(r) == t);
        lemma_body_extend(h, t);
        assert(seq![last] == r);
    } else {
        let r0 = r.drop_last();
        assert forall|i: int| 0 <= i < r0.len() implies is_plain(#[trigger] r0[i]) by {
            assert(r0[i] == r[i]);
        }
        lemma_body_of_join(h, r0);
        assert(is_plain(r[r.len() - 2]));
        assert(needs_separator(r[r.len() - 2], last));
        assert(join_parts(r) == join_parts(r0) + seq!['\\'] + t);
        let y = h + join_parts(r0);
        assert(h + join_parts(r) == y + seq!['\\'] + t);
        lemma_body_append(y, '\\', t);
        assert(body(h) + r0 + seq![last] == body(h) + r) by {
            assert(r0 + seq![last] == r);
        }
    }
}

/// Every component of a body is plain.
pub proof fn lemma_body_is_plain(s: Seq<char>)
    ensures
        all_plain(body(s)),
    decreases s.len(),
{
    if s.len() > 0 {
        lemma_seg_len_bound(s);
        let n = seg_len(s);
        let seg = s.take(n);
        assert(is_unbroken(seg)) by {
            assert forall|i: int| 0 <= i < seg.len() implies !is_separator(#[trigger] seg[i]) by {
                assert(seg[i] == s[i]);
            }
        }
        assert(all_plain(segment(seg)));
        if n < s.len() {
            lemma_body_is_plain(s.skip(n + 1));
            let rest = body(s.skip(n + 1));
            assert forall|i: int| 0 <= i < body(s).len() implies is_plain(#[trigger] body(s)[i]) by {
                if i < segment(seg).len() {
                    assert(body(s)[i] == segment(seg)[i]);
                } else {
                    assert(body(s)[i] == rest[i - segment(seg).len()]);
                }
            }
        } else {
            assert(seg == s);
        }
    }
}

/// Behind a component that is `..` or a name, every component is plain.
pub proof fn lemma_plain_from(s: Seq<char>, at: int)
    requires
        0 <= at < components(s).len(),
        components(s)[at] is ParentDir || components(s)[at] is Normal,
    ensures
        all_plain(components(s).skip(at)),
{
    let p = prefix_len(s);
    let tail = tail_of(s);
    let head = (if p > 0 {
        seq![Part::Prefix(prefix_text(s))]
    } else {
        Seq::empty()
    }) + (if has_root(s) {
        seq![Part::RootDir]
    } else {
        Seq::empty()
    }) + (if !has_root(s) && leading_dot(tail) {
        seq![Part::CurDir]
    } else {
        Seq::empty()
    });
    let all = components(s);
    assert(all == head + body(tail));
    lemma_body_is_plain(tail);
    assert forall|i: int| 0 <= i < head.len() implies !(#[trigger] head[i] is ParentDir)
        && !(head[i] is Normal) by {}
    if at < head.len() {
        assert(all[at] == head[at]);
    }
    assert forall|i: int| 0 <= i < all.skip(at).len() implies is_plain(
        #[trigger] all.skip(at)[i],
    ) by {
        assert(all.skip(at)[i] == body(tail)[at + i - head.len()]);
    }
}

proof fn lemma_two_segments_keep(t: Seq<char>, u: Seq<char>)
    requires
        two_segments(t) < t.len(),
    ensures
        two_segments(t + u) == two_segments(t),
{
    lemma_seg_len_bound(t);
    let first = seg_len(t);
    lemma_seg_len_keeps(t, u);
    let rest = t.skip(first + 1);
    lemma_seg_len_bound(rest);
    assert((t + u).skip(first + 1) == rest + u);
    lemma_seg_len_keeps(rest, u);
}

/// Text written behind an anchored path leaves its prefix as it is.
proof fn lemma_prefix_len_keeps(a: Seq<char>, u: Seq<char>)
    requires
        is_anchored(a),
        u.len() > 0,
        is_separator(a.last()) != is_separator(u[0]) || is_drive(a),
        !is_separator(a.last()) && !is_separator(u[0]) ==> a.len() == 2,
    ensures
        prefix_len(a + u) == prefix_len(a),
        is_drive(a + u) == is_drive(a),
        is_verbatim(a + u) == is_verbatim(a),
{
    let x = a + u;
    lemma_prefix_len_bound(a);
    assert(x[0] == a[0]);
    if a.len() >= 2 {
        assert(x[1] == a[1]);
    } else {
        assert(x[1] == u[0]);
    }
    if a.len() >= 4 {
        assert(x[2] == a[2] && x[3] == a[3]);
    }
    if a.len() >= 8 {
        assert(x[4] == a[4] && x[5] == a[5] && x[6] == a[6] && x[7] == a[7]);
    }
    if is_verbatim_unc(a) {
        assert(is_verbatim_unc(x));
        assert(x.skip(8) == a.skip(8) + u);
        lemma_two_segments_keep(a.skip(8), u);
    } else if is_verbatim(a) {
        lemma_seg_len_bound(a.skip(4));
        assert(x.skip(4) == a.skip(4) + u);
        lemma_seg_len_keeps(a.skip(4), u);
        assert(is_verbatim(x));
        if is_verbatim_unc(x) {
            // the prefix of `a` ends before place 8, at a separator
            assert(a.len() < 8);
            let t = a.skip(4);
            assert(is_separator(t[seg_len(t)]));
            assert(t[seg_len(t)] == a[4 + seg_len(t)]);
            assert(x[4 + seg_len(t)] == a[4 + seg_len(t)]);
            assert(false);
        }
    } else if is_device(a) {
        lemma_seg_len_bound(a.skip(4));
        assert(x.skip(4) == a.skip(4) + u);
        lemma_seg_len_keeps(a.skip(4), u);
        assert(is_device(x));
        assert(!is_verbatim(x));
    } else if is_double_separator(a) {
        assert(prefix_len(a) == unc_len(a));
        let t = a.skip(2);
        lemma_seg_len_bound(t);
        let server = seg_len(t);
        let rest = a.skip(2 + server + 1);
        lemma_seg_len_bound(rest);
        assert(x.skip(2) == t + u);
        lemma_seg_len_keeps(t, u);
        assert(x.skip(2 + server + 1) == rest + u);
        lemma_seg_len_keeps(rest, u);
        assert(is_double_separator(x));
        if a.len() < 4 {
            assert(false);
        }
        assert(!is_verbatim(x) && !is_device(x));
    } else if is_drive(a) {
        assert(is_drive(x));
        assert(!is_double_separator(x));
    } else {
        assert(!is_double_separator(x));
        assert(!is_drive(x));
    }
}

/// Plain components written one after another do not start with a
/// separator, nor with a `.` that stands for the current directory.
pub proof fn lemma_join_starts_plainly(r: Seq<Part>)
    requires
        all_plain(r),
        r.len() > 0,
    ensures
        join_parts(r).len() > 0,
        !is_separator(join_parts(r)[0]),
        !leading_dot(join_parts(r)),
        is_drive(join_parts(r)) == is_drive(part_text(r[0])),
{
    let rem = join_parts(r);
    lemma_join_plain_head(r);
    assert(is_plain(r[0]));
    lemma_plain_text(r[0]);
    let first = part_text(r[0]);
    assert(first == rem.subrange(0, first.len() as int));
    assert(rem[0] == first[0]);
    if first.len() >= 2 {
        assert(rem[1] == first[1]);
    }
    // neither `.` nor `.` before a separator opens the text
    assert(!leading_dot(rem)) by {
        if rem[0] == '.' {
            let dot = seq!['.'];
            assert(dot.len() == 1 && dot[0] == '.');
            if first.len() == 1 {
                assert(first == dot);
            }
        }
    }
}

/// Plain components written one after another make a relative path,
/// unless the first of them opens like a drive.
pub proof fn lemma_join_is_relative(r: Seq<Part>)
    requires
        all_plain(r),
        r.len() > 0,
        !is_drive(part_text(r[0])),
    ensures
        join_parts(r).len() > 0,
        !is_separator(join_parts(r)[0]),
        prefix_len(join_parts(r)) == 0,
        !is_drive(join_parts(r)),
        !leading_dot(join_parts(r)),
{
    let rem = join_parts(r);
    lemma_join_starts_plainly(r);
    assert(!is_double_separator(rem));
}

/// Plain components written one after another are read back as they are,
/// unless the first of them opens like a drive.
pub proof fn lemma_components_of_plain(r: Seq<Part>)
    requires
        all_plain(r),
        r.len() > 0,
        !is_drive(part_text(r[0])),
    ensures
        components(join_parts(r)) == r,
{
    let rem = join_parts(r);
    lemma_join_is_relative(r);
    let none = Seq::<char>::empty();
    assert(none + rem == rem);
    lemma_body_of_join(none, r);
    assert(rem.skip(0) == rem);
    assert(tail_of(rem) == rem);
    assert(!has_root(rem));
    assert(body(none) == Seq::<Part>::empty());
    assert(components(rem) == body(rem));
}

/// `r` written behind `a`, after a `\` unless `a` ends in a separator or
/// is a bare drive.
pub open spec fn appended(a: Seq<char>, r: Seq<Part>) -> Seq<char> {
    if a.len() > 0 && !is_separator(a.last()) && !(is_drive(a) && a.len() == 2) {
        a + seq!['\\'] + join_parts(r)
    } else {
        a + join_parts(r)
    }
}

/// Plain components written behind an anchored path come behind its
/// components.
pub proof fn lemma_components_of_appended(a: Seq<char>, r: Seq<Part>)
    requires
        is_anchored(a),
        all_plain(r),
        r.len() > 0,
    ensures
        components(appended(a, r)) == components(a) + r,
{
    let rem = join_parts(r);
    lemma_join_starts_plainly(r);
    let bare_drive = is_drive(a) && a.len() == 2;
    let need = !is_separator(a.last()) && !bare_drive;
    let u = if need {
        seq!['\\'] + rem
    } else {
        rem
    };
    let x = a + u;
    assert(appended(a, r) == x);
    assert(u[0] == (if need {
        '\\'
    } else {
        rem[0]
    }));
    lemma_prefix_len_bound(a);
    lemma_prefix_len_keeps(a, u);
    let p = prefix_len(a);
    assert(x.take(p) == a.take(p));
    assert(prefix_text(x) == prefix_text(a));
    assert(x.skip(p) == a.skip(p) + u);
    let physical = p < a.len() && is_separator(a[p]);
    if p < a.len() {
        assert(x[p] == a[p]);
    } else {
        assert(x[p] == u[0]);
        assert(bare_drive);
    }
    assert(has_root(x) == has_root(a));
    let tail = tail_of(a);
    if physical {
        assert(a.skip(p)[0] == a[p]);
        assert(x.skip(p)[0] == x[p]);
        assert(x.skip(p).skip(1) == a.skip(p).skip(1) + u);
    }
    assert(tail_of(x) == tail + u);
    if need {
        let h = tail + seq!['\\'];
        assert(tail + u == h + rem);
        lemma_body_of_join(h, r);
        let none = Seq::<char>::empty();
        assert(h == tail + seq!['\\'] + none);
        lemma_body_append(tail, '\\', none);
        assert(segment(none) == Seq::<Part>::empty());
        assert(body(h) == body(tail));
    } else {
        if tail.len() > 0 {
            assert(tail.last() == a.last());
        }
        lemma_body_of_join(tail, r);
    }
    assert(body(tail + u) == body(tail) + r);
    assert(leading_dot(tail + u) == leading_dot(tail)) by {
        let both = tail + u;
        if tail.len() == 0 {
            assert(both == u);
            if need {
                assert(both[0] == '\\');
            }
        } else {
            assert(both[0] == tail[0]);
            if tail.len() >= 2 {
                assert(both[1] == tail[1]);
            } else {
                assert(both[1] == u[0]);
                if !need {
                    assert(tail.last() == a.last());
                }
            }
        }
    }
    let head = (if p > 0 {
        seq![Part::Prefix(prefix_text(a))]
    } else {
        Seq::empty()
    }) + (if has_root(a) {
        seq![Part::RootDir]
    } else {
        Seq::empty()
    }) + (if !has_root(a) && leading_dot(tail) {
        seq![Part::CurDir]
    } else {
        Seq::empty()
    });
    assert(components(a) == head + body(tail));
    assert(components(x) == head + (body(tail) + r));
    assert(head + (body(tail) + r) == head + body(tail) + r);
}

/// Plain components resolved against an anchored path come behind its
/// components.
///
/// The first of them must not open like a drive, or it would replace the
/// path it is resolved against.
pub proof fn lemma_components_of_join(a: Seq<char>, r: Seq<Part>)
    requires
        is_anchored(a),
        all_plain(r),
        r.len() > 0,
        !is_drive(part_text(r[0])),
    ensures
        components(joined(a, join_parts(r))) == components(a) + r,
{
    lemma_join_is_relative(r);
    lemma_components_of_appended(a, r);
    assert(joined(a, join_parts(r)) == appended(a, r));
}

/// A body written behind a separator adds its components.
pub proof fn lemma_body_concat(y: Seq<char>, sep: char, z: Seq<char>)
    requires
        is_separator(sep),
    ensures
        body(y + seq![sep] + z) == body(y) + body(z),
    decreases y.len(),
{
    let x = y + seq![sep] + z;
    let after = seq![sep] + z;
    assert(x == y + after);
    assert(after[0] == sep);
    if y.len() == 0 {
        assert(x[0] == sep);
        assert(seg_len(x) == 0);
        assert(x.take(0) == Seq::<char>::empty());
        assert(x.skip(1) == z);
        assert(body(x) == segment(Seq::<char>::empty()) + body(z));
        assert(body(x) == body(y) + body(z));
    } else {
        lemma_seg_len_bound(y);
        let n = seg_len(y);
        if n < y.len() {
            lemma_seg_len_keeps(y, after);
            assert(x.take(n) == y.take(n));
            assert(x.skip(n + 1) == y.skip(n + 1) + seq![sep] + z);
            lemma_body_concat(y.skip(n + 1), sep, z);
            assert(body(x) == segment(y.take(n)) + (body(y.skip(n + 1)) + body(z)));
            assert(body(x) == body(y) + body(z));
        } else {
            lemma_seg_len_whole(y);
            lemma_seg_len_stops(y, after);
            assert(x.take(n) == y);
            assert(x.skip(n + 1) == z);
            assert(body(x) == segment(y) + body(z));
            assert(body(y) == segment(y));
        }
    }
}

/// A body written behind a text that is empty or ends in a separator adds
/// its components.
pub proof fn lemma_body_concat_after(h: Seq<char>, z: Seq<char>)
    requires
        h.len() == 0 || is_separator(h.last()),
    ensures
        body(h + z) == body(h) + body(z),
{
    if h.len() == 0 {
        assert(h + z == z);
        assert(body(h) + body(z) == body(z));
    } else {
        let front = h.drop_last();
        let sep = h.last();
        assert(h == front + seq![sep]);
        assert(h + z == front + seq![sep] + z);
        lemma_body_concat(front, sep, z);
        let none = Seq::<char>::empty();
        assert(h == front + seq![sep] + none);
        lemma_body_concat(front, sep, none);
        assert(body(none) == Seq::<Part>::empty());
        assert(body(h) == body(front));
    }
}

/// Whatever is written behind an anchored path, its components stay in
/// front: where that starts with a separator and the path does not end in
/// one, and where it starts with none and the path ends in one or is a
/// bare drive.
pub proof fn lemma_components_grow(t: Seq<char>, u: Seq<char>)
    requires
        is_anchored(t),
        u.len() > 0,
        is_separator(u[0]) ==> !is_separator(t.last()),
        !is_separator(u[0]) ==> is_separator(t.last()) || (is_drive(t) && t.len() == 2),
    ensures
        components(t).is_prefix_of(components(t + u)),
{
    let x = t + u;
    lemma_prefix_len_bound(t);
    lemma_prefix_len_keeps(t, u);
    let p = prefix_len(t);
    assert(x.take(p) == t.take(p));
    assert(prefix_text(x) == prefix_text(t));
    assert(x.skip(p) == t.skip(p) + u);
    let none = Seq::<Part>::empty();
    let h1: Seq<Part> = if p > 0 {
        seq![Part::Prefix(prefix_text(t))]
    } else {
        none
    };
    let tail = tail_of(t);
    let ct = components(t);
    let cx = components(x);
    if is_drive(t) && t.len() == 2 {
        assert(t.skip(2).len() == 0);
        assert(tail.len() == 0);
        assert(!has_root(t));
        assert(body(tail) == none);
        assert(ct == h1);
        assert(cx[0] == h1[0]);
        assert(ct == cx.subrange(0, 1));
    } else {
        assert(p < t.len());
        assert(x[p] == t[p]);
        assert(has_root(x) == has_root(t));
        let physical = is_separator(t[p]);
        assert(t.skip(p)[0] == t[p]);
        assert(x.skip(p)[0] == x[p]);
        if physical {
            assert(x.skip(p).skip(1) == t.skip(p).skip(1) + u);
        }
        assert(tail_of(x) == tail + u);
        if tail.len() > 0 {
            assert(tail.last() == t.last());
        }
        let h2: Seq<Part> = if has_root(t) {
            seq![Part::RootDir]
        } else {
            none
        };
        let h3: Seq<Part> = if !has_root(t) && leading_dot(tail) {
            seq![Part::CurDir]
        } else {
            none
        };
        assert(ct == h1 + h2 + h3 + body(tail));
        if is_separator(u[0]) {
            assert(tail.len() > 0);
            let more = u.skip(1);
            assert(u == seq![u[0]] + more);
            assert(tail + u == tail + seq![u[0]] + more);
            lemma_body_concat(tail, u[0], more);
            assert(leading_dot(tail + u) == leading_dot(tail)) by {
                let both = tail + u;
                assert(both[0] == tail[0]);
                if tail.len() >= 2 {
                    assert(both[1] == tail[1]);
                } else {
                    assert(both[1] == u[0]);
                }
            }
            assert(cx == h1 + h2 + h3 + (body(tail) + body(more)));
            assert(cx == ct + body(more));
            assert(ct == cx.subrange(0, ct.len() as int));
        } else {
            lemma_body_concat_after(tail, u);
            if tail.len() == 0 {
                assert(body(tail) == none);
                assert(h3 == none);
                assert(ct == h1 + h2);
                let cur: Seq<Part> = if !has_root(x) && leading_dot(tail + u) {
                    seq![Part::CurDir]
                } else {
                    none
                };
                assert(cx == h1 + h2 + cur + (body(tail) + body(u)));
                assert(cx == ct + (cur + body(u)));
                assert(ct == cx.subrange(0, ct.len() as int));
            } else {
                if !has_root(t) {
                    assert(tail[0] == t[p]);
                    assert(tail.len() >= 2);
                    let both = tail + u;
                    assert(both[0] == tail[0] && both[1] == tail[1]);
                }
                assert(cx == h1 + h2 + h3 + (body(tail) + body(u)));
                assert(cx == ct + body(u));
                assert(ct == cx.subrange(0, ct.len() as int));
            }
        }
    }
}

} // verus!

//! Cleaning a cleaned path changes nothing, but for a few odd paths, and
//! the components of a cleaned path are those that cleaning left.

use vstd::prelude::*;
use crate::clean::{clean, clean_step, cleaned, is_drive_text, join_parts, needs_separator, part_text, separator_before_last};
use crate::grammar::{Part, prefix_text, unified, unified_char, body, components, segment, has_root, is_device, is_double_separator, is_drive, is_verbatim, leading_dot, lemma_prefix_len_bound, lemma_seg_len_bound, lemma_seg_len_is, prefix_len, seg_len, tail_of, unc_len};
use crate::rejoin::{all_plain, appended, is_anchored, is_plain, lemma_body_is_plain, lemma_components_of_appended, lemma_components_of_plain, lemma_join_starts_plainly};
use crate::text::{is_separator, lower_char, lowercase};

verus! {

/// No component of a cleaned path is `.`, and `..` stands only where it
/// cannot be resolved: at the start, or after a prefix, a root or another
/// `..`.
pub open spec fn is_clean(parts: Seq<Part>) -> bool {
    forall|i: int|
        0 <= i < parts.len() ==> !(#[trigger] parts[i] is CurDir) && (parts[i] is ParentDir && i
            > 0 ==> !(parts[i - 1] is Normal))
}

/// Cleaning leaves no `.` and no `..` that could be resolved.
pub proof fn lemma_clean_is_clean(parts: Seq<Part>)
    ensures
        is_clean(clean(parts)),
    decreases parts.len(),
{
    if parts.len() > 0 {
        lemma_clean_is_clean(parts.drop_last());
        let before = clean(parts.drop_last());
        let after = clean_step(before, parts.last());
        assert forall|i: int| 0 <= i < after.len() implies !(#[trigger] after[i] is CurDir) && (
        after[i] is ParentDir && i > 0 ==> !(after[i - 1] is Normal)) by {
            if i < before.len() {
                assert(after[i] == before[i]);
                if i > 0 {
                    assert(after[i - 1] == before[i - 1]);
                }
            }
        }
    }
}

/// Cleaning what is clean changes nothing.
pub proof fn lemma_clean_of_clean(parts: Seq<Part>)
    requires
        is_clean(parts),
    ensures
        clean(parts) == parts,
    decreases parts.len(),
{
    if parts.len() > 0 {
        let before = parts.drop_last();
        assert forall|i: int| 0 <= i < before.len() implies !(#[trigger] before[i] is CurDir) && (
        before[i] is ParentDir && i > 0 ==> !(before[i - 1] is Normal)) by {
            assert(before[i] == parts[i]);
            if i > 0 {
                assert(before[i - 1] == parts[i - 1]);
            }
        }
        lemma_clean_of_clean(before);
        let last = parts.last();
        assert(parts[parts.len() - 1] == last);
        assert(!(last is CurDir));
        if last is ParentDir && before.len() > 0 {
            assert(before.last() == parts[parts.len() - 2]);
        }
        assert(before.push(last) == parts);
    }
}

/// The path `.` has one component, and lowering leaves it as it is.
pub proof fn lemma_dot()
    ensures
        components(seq!['.']) == seq![Part::CurDir],
        lowercase(seq!['.']) == seq!['.'],
{
    let dot = seq!['.'];
    assert(dot.len() == 1 && dot[0] == '.');
    assert(prefix_len(dot) == 0);
    assert(dot.skip(0) == dot);
    assert(tail_of(dot) == dot);
    assert(!has_root(dot));
    assert(leading_dot(dot));
    lemma_seg_len_is(dot, 1);
    assert(body(dot) == segment(dot));
    assert(segment(dot) == Seq::<Part>::empty());
    assert(components(dot) == seq![Part::CurDir]);
    assert(dot.drop_last() == Seq::<char>::empty());
    assert(lowercase(dot.drop_last()) == Seq::<char>::empty());
    assert(lower_char('.') == seq!['.']);
    assert(lowercase(dot) == Seq::<char>::empty() + seq!['.']);
}

/// What stands before the body of a cleaned path: the prefix of `p` and
/// its root, as far as it has them.
pub open spec fn lead(p: Seq<char>) -> Seq<Part> {
    (if prefix_len(p) > 0 {
        seq![Part::Prefix(prefix_text(p))]
    } else {
        Seq::empty()
    }) + (if has_root(p) {
        seq![Part::RootDir]
    } else {
        Seq::empty()
    })
}

/// The body of `p` after cleaning.
pub open spec fn trail(p: Seq<char>) -> Seq<Part> {
    clean(body(tail_of(p)))
}

/// Cleaning `p` gives a text that is read back as it was written.
///
/// Two kinds of path fail this. One has a prefix that takes in the
/// separator written behind it, as `\\?\UNC\server` does. The other is
/// relative and its first name after cleaning opens like a drive, as in
/// `.\c:x`.
pub open spec fn settles(p: Seq<char>) -> bool {
    &&& prefix_len(p) > 0 && !is_drive(p) ==> prefix_len(prefix_text(p) + seq!['\\'])
        == prefix_len(p)
    &&& lead(p).len() == 0 && trail(p).len() > 0 ==> !is_drive(part_text(trail(p)[0]))
}

/// Behind components that cleaning leaves without a name, what follows is
/// cleaned on its own.
pub proof fn lemma_clean_concat(x: Seq<Part>, y: Seq<Part>)
    requires
        forall|i: int| 0 <= i < clean(x).len() ==> !(#[trigger] clean(x)[i] is Normal),
    ensures
        clean(x + y) == clean(x) + clean(y),
    decreases y.len(),
{
    if y.len() == 0 {
        assert(x + y == x);
        assert(clean(x) + clean(y) == clean(x));
    } else {
        let y0 = y.drop_last();
        let c = y.last();
        assert((x + y).drop_last() == x + y0);
        assert((x + y).last() == c);
        lemma_clean_concat(x, y0);
        let left = clean(x) + clean(y0);
        if clean(y0).len() > 0 {
            assert(left.last() == clean(y0).last());
            assert(left.drop_last() == clean(x) + clean(y0).drop_last());
        } else {
            assert(left == clean(x));
            if left.len() > 0 {
                assert(!(left[left.len() - 1] is Normal));
            }
        }
        assert(left.push(c) == clean(x) + clean(y0).push(c));
    }
}

proof fn lemma_clean_plain(b: Seq<Part>)
    requires
        all_plain(b),
    ensures
        all_plain(clean(b)),
    decreases b.len(),
{
    if b.len() > 0 {
        let b0 = b.drop_last();
        assert forall|i: int| 0 <= i < b0.len() implies is_plain(#[trigger] b0[i]) by {
            assert(b0[i] == b[i]);
        }
        lemma_clean_plain(b0);
        let before = clean(b0);
        let after = clean_step(before, b.last());
        assert(is_plain(b[b.len() - 1]));
        assert forall|i: int| 0 <= i < after.len() implies is_plain(#[trigger] after[i]) by {
            if i < before.len() {
                assert(after[i] == before[i]);
            }
        }
    }
}

/// Cleaning one component is one step of cleaning.
pub proof fn lemma_clean_one(c: Part)
    ensures
        clean(seq![c]) == clean_step(Seq::empty(), c),
{
    let one = seq![c];
    assert(one.drop_last() == Seq::<Part>::empty());
    assert(clean(one.drop_last()) == Seq::<Part>::empty());
    assert(one.last() == c);
}

/// Cleaning keeps the prefix and the root, drops the `.` behind them, and
/// cleans the body on its own.
pub proof fn lemma_clean_components(p: Seq<char>)
    ensures
        clean(components(p)) == lead(p) + trail(p),
        all_plain(trail(p)),
{
    let n = prefix_len(p);
    let tail = tail_of(p);
    let h1: Seq<Part> = if n > 0 {
        seq![Part::Prefix(prefix_text(p))]
    } else {
        Seq::empty()
    };
    let h2: Seq<Part> = if has_root(p) {
        seq![Part::RootDir]
    } else {
        Seq::empty()
    };
    let h3: Seq<Part> = if !has_root(p) && leading_dot(tail) {
        seq![Part::CurDir]
    } else {
        Seq::empty()
    };
    let none = Seq::<Part>::empty();
    assert(clean(none) == none);
    if n > 0 {
        lemma_clean_one(Part::Prefix(prefix_text(p)));
    }
    assert(clean(h1) == h1);
    if has_root(p) {
        lemma_clean_one(Part::RootDir);
    }
    assert(clean(h2) == h2);
    if !has_root(p) && leading_dot(tail) {
        lemma_clean_one(Part::CurDir);
    }
    assert(clean(h3) == none);
    lemma_clean_concat(h1, h2);
    assert(clean(h1 + h2) == h1 + h2);
    lemma_clean_concat(h1 + h2, h3);
    assert(clean(h1 + h2 + h3) == h1 + h2);
    lemma_clean_concat(h1 + h2 + h3, body(tail));
    assert(components(p) == h1 + h2 + h3 + body(tail));
    lemma_body_is_plain(tail);
    lemma_clean_plain(body(tail));
}

/// Two lists of components written out together are the two written out
/// one after the other, with a `\` between them where one is due.
pub proof fn lemma_join_concat(x: Seq<Part>, y: Seq<Part>)
    requires
        x.len() > 0,
        y.len() > 0,
    ensures
        join_parts(x + y) == join_parts(x) + (if needs_separator(x.last(), y[0]) {
            seq!['\\']
        } else {
            Seq::empty()
        }) + join_parts(y),
    decreases y.len(),
{
    let both = x + y;
    let none = Seq::<char>::empty();
    assert(both.last() == y.last());
    if y.len() == 1 {
        assert(both.drop_last() == x);
        assert(both[both.len() - 2] == x.last());
        assert(y.drop_last() == Seq::<Part>::empty());
        assert(join_parts(y.drop_last()) == none);
        assert(separator_before_last(y) == none);
        assert(join_parts(y) == part_text(y[0]));
    } else {
        let y0 = y.drop_last();
        assert(both.drop_last() == x + y0);
        lemma_join_concat(x, y0);
        assert(both[both.len() - 2] == y[y.len() - 2]);
        assert(separator_before_last(both) == separator_before_last(y));
        assert(y0[0] == y[0]);
        let glue: Seq<char> = if needs_separator(x.last(), y[0]) {
            seq!['\\']
        } else {
            none
        };
        assert(join_parts(both) == (join_parts(x) + glue + join_parts(y0)) + separator_before_last(y)
            + part_text(y.last()));
        assert(join_parts(both) == join_parts(x) + glue + (join_parts(y0) + separator_before_last(
            y,
        ) + part_text(y.last())));
    }
}

/// The prefix and the root, written out, are read back as they are, and
/// the text they make is anchored.
proof fn lemma_lead_text(p: Seq<char>)
    requires
        settles(p),
        lead(p).len() > 0,
    ensures
        components(join_parts(lead(p))) == lead(p),
        is_anchored(join_parts(lead(p))),
        is_separator(join_parts(lead(p)).last()) == has_root(p),
        !has_root(p) ==> is_drive(join_parts(lead(p))) && join_parts(lead(p)).len() == 2,
{
    let n = prefix_len(p);
    let h = lead(p);
    let a = join_parts(h);
    let none = Seq::<char>::empty();
    let no_parts = Seq::<Part>::empty();
    lemma_prefix_len_bound(p);
    assert(join_parts(no_parts) == none);
    if n > 0 {
        let pre = prefix_text(p);
        let first = Part::Prefix(pre);
        assert(seq![first].drop_last() == no_parts);
        assert(join_parts(seq![first]) == pre);
        if is_drive(p) {
            assert(n == 2);
            assert(p.take(2)[0] == p[0] && p.take(2)[1] == p[1]);
            assert(pre[0] == p[0] && pre[1] == p[1]);
            assert(is_drive_text(pre));
            assert(is_drive(pre));
            assert(prefix_len(pre) == 2);
            assert(pre.take(2) == pre);
            assert(unified(pre) == pre);
            assert(prefix_text(pre) == pre);
            assert(pre.skip(2) == none);
            assert(tail_of(pre) == none);
            assert(!has_root(pre));
            assert(body(none) == no_parts);
            assert(components(pre) == seq![first]);
            if has_root(p) {
                assert(h == seq![first, Part::RootDir]);
                assert(h.drop_last() == seq![first]);
                assert(!needs_separator(first, Part::RootDir));
                assert(a == pre + seq!['\\']);
                assert(a[0] == pre[0] && a[1] == pre[1]);
                assert(prefix_len(a) == 2);
                assert(a.take(2) == pre);
                assert(prefix_text(a) == pre);
                assert(a.skip(2) == seq!['\\']);
                assert(a.skip(2).skip(1) == none);
                assert(tail_of(a) == none);
                assert(has_root(a));
                assert(components(a) == h);
            } else {
                assert(h == seq![first]);
                assert(a == pre);
            }
        } else {
            assert(has_root(p));
            assert(h == seq![first, Part::RootDir]);
            assert(h.drop_last() == seq![first]);
            assert(!needs_separator(first, Part::RootDir));
            assert(a == pre + seq!['\\']);
            assert(prefix_len(a) == n);
            assert(a.take(n) == pre);
            assert(a[n] == '\\');
            assert(a.skip(n) == seq!['\\']);
            assert(a.skip(n).skip(1) == none);
            assert(tail_of(a) == none);
            assert(is_separator(p[0])) by {
                if !is_separator(p[0]) {
                    assert(!is_double_separator(p));
                }
            }
            assert(p.take(n)[0] == p[0]);
            assert(a[0] == pre[0]);
            assert(is_separator(a[0]));
            assert(!is_drive(a));
            assert(prefix_text(a) == pre) by {
                if is_verbatim(p) {
                    assert(n >= 4) by {
                        lemma_seg_len_bound(p.skip(4));
                        if crate::grammar::is_verbatim_unc(p) {
                            let t = p.skip(8);
                            lemma_seg_len_bound(t);
                            if seg_len(t) < t.len() {
                                lemma_seg_len_bound(t.skip(seg_len(t) + 1));
                            }
                        }
                    }
                    assert(pre == p.take(n));
                    assert(a[0] == p[0] && a[1] == p[1] && a[2] == p[2] && a[3] == p[3]);
                    assert(is_verbatim(a));
                } else {
                    assert(unified(pre) == pre);
                }
            }
            assert(has_root(a));
            assert(body(none) == no_parts);
            assert(components(a) == h);
        }
    } else {
        assert(h == seq![Part::RootDir]);
        assert(h.drop_last() == no_parts);
        assert(a == seq!['\\']);
        assert(a.len() == 1 && a[0] == '\\');
        assert(prefix_len(a) == 0);
        assert(a.skip(0) == a);
        assert(a.skip(1) == none);
        assert(tail_of(a) == none);
        assert(has_root(a));
        assert(body(none) == no_parts);
        assert(components(a) == h);
    }
}

/// A path has a prefix exactly where its first component is one.
pub proof fn lemma_first_component(s: Seq<char>)
    requires
        components(s).len() > 0,
    ensures
        prefix_len(s) > 0 <==> components(s)[0] is Prefix,
        prefix_len(s) > 0 ==> components(s)[0] == Part::Prefix(prefix_text(s)),
{
    let n = prefix_len(s);
    let tail = tail_of(s);
    lemma_prefix_len_bound(s);
    lemma_body_is_plain(tail);
    let h1: Seq<Part> = if n > 0 {
        seq![Part::Prefix(prefix_text(s))]
    } else {
        Seq::empty()
    };
    let h2: Seq<Part> = if has_root(s) {
        seq![Part::RootDir]
    } else {
        Seq::empty()
    };
    let h3: Seq<Part> = if !has_root(s) && leading_dot(tail) {
        seq![Part::CurDir]
    } else {
        Seq::empty()
    };
    let all = h1 + h2 + h3 + body(tail);
    assert(components(s) == all);
    if n == 0 {
        if h2.len() > 0 {
            assert(all[0] == h2[0]);
        } else if h3.len() > 0 {
            assert(all[0] == h3[0]);
        } else {
            assert(all[0] == body(tail)[0]);
            assert(is_plain(body(tail)[0]));
        }
    } else {
        assert(all[0] == h1[0]);
    }
}

/// The components of a cleaned path are those that cleaning left, where
/// it left any.
pub proof fn lemma_components_of_cleaned(p: Seq<char>)
    requires
        settles(p),
        clean(components(p)).len() > 0,
    ensures
        components(cleaned(p)) == clean(components(p)),
        is_anchored(cleaned(p)),
{
    lemma_clean_components(p);
    let h = lead(p);
    let b = trail(p);
    let x = cleaned(p);
    assert(x == join_parts(h + b));
    if h.len() == 0 {
        assert(h + b == b);
        lemma_components_of_plain(b);
        lemma_join_starts_plainly(b);
        assert(!is_double_separator(x));
        assert(prefix_len(x) == 0);
    } else {
        lemma_lead_text(p);
        let a = join_parts(h);
        if b.len() == 0 {
            assert(h + b == h);
        } else {
            lemma_join_concat(h, b);
            assert(is_plain(b[0]));
            assert(h.last() is RootDir == has_root(p));
            if !has_root(p) {
                assert(h == seq![Part::Prefix(prefix_text(p))]);
                assert(is_drive_text(prefix_text(p))) by {
                    assert(a == prefix_text(p)) by {
                        assert(h.drop_last() == Seq::<Part>::empty());
                    }
                }
            }
            assert(!needs_separator(h.last(), b[0]));
            assert(x == a + Seq::<char>::empty() + join_parts(b));
            assert(x == appended(a, b));
            lemma_components_of_appended(a, b);
        }
        // the prefix of the cleaned text is the prefix that was written
        lemma_prefix_len_bound(x);
        let n = prefix_len(x);
        assert(components(x)[0] == h[0]);
        lemma_first_component(x);
        if prefix_len(p) > 0 {
            assert(h[0] is Prefix);
            assert(n > 0);
            assert(components(x)[0] == Part::Prefix(prefix_text(x)));
            assert(prefix_text(x).len() == n);
            if !is_drive(x) {
                assert(a.len() <= x.len());
                assert(x[0] == a[0] && x[1] == a[1]);
                assert(n == prefix_text(p).len());
            }
        } else {
            assert(h[0] is RootDir);
            assert(n == 0);
            assert(a == seq!['\\']) by {
                assert(h == seq![Part::RootDir]);
                assert(h.drop_last() == Seq::<Part>::empty());
                assert(join_parts(Seq::<Part>::empty()) == Seq::<char>::empty());
            }
            if b.len() > 0 {
                lemma_join_starts_plainly(b);
                assert(x[1] == join_parts(b)[0]);
            }
        }
    }
}

/// Cleaning a cleaned path changes nothing.
pub proof fn lemma_cleaning_settles(p: Seq<char>)
    requires
        settles(p),
    ensures
        cleaned(cleaned(p)) == cleaned(p),
        is_anchored(cleaned(p)),
{
    let parts = clean(components(p));
    if parts.len() == 0 {
        lemma_dot();
        lemma_clean_one(Part::CurDir);
        let dot = seq!['.'];
        assert(dot.len() == 1 && dot[0] == '.');
        assert(is_anchored(dot));
    } else {
        lemma_components_of_cleaned(p);
        lemma_clean_is_clean(components(p));
        lemma_clean_of_clean(parts);
    }
}

/// A path on a drive settles, and so does a path without a prefix that
/// starts at the root.
pub proof fn lemma_drive_and_rooted_paths_settle(p: Seq<char>)
    requires
        is_drive(p) || (prefix_len(p) == 0 && has_root(p)),
    ensures
        settles(p),
{
}

/// A path on the network or in the device namespace settles: one with a
/// prefix that does not open with `\\\\?`, whichever separators it is written
/// with.
pub proof fn lemma_network_and_device_paths_settle(p: Seq<char>)
    requires
        prefix_len(p) > 0,
        p.len() < 3 || p[2] != '?',
    ensures
        settles(p),
{
    if !is_drive(p) {
        lemma_prefix_len_bound(p);
        let n = prefix_len(p);
        let pre = prefix_text(p);
        let x = pre + seq!['\\'];
        assert(n >= 4) by {
            if is_double_separator(p) && !is_device(p) {
                lemma_seg_len_bound(p.skip(2));
                let server = seg_len(p.skip(2));
                lemma_seg_len_bound(p.skip(2 + server + 1));
            } else {
                lemma_seg_len_bound(p.skip(4));
            }
        }
        assert forall|j: int| 0 <= j < n implies x[j] == unified_char(p[j]) by {
            assert(p.take(n)[j] == p[j]);
        }
        assert(x[n] == '\\');
        assert(!is_verbatim(x));
        if is_device(p) {
            let t = p.skip(4);
            lemma_seg_len_bound(t);
            let name = seg_len(t);
            assert(is_device(x));
            let xt = x.skip(4);
            assert forall|j: int| 0 <= j < name implies !is_separator(#[trigger] xt[j]) by {
                assert(xt[j] == unified_char(t[j]));
            }
            assert(xt[name] == '\\');
            lemma_seg_len_is(xt, name);
        } else {
            assert(is_double_separator(p));
            assert(n == unc_len(p));
            let t = p.skip(2);
            lemma_seg_len_bound(t);
            let server = seg_len(t);
            let u = p.skip(2 + server + 1);
            lemma_seg_len_bound(u);
            let share = seg_len(u);
            assert(!is_device(x));
            assert(is_double_separator(x));
            let xt = x.skip(2);
            assert forall|j: int| 0 <= j < server implies !is_separator(#[trigger] xt[j]) by {
                assert(xt[j] == unified_char(t[j]));
            }
            assert(xt[server] == unified_char(t[server]));
            lemma_seg_len_is(xt, server);
            let xu = x.skip(2 + server + 1);
            assert forall|j: int| 0 <= j < share implies !is_separator(#[trigger] xu[j]) by {
                assert(xu[j] == unified_char(u[j]));
            }
            assert(xu[share] == '\\');
            lemma_seg_len_is(xu, share);
            assert(unc_len(x) == n);
        }
    }
}

} // verus!

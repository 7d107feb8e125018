//! A path has at most one component more than it has separators, and one
//! more again where it opens with a drive.

use vstd::prelude::*;
use crate::clean::{join_parts, needs_separator, part_text};
use crate::grammar::{Part, body, components, has_root, is_device, is_double_separator, is_drive, is_verbatim, leading_dot, lemma_prefix_len_bound, lemma_seg_len_bound, prefix_len, seg_len, tail_of};
use crate::rejoin::{all_plain, is_plain, is_unbroken, lemma_plain_text};
use crate::text::{is_ascii, is_separator, lower_char, lowercase, writes_no_separator};

verus! {

/// How many separators `s` holds.
pub open spec fn count_separators(s: Seq<char>) -> int
    decreases s.len(),
{
    if s.len() == 0 {
        0
    } else {
        (if is_separator(s[0]) {
            1int
        } else {
            0int
        }) + count_separators(s.skip(1))
    }
}

/// A count is not negative.
pub proof fn lemma_count_is_natural(s: Seq<char>)
    ensures
        count_separators(s) >= 0,
    decreases s.len(),
{
    if s.len() > 0 {
        lemma_count_is_natural(s.skip(1));
    }
}

/// The separators of two texts written together are those of the one and
/// those of the other.
pub proof fn lemma_count_concat(x: Seq<char>, y: Seq<char>)
    ensures
        count_separators(x + y) == count_separators(x) + count_separators(y),
    decreases x.len(),
{
    if x.len() == 0 {
        assert(x + y == y);
    } else {
        assert((x + y).skip(1) == x.skip(1) + y);
        assert((x + y)[0] == x[0]);
        lemma_count_concat(x.skip(1), y);
    }
}

/// An unbroken text holds no separator.
pub proof fn lemma_count_unbroken(x: Seq<char>)
    requires
        is_unbroken(x),
    ensures
        count_separators(x) == 0,
    decreases x.len(),
{
    if x.len() > 0 {
        let t = x.skip(1);
        assert forall|i: int| 0 <= i < t.len() implies !is_separator(#[trigger] t[i]) by {
            assert(t[i] == x[i + 1]);
        }
        lemma_count_unbroken(t);
    }
}

/// What follows some place of a text holds no more separators than the
/// text, and fewer by those that stand before the place.
proof fn lemma_count_split(s: Seq<char>, at: int)
    requires
        0 <= at <= s.len(),
    ensures
        count_separators(s) == count_separators(s.take(at)) + count_separators(s.skip(at)),
        count_separators(s.take(at)) >= 0,
        count_separators(s.skip(at)) >= 0,
{
    assert(s == s.take(at) + s.skip(at));
    lemma_count_concat(s.take(at), s.skip(at));
    lemma_count_is_natural(s.take(at));
    lemma_count_is_natural(s.skip(at));
}

/// A body has at most one component more than it has separators.
pub proof fn lemma_body_count(s: Seq<char>)
    ensures
        body(s).len() <= count_separators(s) + 1,
        s.len() == 0 ==> body(s).len() == 0,
    decreases s.len(),
{
    lemma_count_is_natural(s);
    if s.len() > 0 {
        lemma_seg_len_bound(s);
        let n = seg_len(s);
        if n < s.len() {
            let rest = s.skip(n + 1);
            lemma_body_count(rest);
            lemma_count_split(s, n);
            lemma_count_split(s.skip(n), 1);
            assert(s.skip(n).skip(1) == rest);
            assert(s.skip(n)[0] == s[n]);
            assert(count_separators(s.skip(n)) == 1 + count_separators(rest));
        }
    }
}

/// A body that opens with `.` has no more components than separators.
proof fn lemma_body_count_after_dot(s: Seq<char>)
    requires
        leading_dot(s),
    ensures
        body(s).len() <= count_separators(s),
{
    lemma_count_is_natural(s);
    let dot = seq!['.'];
    assert(dot.len() == 1 && dot[0] == '.');
    if s.len() == 1 {
        assert(s == dot);
        assert(s.skip(1).len() == 0);
        assert(seg_len(s.skip(1)) == 0);
        assert(seg_len(s) == 1);
    } else {
        assert(s.skip(1)[0] == s[1]);
        assert(seg_len(s.skip(1)) == 0);
        assert(seg_len(s) == 1);
        assert(s.take(1) == dot);
        let rest = s.skip(2);
        lemma_body_count(rest);
        assert(s.skip(1).skip(1) == rest);
        assert(count_separators(s.skip(1)) == 1 + count_separators(rest));
        assert(count_separators(s) == count_separators(s.skip(1)));
    }
}

/// A text that opens with two separators holds at least two.
proof fn lemma_count_of_two(s: Seq<char>)
    requires
        is_double_separator(s),
    ensures
        count_separators(s.take(2)) == 2,
{
    let two = s.take(2);
    assert(two[0] == s[0] && two[1] == s[1]);
    let one = two.skip(1);
    assert(one[0] == s[1]);
    assert(one.skip(1).len() == 0);
    assert(count_separators(one.skip(1)) == 0);
    assert(count_separators(one) == 1);
}

/// A path has at most one component more than it has separators, and two
/// more where it opens with a drive.
pub proof fn lemma_components_count(s: Seq<char>)
    ensures
        components(s).len() <= count_separators(s) + (if is_drive(s) {
            2int
        } else {
            1int
        }),
{
    let p = prefix_len(s);
    let tail = tail_of(s);
    lemma_prefix_len_bound(s);
    lemma_count_is_natural(s);
    lemma_body_count(tail);
    let rest = s.skip(p);
    let physical = rest.len() > 0 && is_separator(rest[0]);
    if physical {
        assert(rest[0] == s[p]);
        assert(rest.skip(1) == s.skip(p + 1));
        lemma_count_split(s, p);
        lemma_count_split(rest, 1);
        assert(count_separators(rest) == 1 + count_separators(rest.skip(1)));
    } else {
        lemma_count_split(s, p);
    }
    if !has_root(s) && leading_dot(tail) {
        lemma_body_count_after_dot(tail);
    }
    if p > 0 && !is_drive(s) {
        assert(is_double_separator(s));
        assert(p >= 2) by {
            if is_verbatim(s) || is_device(s) {
                lemma_seg_len_bound(s.skip(4));
                if crate::grammar::is_verbatim_unc(s) {
                    let t = s.skip(8);
                    lemma_seg_len_bound(t);
                    if seg_len(t) < t.len() {
                        lemma_seg_len_bound(t.skip(seg_len(t) + 1));
                    }
                }
            } else {
                lemma_seg_len_bound(s.skip(2));
            }
        }
        lemma_count_of_two(s);
        lemma_count_split(s.take(p), 2);
        assert(s.take(p).take(2) == s.take(2));
    }
}

/// Lowering a text that writes no separator keeps the number of its
/// separators.
pub proof fn lemma_lowercase_count(s: Seq<char>)
    requires
        writes_no_separator(s),
    ensures
        count_separators(lowercase(s)) == count_separators(s),
    decreases s.len(),
{
    if s.len() > 0 {
        let shorter = s.drop_last();
        let c = s.last();
        assert forall|i: int| 0 <= i < shorter.len() implies crate::text::lowers_without_separator(
            #[trigger] shorter[i],
        ) by {
            assert(shorter[i] == s[i]);
        }
        lemma_lowercase_count(shorter);
        assert(crate::text::lowers_without_separator(s[s.len() - 1]));
        let low = lower_char(c);
        let one = seq![c];
        assert(s == shorter + one);
        lemma_count_concat(shorter, one);
        lemma_count_concat(lowercase(shorter), low);
        assert(one.skip(1).len() == 0);
        assert(count_separators(one.skip(1)) == 0);
        if is_ascii(c) {
            assert(low.skip(1).len() == 0);
            assert(count_separators(low.skip(1)) == 0);
            assert(low[0] == crate::text::ascii_lower(c));
        } else {
            assert(is_unbroken(low));
            lemma_count_unbroken(low);
            assert(!is_separator(c));
        }
    }
}

/// Plain components written one after another hold one separator fewer
/// than there are components.
pub proof fn lemma_join_count(names: Seq<Part>)
    requires
        all_plain(names),
        names.len() > 0,
    ensures
        count_separators(join_parts(names)) == names.len() - 1,
    decreases names.len(),
{
    let last = names.last();
    assert(is_plain(names[names.len() - 1]));
    lemma_plain_text(last);
    lemma_count_unbroken(part_text(last));
    let before = names.drop_last();
    if names.len() == 1 {
        assert(join_parts(before) == Seq::<char>::empty());
        assert(join_parts(names) == part_text(last));
    } else {
        assert forall|i: int| 0 <= i < before.len() implies is_plain(#[trigger] before[i]) by {
            assert(before[i] == names[i]);
        }
        lemma_join_count(before);
        assert(is_plain(names[names.len() - 2]));
        assert(needs_separator(names[names.len() - 2], last));
        let glue = seq!['\\'];
        assert(join_parts(names) == join_parts(before) + glue + part_text(last));
        lemma_count_concat(join_parts(before), glue);
        lemma_count_concat(join_parts(before) + glue, part_text(last));
        assert(glue.skip(1).len() == 0);
        assert(count_separators(glue.skip(1)) == 0);
        assert(count_separators(glue) == 1);
    }
}

} // verus!

//! What holds of normal forms, of splicing, of the registry and of the
//! calls that are passed on, proved from the definitions.
//!
//! Some of it holds of every path. Some holds only of paths that settle
//! (see `settle`), and each such statement names a path it fails for.
//! What a character outside ASCII is lowered to is known to the library by
//! name only, so a statement about compared forms asks of lowering what it
//! needs: mostly that it writes no separator.

use vstd::prelude::*;
use crate::clean::{clean, cleaned, join_parts, needs_separator, part_text};
use crate::grammar::{Part, prefix_text, unified_char, components, is_drive, is_double_separator, body, has_root, leading_dot, prefix_len, tail_of, seg_len, segment, lemma_seg_len_bound, lemma_prefix_len_bound};
use crate::detour::redirected;
use crate::join::joined;
use crate::normalized::{PathView, normalized, path_starts_with, remainder};
use crate::ntname::{is_system_path, name_text, rewritten_units};
use crate::wide::{lemma_empty_wide_string, wide_text};
use crate::registry::{MappingView, first_match};
use crate::rejoin::{lemma_components_grow, lemma_join_starts_plainly, all_plain, appended, lemma_join_is_relative, is_anchored, is_plain, lemma_body_is_plain, lemma_components_of_join, lemma_join_plain_head, lemma_plain_from, lemma_plain_text};
use crate::shape::{lemma_cleaned_holds, lemma_rest_holds, lemma_cleaned_related, lemma_components_related, related, related_part, related_parts, respects_grammar, same_class};
use crate::settle::{is_clean, lead, lemma_clean_components, lemma_clean_is_clean, lemma_clean_of_clean, lemma_cleaning_settles, lemma_components_of_cleaned, lemma_dot, lemma_first_component, lemma_join_concat, settles, trail};
use crate::splice::spliced;
use crate::tally::{lemma_components_count, lemma_join_count, lemma_lowercase_count};
use crate::text::{folds_in_place, is_separator, keeps_separators, lower_char, lowercase, lowers_in_place, lowers_to_text, lowers_without_separator, writes_no_separator};

verus! {

/// A splice is defined exactly where the path lies at or under the
/// source.
pub proof fn lemma_splice_defined_iff_under_source(
    path: PathView,
    source: PathView,
    target: PathView,
)
    ensures
        spliced(path, source, target) is Some <==> path.starts_with(source),
{
}

/// However the texts begin, a path is not spliced where its components do
/// not begin with those of the source: where it has fewer of them, or
/// where one of them differs from the source's in the same place.
pub proof fn lemma_no_splice_beside_source(
    path: PathView,
    source: PathView,
    target: PathView,
    place: int,
)
    requires
        0 <= place < components(source.inner).len(),
        place >= components(path.inner).len() || components(path.inner)[place] != components(
            source.inner,
        )[place],
    ensures
        spliced(path, source, target) is None,
{
    let p = components(path.inner);
    let s = components(source.inner);
    if s.is_prefix_of(p) {
        assert(s[place] == p.subrange(0, s.len() as int)[place]);
    }
}

/// A path that is the source itself is spliced to the target itself.
pub proof fn lemma_source_splices_to_target(path: PathView, source: PathView, target: PathView)
    requires
        path.inner == source.inner,
    ensures
        spliced(path, source, target) == Some(target.original),
{
    let parts = components(path.inner);
    assert(parts == parts.subrange(0, parts.len() as int));
    assert(parts.skip(parts.len() as int) == Seq::<Part>::empty());
    assert(remainder(path.inner, source.inner).len() == 0);
}

/// A path that lies under no registered source is not remapped, and one
/// that lies under some source is.
pub proof fn lemma_remapped_iff_under_some_source(mappings: Seq<MappingView>, path: PathView)
    ensures
        first_match(mappings, path) is Some <==> exists|i: int|
            0 <= i < mappings.len() && path.starts_with(#[trigger] mappings[i].source),
    decreases mappings.len(),
{
    if mappings.len() > 0 {
        let rest = mappings.skip(1);
        lemma_remapped_iff_under_some_source(rest, path);
        if path.starts_with(mappings[0].source) {
        } else if first_match(rest, path) is Some {
            let i = choose|i: int| 0 <= i < rest.len() && path.starts_with(#[trigger] rest[i].source);
            assert(rest[i] == mappings[i + 1]);
            assert(path.starts_with(mappings[i + 1].source));
        } else {
            if exists|i: int|
                0 <= i < mappings.len() && path.starts_with(#[trigger] mappings[i].source) {
                let i = choose|i: int|
                    0 <= i < mappings.len() && path.starts_with(#[trigger] mappings[i].source);
                assert(rest[i - 1] == mappings[i]);
                assert(path.starts_with(rest[i - 1].source));
            }
        }
    }
}

/// The first registered source under which a path lies decides how it is
/// remapped, whatever sources after it would also match.
pub proof fn lemma_first_source_wins(mappings: Seq<MappingView>, path: PathView, first: int)
    requires
        0 <= first < mappings.len(),
        path.starts_with(mappings[first].source),
        forall|i: int| 0 <= i < first ==> !path.starts_with(#[trigger] mappings[i].source),
    ensures
        first_match(mappings, path) == spliced(
            path,
            mappings[first].source,
            mappings[first].target,
        ),
    decreases mappings.len(),
{
    if first > 0 {
        let rest = mappings.skip(1);
        assert(!path.starts_with(mappings[0].source));
        assert(rest[first - 1] == mappings[first]);
        assert forall|i: int| 0 <= i < first - 1 implies !path.starts_with(
            #[trigger] rest[i].source,
        ) by {
            assert(rest[i] == mappings[i + 1]);
        }
        lemma_first_source_wins(rest, path, first - 1);
    }
}

/// The components of `path` that follow those of `source`.
pub open spec fn beyond(path: PathView, source: PathView) -> Seq<Part> {
    components(path.inner).skip(components(source.inner).len() as int)
}

/// What follows the source can be resolved against a target: there is
/// nothing, or it starts with `..` or with a name that does not open like a
/// drive. A root would throw away all of the target but its prefix, and a
/// drive would replace the target.
pub open spec fn hangs_below(path: PathView, source: PathView) -> bool {
    beyond(path, source).len() > 0 ==> match beyond(path, source)[0] {
        Part::ParentDir => true,
        Part::Normal(name) => !is_drive(name),
        _ => false,
    }
}

/// A spliced path has the components of the target and, behind them, what
/// followed the source in the compared form of the path. So it lies at or
/// under the target, and what follows the target is, but for case, what
/// followed the source.
///
/// This holds where what follows can be resolved against the target and
/// the target is anchored. It fails for the source `c:` and the path
/// `c:\x`, where `\x` follows and the splice onto `d:\mods` is `d:\x`.
pub proof fn lemma_splice_keeps_what_follows(path: PathView, source: PathView, target: PathView)
    requires
        path.starts_with(source),
        hangs_below(path, source),
        beyond(path, source).len() > 0 ==> is_anchored(target.original),
    ensures
        spliced(path, source, target) matches Some(result) && components(result) == components(
            target.original,
        ) + beyond(path, source),
        spliced(path, source, target) matches Some(result) && path_starts_with(
            result,
            target.original,
        ),
{
    let rest = beyond(path, source);
    let at = components(source.inner).len() as int;
    let to = components(target.original);
    if rest.len() == 0 {
        assert(remainder(path.inner, source.inner).len() == 0);
        assert(to + rest == to);
        assert(to == to.subrange(0, to.len() as int));
    } else {
        assert(rest[0] == components(path.inner)[at]);
        lemma_plain_from(path.inner, at);
        lemma_join_plain_head(rest);
        lemma_components_of_join(target.original, rest);
        assert(to == (to + rest).subrange(0, to.len() as int));
    }
}

/// Two characters are the same but for case: lowering either gives the
/// same, and the grammar cannot tell them apart.
pub open spec fn same_letter(a: char, b: char) -> bool {
    same_class(a, b) && lower_char(a) == lower_char(b)
}

/// The relation of being the same but for case.
pub open spec fn by_letter() -> spec_fn(char, char) -> bool {
    |a: char, b: char| same_letter(a, b)
}

/// `p` and `q` are the same text but for the case of their letters.
pub open spec fn differ_in_case_only(p: Seq<char>, q: Seq<char>) -> bool {
    related(by_letter(), p, q)
}

proof fn lemma_lowercase_ignores_case(p: Seq<char>, q: Seq<char>)
    requires
        differ_in_case_only(p, q),
    ensures
        lowercase(p) == lowercase(q),
    decreases p.len(),
{
    if p.len() > 0 {
        let shorter_p = p.drop_last();
        let shorter_q = q.drop_last();
        assert forall|i: int| 0 <= i < shorter_p.len() implies #[trigger] by_letter()(shorter_p[i], shorter_q[i]) by {
            assert(by_letter()(p[i], q[i]));
        }
        lemma_lowercase_ignores_case(shorter_p, shorter_q);
        assert(by_letter()(p[p.len() - 1], q[p.len() - 1]));
    }
}

/// Changing the case of letters in a path does not change the form it is
/// compared by.
pub proof fn lemma_case_is_ignored(p: Seq<char>, q: Seq<char>)
    requires
        differ_in_case_only(p, q),
    ensures
        normalized(p).inner == normalized(q).inner,
{
    let r = by_letter();
    assert(respects_grammar(r)) by {
        assert(r('\\', '\\'));
        assert(r('.', '.'));
        assert forall|a: char, b: char| #[trigger] r(a, b) implies same_class(a, b) by {}
    }
    lemma_cleaned_related(r, p, q);
    if clean(components(p)).len() == 0 {
        assert(clean(components(q)).len() == 0);
    }
    lemma_lowercase_ignores_case(cleaned(p), cleaned(q));
}

/// `b` is what `a` lowers to, and `a` folds in place.
pub open spec fn by_lowering() -> spec_fn(char, char) -> bool {
    |a: char, b: char| folds_in_place(a) && lower_char(a) == seq![b]
}

/// The relation of being the same character that folds in place.
pub open spec fn by_folding() -> spec_fn(char, char) -> bool {
    |a: char, b: char| a == b && folds_in_place(a)
}

proof fn lemma_lowercase_in_place(s: Seq<char>)
    requires
        lowers_in_place(s),
    ensures
        related(by_lowering(), s, lowercase(s)),
    decreases s.len(),
{
    if s.len() > 0 {
        let s0 = s.drop_last();
        assert forall|i: int| 0 <= i < s0.len() implies folds_in_place(#[trigger] s0[i]) by {
            assert(s0[i] == s[i]);
        }
        lemma_lowercase_in_place(s0);
        let low0 = lowercase(s0);
        let low = lowercase(s);
        assert(folds_in_place(s[s.len() - 1]));
        assert(low == low0 + lower_char(s.last()));
        assert forall|i: int| 0 <= i < s.len() implies #[trigger] by_lowering()(s[i], low[i]) by {
            assert(folds_in_place(s[i]));
            if i < s0.len() {
                assert(by_lowering()(s0[i], low0[i]));
                assert(low[i] == low0[i]);
            } else {
                assert(low[i] == lower_char(s.last())[0]);
                assert(lower_char(s[i]) == seq![low[i]]);
            }
        }
    }
}

proof fn lemma_lowering_respects_grammar()
    ensures
        respects_grammar(by_lowering()),
        respects_grammar(by_folding()),
{
    let r = by_lowering();
    assert(r('\\', '\\')) by {
        assert(lower_char('\\') == seq!['\\']);
    }
    assert(r('.', '.')) by {
        assert(lower_char('.') == seq!['.']);
    }
    assert forall|a: char, b: char| #[trigger] r(a, b) implies same_class(a, b) by {
        assert(lower_char(a)[0] == b);
    }
    let f = by_folding();
    assert(f('\\', '\\'));
    assert(f('.', '.'));
    assert forall|a: char, b: char| #[trigger] f(a, b) implies same_class(a, b) by {}
}

/// Where every character of a path folds in place, so does every
/// character of its cleaned form.
pub proof fn lemma_cleaned_lowers_in_place(p: Seq<char>)
    requires
        lowers_in_place(p),
    ensures
        lowers_in_place(cleaned(p)),
{
    let f = by_folding();
    lemma_lowering_respects_grammar();
    assert(related(f, p, p)) by {
        assert forall|i: int| 0 <= i < p.len() implies #[trigger] f(p[i], p[i]) by {
            assert(folds_in_place(p[i]));
        }
    }
    lemma_cleaned_related(f, p, p);
    let x = cleaned(p);
    assert forall|i: int| 0 <= i < x.len() implies folds_in_place(#[trigger] x[i]) by {
        assert(f(x[i], x[i]));
    }
}

/// Where every character of a path folds in place, lowering it keeps its
/// components: as many, of the same kinds, each lowered.
pub proof fn lemma_lowering_keeps_components(s: Seq<char>)
    requires
        lowers_in_place(s),
    ensures
        related_parts(by_lowering(), components(s), components(lowercase(s))),
        components(lowercase(s)).len() == components(s).len(),
{
    lemma_lowering_respects_grammar();
    lemma_lowercase_in_place(s);
    lemma_components_related(by_lowering(), s, lowercase(s));
}

/// Every component is `.` or a name.
pub open spec fn only_names_and_dots(parts: Seq<Part>) -> bool {
    forall|i: int| 0 <= i < parts.len() ==> (#[trigger] parts[i] is CurDir || parts[i] is Normal)
}

proof fn lemma_clean_names(s: Seq<char>, n: int)
    requires
        only_names_and_dots(components(s)),
        0 <= n <= components(s).len(),
    ensures
        clean(components(s).take(n)).len() <= n,
        all_plain(clean(components(s).take(n))),
        forall|i: int|
            0 <= i < clean(components(s).take(n)).len() ==> #[trigger] clean(
                components(s).take(n),
            )[i] is Normal,
    decreases n,
{
    let parts = components(s).take(n);
    if n > 0 {
        lemma_clean_names(s, n - 1);
        assert(parts.drop_last() == components(s).take(n - 1));
        let before = clean(parts.drop_last());
        let last = parts.last();
        assert(last == components(s)[n - 1]);
        if last is Normal {
            lemma_plain_from(s, n - 1);
            assert(components(s).skip(n - 1)[0] == last);
            assert(is_plain(last));
            let after = before.push(last);
            assert forall|i: int| 0 <= i < after.len() implies is_plain(#[trigger] after[i])
                && after[i] is Normal by {
                if i < before.len() {
                    assert(after[i] == before[i]);
                }
            }
        }
    }
}

/// A path made of names and `.` only has neither prefix nor root.
proof fn lemma_names_and_dots_are_relative(p: Seq<char>)
    requires
        only_names_and_dots(components(p)),
    ensures
        prefix_len(p) == 0,
        !has_root(p),
        tail_of(p) == p,
{
    lemma_prefix_len_bound(p);
    let parts = components(p);
    if prefix_len(p) > 0 {
        assert(parts[0] is Prefix);
    } else if has_root(p) {
        assert(parts[0] is RootDir);
    }
    assert(p.skip(0) == p);
}

/// Cleaning makes a list of components no longer.
proof fn lemma_clean_is_no_longer(parts: Seq<Part>)
    ensures
        clean(parts).len() <= parts.len(),
    decreases parts.len(),
{
    if parts.len() > 0 {
        lemma_clean_is_no_longer(parts.drop_last());
    }
}

/// Where a path made of names and `.` is cleaned to a text that opens like
/// a drive, cleaning took a `.` away from its front.
proof fn lemma_drive_like_lost_a_dot(p: Seq<char>)
    requires
        only_names_and_dots(components(p)),
        clean(components(p)).len() > 0,
        clean(components(p))[0] is Normal,
        is_drive(part_text(clean(components(p))[0])),
    ensures
        clean(components(p)).len() < components(p).len(),
{
    lemma_names_and_dots_are_relative(p);
    let parts = components(p);
    let b = body(p);
    lemma_clean_is_no_longer(b);
    lemma_clean_components(p);
    assert(lead(p) == Seq::<Part>::empty());
    assert(clean(parts) == clean(b)) by {
        assert(Seq::<Part>::empty() + clean(b) == clean(b));
    }
    if !leading_dot(p) {
        assert(parts == b) by {
            assert(Seq::<Part>::empty() + b == b);
        }
        // every component is a name, so cleaning changes nothing
        assert(is_clean(b)) by {
            assert forall|i: int| 0 <= i < b.len() implies !(#[trigger] b[i] is CurDir) && (
            b[i] is ParentDir && i > 0 ==> !(b[i - 1] is Normal)) by {
                lemma_body_is_plain(p);
                assert(is_plain(b[i]));
                assert(parts[i] is CurDir || parts[i] is Normal);
            }
        }
        lemma_clean_of_clean(b);
        // the first name is the first segment of the path, which would
        // then be its prefix
        lemma_seg_len_bound(p);
        let n = seg_len(p);
        let seg = if n < p.len() {
            p.take(n)
        } else {
            p
        };
        assert(p.len() > 0);
        assert(b[0] == segment(seg)[0]) by {
            let dot = seq!['.'];
            assert(dot.len() == 1 && dot[0] == '.');
            if n == 0 {
                assert(is_separator(p[0]));
                assert(has_root(p));
            }
            assert(seg.len() == n);
            assert(seg[0] == p[0]);
            if seg == dot {
                assert(leading_dot(p));
            }
            assert(segment(seg).len() > 0);
        }
        let t = part_text(b[0]);
        assert(t == seg);
        assert(seg[0] == p[0] && seg[1] == p[1]);
        assert(is_drive(p));
        assert(!is_double_separator(p));
        assert(false);
    } else {
        assert(parts == seq![Part::CurDir] + b) by {
            assert(Seq::<Part>::empty() + Seq::<Part>::empty() + seq![Part::CurDir] + b == seq![
                Part::CurDir,
            ] + b);
        }
    }
}

/// A path made of names and `.` only has, in normal form, no more
/// components than it had.
///
/// This needs the path to have a component: the empty path has none, and
/// its normal form `.` has one. It needs lowering not to make a drive of a
/// text that opens like none: it fails for a path that opens with the
/// Kelvin sign and a colon, which is a name until it is lowered. And it
/// asks that lowering writes no separator, which no character is known
/// to be lowered to; the library does not claim so of the tables it is
/// built with.
pub proof fn lemma_normal_form_adds_no_component(p: Seq<char>)
    requires
        components(p).len() > 0,
        only_names_and_dots(components(p)),
        is_drive(normalized(p).inner) ==> is_drive(normalized(p).original),
        writes_no_separator(p),
    ensures
        components(normalized(p).inner).len() <= components(p).len(),
{
    let parts = components(p);
    lemma_clean_names(p, parts.len() as int);
    assert(parts.take(parts.len() as int) == parts);
    let names = clean(parts);
    let x = cleaned(p);
    let y = lowercase(x);
    if names.len() == 0 {
        lemma_dot();
    } else {
        assert(x == join_parts(names));
        let holds = |c: char| lowers_without_separator(c);
        assert forall|i: int| 0 <= i < p.len() implies #[trigger] holds(p[i]) by {
            assert(lowers_without_separator(p[i]));
        }
        lemma_cleaned_holds(holds, p);
        assert forall|i: int| 0 <= i < x.len() implies lowers_without_separator(
            #[trigger] x[i],
        ) by {
            assert(holds(x[i]));
        }
        lemma_lowercase_count(x);
        lemma_join_count(names);
        lemma_components_count(y);
        if is_drive(y) {
            lemma_join_starts_plainly(names);
            assert(is_plain(names[0]));
            lemma_drive_like_lost_a_dot(p);
        }
    }
}

/// Lowering keeps the kinds of components, and with them cleanness.
proof fn lemma_related_parts_stay_clean(r: spec_fn(char, char) -> bool, a: Seq<Part>, b: Seq<Part>)
    requires
        related_parts(r, a, b),
        is_clean(a),
    ensures
        is_clean(b),
{
    assert forall|i: int| 0 <= i < b.len() implies !(#[trigger] b[i] is CurDir) && (b[i]
        is ParentDir && i > 0 ==> !(b[i - 1] is Normal)) by {
        assert(related_part(r, a[i], b[i]));
        assert(!(a[i] is CurDir));
        if i > 0 {
            assert(related_part(r, a[i - 1], b[i - 1]));
        }
    }
}

/// Both texts of a normal form are clean: no component is `.`, and `..`
/// stands only where it cannot be resolved.
///
/// This is proved for a path that settles and whose characters fold in
/// place. It does not hold of a path that cleaning leaves nothing of: its
/// normal form is `.`, which is a component.
pub proof fn lemma_normal_form_is_clean(p: Seq<char>)
    requires
        settles(p),
        lowers_in_place(p),
        clean(components(p)).len() > 0,
    ensures
        is_clean(components(normalized(p).original)),
        is_clean(components(normalized(p).inner)),
{
    lemma_components_of_cleaned(p);
    lemma_clean_is_clean(components(p));
    lemma_cleaned_lowers_in_place(p);
    lemma_lowering_keeps_components(cleaned(p));
    lemma_related_parts_stay_clean(
        by_lowering(),
        components(cleaned(p)),
        components(lowercase(cleaned(p))),
    );
}

/// Every component is a name.
pub open spec fn only_names(parts: Seq<Part>) -> bool {
    forall|i: int| 0 <= i < parts.len() ==> #[trigger] parts[i] is Normal
}

/// A clean text that starts with the components of a settled path
/// settles too.
proof fn lemma_settles_behind(t: Seq<char>, x: Seq<char>)
    requires
        settles(t),
        clean(components(t)).len() > 0,
        clean(components(t)).is_prefix_of(components(x)),
        is_clean(components(x)),
    ensures
        settles(x),
{
    let ct = clean(components(t));
    let cx = components(x);
    lemma_clean_components(t);
    lemma_clean_components(x);
    lemma_clean_of_clean(cx);
    lemma_first_component(x);
    lemma_prefix_len_bound(x);
    lemma_prefix_len_bound(t);
    assert(cx[0] == ct[0]) by {
        assert(ct == cx.subrange(0, ct.len() as int));
    }
    let lt = lead(t);
    let tt = trail(t);
    if lt.len() > 0 {
        assert(ct[0] == lt[0]);
        assert(lt[0] is Prefix || lt[0] is RootDir);
    } else {
        assert(ct == tt) by {
            assert(lt + tt == tt);
        }
        assert(is_plain(tt[0]));
    }
    let n = prefix_len(x);
    if n > 0 && !is_drive(x) {
        assert(cx[0] == Part::Prefix(prefix_text(x)));
        assert(prefix_len(t) > 0);
        let nt = prefix_len(t);
        assert(lt[0] == Part::Prefix(prefix_text(t)));
        assert(prefix_text(x) == prefix_text(t));
        assert(prefix_text(x).len() == n && prefix_text(t).len() == nt);
        if is_drive(t) {
            assert(nt == 2);
            assert(prefix_text(t)[0] == t[0] && prefix_text(t)[1] == t[1]);
            assert(x.take(n)[0] == x[0] && x.take(n)[1] == x[1]);
            assert(prefix_text(x)[0] == unified_char(x[0]) || prefix_text(x)[0] == x[0]);
            assert(prefix_text(x)[1] == unified_char(x[1]) || prefix_text(x)[1] == x[1]);
            assert(is_drive(x));
        }
    }
    if lead(x).len() == 0 && trail(x).len() > 0 {
        assert(cx == trail(x)) by {
            assert(lead(x) + trail(x) == trail(x));
        }
        assert(is_plain(trail(x)[0]));
        assert(lt.len() == 0);
    }
}

/// Names spliced onto a settled target that is not `.` give a text that
/// cleaning leaves as it is: its components are those of the target and
/// the names behind them, before cleaning and after.
proof fn lemma_spliced_names(path: PathView, source: PathView, t: Seq<char>)
    requires
        path.starts_with(source),
        only_names(beyond(path, source)),
        beyond(path, source).len() > 0,
        !is_drive(part_text(beyond(path, source)[0])),
        settles(t),
        clean(components(t)).len() > 0,
    ensures
        spliced(path, source, normalized(t)) == Some(
            appended(cleaned(t), beyond(path, source)),
        ),
        components(appended(cleaned(t), beyond(path, source))) == components(cleaned(t))
            + beyond(path, source),
        components(cleaned(appended(cleaned(t), beyond(path, source)))) == components(
            cleaned(t),
        ) + beyond(path, source),
        cleaned(appended(cleaned(t), beyond(path, source))) == join_parts(
            components(cleaned(t)) + beyond(path, source),
        ),
        all_plain(beyond(path, source)),
{
    let target = normalized(t);
    let a = cleaned(t);
    let rest = beyond(path, source);
    let at = components(source.inner).len() as int;
    lemma_components_of_cleaned(t);
    let to = components(a);
    assert(rest[0] is Normal);
    assert(rest[0] == components(path.inner)[at]);
    lemma_plain_from(path.inner, at);
    lemma_join_is_relative(rest);
    lemma_splice_keeps_what_follows(path, source, target);
    let result = appended(a, rest);
    assert(joined(a, join_parts(rest)) == result);
    let all = to + rest;
    lemma_clean_is_clean(components(t));
    assert(is_clean(all)) by {
        assert forall|i: int| 0 <= i < all.len() implies !(#[trigger] all[i] is CurDir) && (
        all[i] is ParentDir && i > 0 ==> !(all[i - 1] is Normal)) by {
            if i < to.len() {
                assert(all[i] == to[i]);
                if i > 0 {
                    assert(all[i - 1] == to[i - 1]);
                }
            } else {
                assert(all[i] == rest[i - to.len()]);
            }
        }
    }
    lemma_clean_of_clean(all);
    assert(to == all.subrange(0, to.len() as int));
    lemma_settles_behind(t, result);
    lemma_components_of_cleaned(result);
}

/// The lowercase form of two texts written together is the two lowercase
/// forms written together.
pub proof fn lemma_lowercase_concat(x: Seq<char>, y: Seq<char>)
    ensures
        lowercase(x + y) == lowercase(x) + lowercase(y),
    decreases y.len(),
{
    if y.len() == 0 {
        assert(x + y == x);
        assert(lowercase(x) + lowercase(y) == lowercase(x));
    } else {
        assert((x + y).drop_last() == x + y.drop_last());
        assert((x + y).last() == y.last());
        lemma_lowercase_concat(x, y.drop_last());
        assert(lowercase(x + y) == lowercase(x) + lowercase(y.drop_last()) + lower_char(y.last()));
        assert(lowercase(x) + lowercase(y.drop_last()) + lower_char(y.last()) == lowercase(x) + (
        lowercase(y.drop_last()) + lower_char(y.last())));
    }
}

/// Lowering a text that keeps its separators leaves something, which
/// starts and ends with a separator exactly where the text does.
pub proof fn lemma_lowercase_ends(s: Seq<char>)
    requires
        keeps_separators(s),
        s.len() > 0,
    ensures
        lowercase(s).len() > 0,
        is_separator(lowercase(s).last()) == is_separator(s.last()),
        is_separator(lowercase(s)[0]) == is_separator(s[0]),
    decreases s.len(),
{
    let shorter = s.drop_last();
    let c = s.last();
    assert(lowers_to_text(s[s.len() - 1]));
    let low = lower_char(c);
    assert(low.len() > 0);
    assert(is_separator(low.last()) == is_separator(c) && is_separator(low[0]) == is_separator(
        c,
    )) by {
        if !crate::text::is_ascii(c) {
            assert(!is_separator(low[low.len() - 1]));
            assert(!is_separator(low[0]));
        }
    }
    let all = lowercase(s);
    assert(all == lowercase(shorter) + low);
    assert(all.last() == low.last());
    if shorter.len() > 0 {
        assert forall|i: int| 0 <= i < shorter.len() implies lowers_to_text(
            #[trigger] shorter[i],
        ) by {
            assert(shorter[i] == s[i]);
        }
        lemma_lowercase_ends(shorter);
        assert(all[0] == lowercase(shorter)[0]);
        assert(shorter[0] == s[0]);
    } else {
        assert(lowercase(shorter) == Seq::<char>::empty());
        assert(all == low);
    }
}

/// A bare drive is lowered to a bare drive.
proof fn lemma_lowercase_of_drive(d: Seq<char>)
    requires
        is_drive(d),
        d.len() == 2,
    ensures
        is_drive(lowercase(d)),
        lowercase(d).len() == 2,
{
    let one = d.drop_last();
    assert(one.drop_last() == Seq::<char>::empty());
    assert(lowercase(one.drop_last()) == Seq::<char>::empty());
    assert(one.last() == d[0]);
    assert(lowercase(one) == Seq::<char>::empty() + lower_char(d[0]));
    assert(lower_char(d[0]).len() == 1);
    assert(lower_char(':') == seq![':']);
    assert(lowercase(d) == lowercase(one) + lower_char(d[1]));
    let low = lowercase(d);
    assert(low[0] == lower_char(d[0])[0]);
    assert(low[1] == ':');
}

/// How the cleaned text of a settled path ends, by its last component: in
/// a separator after a root, as a bare drive after a drive, and in
/// neither after `..` or a name.
proof fn lemma_cleaned_end(t: Seq<char>)
    requires
        settles(t),
        clean(components(t)).len() > 0,
    ensures
        cleaned(t) == join_parts(clean(components(t))),
        cleaned(t).len() > 0,
        match clean(components(t)).last() {
            Part::RootDir => is_separator(cleaned(t).last()),
            Part::Prefix(x) => is_drive(x) && x.len() == 2 && cleaned(t) == x,
            Part::CurDir => false,
            _ => !is_separator(cleaned(t).last()),
        },
{
    let to = clean(components(t));
    let a = cleaned(t);
    lemma_clean_components(t);
    let front = lead(t);
    let back = trail(t);
    let last = to.last();
    assert(a == join_parts(to.drop_last()) + crate::clean::separator_before_last(to) + part_text(
        last,
    ));
    if back.len() > 0 {
        assert(last == back.last());
        assert(is_plain(back[back.len() - 1]));
        lemma_plain_text(last);
        let text = part_text(last);
        assert(a.last() == text[text.len() - 1]);
    } else {
        assert(to == front) by {
            assert(front + back == front);
        }
        lemma_prefix_len_bound(t);
        if has_root(t) {
            assert(last is RootDir);
            assert(part_text(last) == seq!['\\']);
            assert(a.last() == '\\');
        } else {
            let n = prefix_len(t);
            assert(n > 0 && is_drive(t));
            let x = prefix_text(t);
            assert(to == seq![Part::Prefix(x)]);
            assert(t.take(n)[0] == t[0] && t.take(n)[1] == t[1]);
            assert(x[0] == t[0] && x[1] == t[1]);
            assert(to.drop_last() == Seq::<Part>::empty());
            assert(join_parts(to.drop_last()) == Seq::<char>::empty());
            assert(a == x);
        }
    }
}

/// In normal form, a spliced path lies at or under the target.
///
/// This holds where the target settles and is not `.`, and what follows
/// the source is names only, the first of which does not open like a
/// drive. It fails for the target `.`, which is gone from `.\\x` after
/// cleaning; for the target `.\\c:.`, which does not settle; and for the
/// source `..` and the path `..\\..\\x`, which is spliced onto `d:\\mods`
/// as `d:\\mods\\..\\x`.
///
/// The last three premises are about lowering. They ask that every
/// character is lowered to something that holds no separator, and that
/// the compared form of the target is anchored as its cleaned text is. No
/// text is known of which this is not so, but the library claims nothing
/// of the tables it lowers with, so it asks.
pub proof fn lemma_splice_lies_under_target(path: PathView, source: PathView, t: Seq<char>)
    requires
        path.starts_with(source),
        only_names(beyond(path, source)),
        beyond(path, source).len() > 0 ==> !is_drive(part_text(beyond(path, source)[0])),
        settles(t),
        clean(components(t)).len() > 0,
        keeps_separators(t),
        keeps_separators(path.inner),
        is_anchored(normalized(t).inner),
    ensures
        spliced(path, source, normalized(t)) matches Some(result) && normalized(
            result,
        ).starts_with(normalized(t)),
{
    let target = normalized(t);
    let a = cleaned(t);
    let low_a = lowercase(a);
    let rest = beyond(path, source);
    let at = components(source.inner).len() as int;
    lemma_cleaning_settles(t);
    if rest.len() == 0 {
        assert(remainder(path.inner, source.inner).len() == 0);
        assert(spliced(path, source, target) == Some(a));
        let same = components(target.inner);
        assert(same == same.subrange(0, same.len() as int));
    } else {
        lemma_spliced_names(path, source, t);
        lemma_components_of_cleaned(t);
        lemma_cleaned_end(t);
        let to = components(a);
        let result = appended(a, rest);
        let z = cleaned(result);
        let rem = join_parts(rest);
        lemma_join_concat(to, rest);
        lemma_join_starts_plainly(rest);
        let holds = |c: char| lowers_to_text(c);
        assert(keeps_separators(a)) by {
            assert forall|i: int| 0 <= i < t.len() implies #[trigger] holds(t[i]) by {
                assert(lowers_to_text(t[i]));
            }
            lemma_cleaned_holds(holds, t);
            assert forall|i: int| 0 <= i < a.len() implies lowers_to_text(#[trigger] a[i]) by {
                assert(holds(a[i]));
            }
        }
        assert(keeps_separators(rem)) by {
            assert forall|i: int| 0 <= i < path.inner.len() implies #[trigger] holds(
                path.inner[i],
            ) by {
                assert(lowers_to_text(path.inner[i]));
            }
            lemma_rest_holds(holds, path.inner, at);
            assert forall|i: int| 0 <= i < rem.len() implies lowers_to_text(#[trigger] rem[i]) by {
                assert(holds(rem[i]));
            }
        }
        lemma_lowercase_ends(a);
        lemma_lowercase_ends(rem);
        let low_rem = lowercase(rem);
        assert(rest[0] is Normal);
        if needs_separator(to.last(), rest[0]) {
            let glue = seq!['\\'];
            assert(z == a + glue + rem);
            lemma_lowercase_concat(a + glue, rem);
            lemma_lowercase_concat(a, glue);
            assert(lowercase(glue) == glue) by {
                assert(glue.drop_last() == Seq::<char>::empty());
                assert(lowercase(glue.drop_last()) == Seq::<char>::empty());
                assert(lower_char('\\') == glue);
                assert(Seq::<char>::empty() + glue == glue);
            }
            let more = glue + low_rem;
            assert(lowercase(z) == low_a + more);
            assert(more[0] == '\\');
            lemma_components_grow(low_a, more);
        } else {
            assert(z == a + rem) by {
                assert(a + Seq::<char>::empty() + rem == a + rem);
            }
            lemma_lowercase_concat(a, rem);
            match to.last() {
                Part::Prefix(x) => {
                    lemma_lowercase_of_drive(a);
                },
                _ => {},
            }
            lemma_components_grow(low_a, low_rem);
        }
        assert(normalized(result).inner == lowercase(z));
    }
}

/// The compared form of a target is anchored where the target settles,
/// keeps its separators when lowered, and does not open with two
/// separators. So it is for every target on a drive.
pub proof fn lemma_compared_form_is_anchored(t: Seq<char>)
    requires
        settles(t),
        keeps_separators(t),
        !is_double_separator(cleaned(t)),
    ensures
        is_anchored(normalized(t).inner),
{
    let a = cleaned(t);
    let low = lowercase(a);
    lemma_cleaning_settles(t);
    let holds = |c: char| lowers_to_text(c);
    assert forall|i: int| 0 <= i < t.len() implies #[trigger] holds(t[i]) by {
        assert(lowers_to_text(t[i]));
    }
    lemma_cleaned_holds(holds, t);
    assert forall|i: int| 0 <= i < a.len() implies lowers_to_text(#[trigger] a[i]) by {
        assert(holds(a[i]));
    }
    lemma_lowercase_ends(a);
    if is_separator(low[0]) && a.len() >= 2 {
        let head = seq![a[0]];
        let more = a.skip(1);
        assert(a == head + more);
        lemma_lowercase_concat(head, more);
        assert(lowercase(head) == seq![a[0]]) by {
            assert(head.drop_last() == Seq::<char>::empty());
            assert(lowercase(head.drop_last()) == Seq::<char>::empty());
            assert(lower_char(a[0]) == seq![a[0]]);
            assert(Seq::<char>::empty() + seq![a[0]] == seq![a[0]]);
        }
        assert forall|i: int| 0 <= i < more.len() implies lowers_to_text(#[trigger] more[i]) by {
            assert(more[i] == a[i + 1]);
        }
        lemma_lowercase_ends(more);
        assert(low == seq![a[0]] + lowercase(more));
        assert(low[1] == lowercase(more)[0]);
        assert(more[0] == a[1]);
    } else if is_separator(low[0]) {
        let none = a.drop_last();
        assert(lowercase(none) == Seq::<char>::empty());
        assert(lower_char(a[0]) == seq![a[0]]);
        assert(low == Seq::<char>::empty() + lower_char(a.last()));
        assert(low.len() == 1);
    }
    assert(!is_double_separator(low));
}

/// The empty path is `.` in normal form.
pub proof fn lemma_empty_path_is_dot()
    ensures
        normalized(Seq::<char>::empty()) == (PathView { inner: seq!['.'], original: seq!['.'] }),
{
    let none = Seq::<char>::empty();
    assert(prefix_len(none) == 0);
    assert(none.skip(0) == none);
    assert(tail_of(none) == none);
    assert(components(none) == Seq::<Part>::empty());
    assert(clean(components(none)) == Seq::<Part>::empty());
    assert(cleaned(none) == seq!['.']);
    lemma_dot();
}

/// The empty wide string decodes to `.`.
pub proof fn lemma_empty_wide_string_is_dot(w: Seq<u16>)
    requires
        w.len() == 0 || w[0] == 0,
    ensures
        normalized(wide_text(w)) == (PathView { inner: seq!['.'], original: seq!['.'] }),
{
    lemma_empty_wide_string(w);
    lemma_empty_path_is_dot();
}

/// The empty path lies under no source that names anything: under none
/// whose compared form has a component other than `.` in front.
pub proof fn lemma_empty_path_matches_nothing(mappings: Seq<MappingView>)
    requires
        forall|i: int|
            0 <= i < mappings.len() ==> components((#[trigger] mappings[i]).source.inner).len() > 0
                && !(components(mappings[i].source.inner)[0] is CurDir),
    ensures
        first_match(mappings, normalized(Seq::<char>::empty())) is None,
{
    let path = normalized(Seq::<char>::empty());
    lemma_empty_path_is_dot();
    lemma_dot();
    lemma_remapped_iff_under_some_source(mappings, path);
    assert forall|i: int| 0 <= i < mappings.len() implies !path.starts_with(
        #[trigger] mappings[i].source,
    ) by {
        let s = components(mappings[i].source.inner);
        let p = components(path.inner);
        if s.is_prefix_of(p) {
            assert(s[0] == p.subrange(0, s.len() as int)[0]);
        }
    }
}

/// A call whose path lies under no registered source is passed on with the
/// caller's own pointer.
pub proof fn lemma_unmatched_calls_keep_their_pointer(mappings: Seq<MappingView>, raw: Seq<u16>)
    requires
        forall|i: int|
            0 <= i < mappings.len() ==> !normalized(wide_text(raw)).starts_with(
                #[trigger] mappings[i].source,
            ),
    ensures
        redirected(mappings, raw) is None,
{
    lemma_remapped_iff_under_some_source(mappings, normalized(wide_text(raw)));
}

/// A name in the device namespace or the system directory is left alone,
/// whatever is registered.
pub proof fn lemma_system_paths_pass_through(mappings: Seq<MappingView>, name: Seq<u16>)
    requires
        name_text(name) matches Some(text) && is_system_path(text),
    ensures
        rewritten_units(mappings, name) is None,
{
}

} // verus!

//! Lexical cleaning: `.` dropped, `..` resolved against the component
//! before it, and the result written back with `\` between components.

use vstd::prelude::*;
use crate::grammar::{Component, Part, components, parts_of, parse};
use crate::text::{is_ascii_letter, ascii_letter, chars_of};

verus! {

/// One step of cleaning: `c` arrives after `out` has been cleaned.
///
/// `.` is dropped. `..` removes a normal component before it and is kept
/// after anything else: a prefix, a root, another `..`, or nothing.
pub open spec fn clean_step(out: Seq<Part>, c: Part) -> Seq<Part> {
    match c {
        Part::CurDir => out,
        Part::ParentDir => if out.len() > 0 && out.last() is Normal {
            out.drop_last()
        } else {
            out.push(c)
        },
        _ => out.push(c),
    }
}

/// The components of a path after cleaning, taken from left to right.
pub open spec fn clean(cs: Seq<Part>) -> Seq<Part>
    decreases cs.len(),
{
    if cs.len() == 0 {
        Seq::empty()
    } else {
        clean_step(clean(cs.drop_last()), cs.last())
    }
}

/// The text a component is written as.
pub open spec fn part_text(c: Part) -> Seq<char> {
    match c {
        Part::Prefix(t) => t,
        Part::RootDir => seq!['\\'],
        Part::CurDir => seq!['.'],
        Part::ParentDir => seq!['.', '.'],
        Part::Normal(t) => t,
    }
}

/// `t` is a drive letter and a colon, nothing more.
pub open spec fn is_drive_text(t: Seq<char>) -> bool {
    t.len() == 2 && is_ascii_letter(t[0]) && t[1] == ':'
}

/// A `\` is written between two components unless one of them is the root
/// or the first is a bare drive, after which a path stays drive-relative.
pub open spec fn needs_separator(prev: Part, next: Part) -> bool {
    !(prev is RootDir) && !(next is RootDir) && !(prev matches Part::Prefix(t) && is_drive_text(t))
}

/// The separator written before the last of `cs`, if any.
pub open spec fn separator_before_last(cs: Seq<Part>) -> Seq<char> {
    if cs.len() >= 2 && needs_separator(cs[cs.len() - 2], cs.last()) {
        seq!['\\']
    } else {
        Seq::empty()
    }
}

/// The components written one after another.
pub open spec fn join_parts(cs: Seq<Part>) -> Seq<char>
    decreases cs.len(),
{
    if cs.len() == 0 {
        Seq::empty()
    } else {
        join_parts(cs.drop_last()) + separator_before_last(cs) + part_text(cs.last())
    }
}

/// The path that a list of components stands for; `.` where it is empty.
pub open spec fn render(cs: Seq<Part>) -> Seq<char> {
    if cs.len() == 0 {
        seq!['.']
    } else {
        join_parts(cs)
    }
}

/// The cleaned form of the path `s`.
pub open spec fn cleaned(s: Seq<char>) -> Seq<char> {
    render(clean(components(s)))
}

/// A copy of `c`.
pub(crate) fn copy_component(c: &Component) -> (r: Component)
    ensures
        r@ == c@,
{
    match c {
        Component::Prefix(t) => Component::Prefix(t.clone()),
        Component::RootDir => Component::RootDir,
        Component::CurDir => Component::CurDir,
        Component::ParentDir => Component::ParentDir,
        Component::Normal(t) => Component::Normal(t.clone()),
    }
}

fn is_normal(c: &Component) -> (r: bool)
    ensures
        r == (c@ is Normal),
{
    match c {
        Component::Normal(_) => true,
        _ => false,
    }
}

fn is_root(c: &Component) -> (r: bool)
    ensures
        r == (c@ is RootDir),
{
    match c {
        Component::RootDir => true,
        _ => false,
    }
}

fn is_bare_drive(c: &Component) -> (r: bool)
    ensures
        r == (c@ matches Part::Prefix(t) && is_drive_text(t)),
{
    match c {
        Component::Prefix(t) => {
            let chars = chars_of(t.as_str());
            chars.len() == 2 && ascii_letter(chars[0]) && chars[1] == ':'
        },
        _ => false,
    }
}

/// The components of a path after cleaning.
pub fn clean_components(cs: &Vec<Component>) -> (r: Vec<Component>)
    ensures
        parts_of(r@) == clean(parts_of(cs@)),
{
    let mut out: Vec<Component> = Vec::new();
    let mut i: usize = 0;
    assert(parts_of(cs@).take(0) == Seq::<Part>::empty());
    while i < cs.len()
        invariant
            i <= cs.len(),
            parts_of(out@) == clean(parts_of(cs@).take(i as int)),
        decreases cs.len() - i,
    {
        let ghost before = out@;
        let ghost seen = parts_of(cs@).take(i + 1);
        proof {
            assert(seen.drop_last() == parts_of(cs@).take(i as int));
            assert(seen.last() == cs@[i as int]@);
        }
        match &cs[i] {
            Component::CurDir => {},
            Component::ParentDir => {
                if out.len() > 0 && is_normal(&out[out.len() - 1]) {
                    assert(parts_of(before).last() == before.last()@);
                    out.pop();
                    assert(parts_of(out@) == parts_of(before).drop_last());
                } else {
                    proof {
                        if before.len() > 0 {
                            assert(parts_of(before).last() == before.last()@);
                        }
                    }
                    out.push(Component::ParentDir);
                    assert(parts_of(out@) == parts_of(before).push(Part::ParentDir));
                }
            },
            c => {
                let copy = copy_component(c);
                out.push(copy);
                assert(parts_of(out@) == parts_of(before).push(cs@[i as int]@));
            },
        }
        i += 1;
    }
    assert(parts_of(cs@).take(cs.len() as int) == parts_of(cs@));
    out
}

/// Appends the text of `c` to `out`.
fn push_text(out: &mut String, c: &Component)
    ensures
        final(out)@ == old(out)@ + part_text(c@),
{
    match c {
        Component::Prefix(t) => out.append(t.as_str()),
        Component::RootDir => out.push('\\'),
        Component::CurDir => out.push('.'),
        Component::ParentDir => {
            out.push('.');
            out.push('.');
        },
        Component::Normal(t) => out.append(t.as_str()),
    }
    proof {
        assert(final(out)@ == old(out)@ + part_text(c@));
    }
}

/// The components written one after another, with `\` where one is due.
pub fn join_components(cs: &Vec<Component>) -> (r: String)
    ensures
        r@ == join_parts(parts_of(cs@)),
{
    let mut out = String::new();
    let mut i: usize = 0;
    assert(parts_of(cs@).take(0) == Seq::<Part>::empty());
    while i < cs.len()
        invariant
            i <= cs.len(),
            out@ == join_parts(parts_of(cs@).take(i as int)),
        decreases cs.len() - i,
    {
        let ghost seen = parts_of(cs@).take(i + 1);
        proof {
            assert(seen.drop_last() == parts_of(cs@).take(i as int));
            assert(seen.last() == cs@[i as int]@);
            if i > 0 {
                assert(seen[seen.len() - 2] == cs@[i - 1]@);
            }
        }
        if i > 0 && !is_root(&cs[i - 1]) && !is_root(&cs[i]) && !is_bare_drive(&cs[i - 1]) {
            out.push('\\');
        }
        proof {
            assert(out@ == join_parts(seen.drop_last()) + separator_before_last(seen));
        }
        push_text(&mut out, &cs[i]);
        i += 1;
    }
    assert(parts_of(cs@).take(cs.len() as int) == parts_of(cs@));
    out
}

/// The path that `cs` stands for; `.` where it is empty.
pub fn render_components(cs: &Vec<Component>) -> (r: String)
    ensures
        r@ == render(parts_of(cs@)),
{
    if cs.len() == 0 {
        let mut out = String::new();
        out.push('.');
        out
    } else {
        join_components(cs)
    }
}

/// Cleans `path` without touching the file system: `.` components go,
/// each `..` takes the normal component before it along, separators become
/// `\`, and an empty result is written `.`.
pub fn clean_path(path: &str) -> (r: String)
    ensures
        r@ == cleaned(path@),
{
    let parsed = parse(path);
    let kept = clean_components(&parsed);
    render_components(&kept)
}

/// The cleaned form of `path`; another name for `clean_path`.
pub fn normalize_path(path: &str) -> (r: String)
    ensures
        r@ == cleaned(path@),
{
    clean_path(path)
}

} // verus!

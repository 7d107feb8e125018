//! Moving a path from under one root to under another.

use vstd::prelude::*;
use crate::clean::part_text;
use crate::grammar::{Component, Part, components, parts_of, parse};
use crate::join::{joined, join_paths};
use crate::normalized::{NormalizedPath, PathView};
use crate::text::{ascii_lower, chars_of, fold_ascii, string_of, text_of};

verus! {

/// `path` with the components of `source` replaced by `target`.
///
/// It is defined where `path` lies at or under `source`. A path that is
/// the source itself gives the target as it stands; any other gives what
/// follows the source, in the compared form, resolved against the target.
pub open spec fn spliced(path: PathView, source: PathView, target: PathView) -> Option<
    Seq<char>,
> {
    match path.strip_prefix(source) {
        Some(rest) => if rest.len() == 0 {
            Some(target.original)
        } else {
            Some(joined(target.original, rest))
        },
        None => None,
    }
}

/// Splices `path` from `source_root` onto `target_root`; `None` where
/// `path` does not lie at or under `source_root`.
pub fn splice_path(
    path: &NormalizedPath,
    source_root: &NormalizedPath,
    target_root: &NormalizedPath,
) -> (r: Option<String>)
    ensures
        text_of(r) == spliced(path@, source_root@, target_root@),
        r is Some <==> path@.starts_with(source_root@),
{
    match path.strip_prefix(source_root) {
        None => None,
        Some(rest) => {
            if rest.as_str().is_empty() {
                Some(target_root.to_path_buf())
            } else {
                Some(join_paths(target_root.original(), rest.as_str()))
            }
        },
    }
}

/// `s` with its ASCII capitals made small.
pub open spec fn ascii_folded(s: Seq<char>) -> Seq<char> {
    Seq::new(s.len(), |i: int| ascii_lower(s[i]))
}

/// Two components are written alike, but for the case of ASCII letters.
pub open spec fn written_alike(a: Part, b: Part) -> bool {
    ascii_folded(part_text(a)) == ascii_folded(part_text(b))
}

/// The components `root` open the components `all`, each written like the
/// one in its place but for the case of ASCII letters.
pub open spec fn opens_alike(root: Seq<Part>, all: Seq<Part>) -> bool {
    root.len() <= all.len() && forall|i: int|
        0 <= i < root.len() ==> written_alike(#[trigger] root[i], all[i])
}

/// `onto` with `parts` resolved against it one after another.
pub open spec fn extended(onto: Seq<char>, parts: Seq<Part>) -> Seq<char>
    decreases parts.len(),
{
    if parts.len() == 0 {
        onto
    } else {
        joined(extended(onto, parts.drop_last()), part_text(parts.last()))
    }
}

/// What `logical_splice` gives for three paths as they were written.
pub open spec fn logically_spliced(
    base: Seq<char>,
    relative: Seq<char>,
    onto: Seq<char>,
) -> Option<Seq<char>> {
    let b = components(base);
    let r = components(relative);
    if opens_alike(r, b) {
        Some(extended(onto, b.skip(r.len() as int)))
    } else {
        None
    }
}

/// The text a component is written as.
fn text_of_component(c: &Component) -> (r: Vec<char>)
    ensures
        r@ == part_text(c@),
{
    match c {
        Component::Prefix(t) => chars_of(t.as_str()),
        Component::RootDir => {
            let v: Vec<char> = vec!['\\'];
            assert(v@ == seq!['\\']);
            v
        },
        Component::CurDir => {
            let v: Vec<char> = vec!['.'];
            assert(v@ == seq!['.']);
            v
        },
        Component::ParentDir => {
            let v: Vec<char> = vec!['.', '.'];
            assert(v@ == seq!['.', '.']);
            v
        },
        Component::Normal(t) => chars_of(t.as_str()),
    }
}

/// Whether two components are written alike, but for the case of ASCII
/// letters.
fn alike(a: &Component, b: &Component) -> (r: bool)
    ensures
        r == written_alike(a@, b@),
{
    let x = text_of_component(a);
    let y = text_of_component(b);
    if x.len() != y.len() {
        assert(ascii_folded(x@).len() != ascii_folded(y@).len());
        return false;
    }
    let mut i: usize = 0;
    while i < x.len()
        invariant
            i <= x.len(),
            x.len() == y.len(),
            x@ == part_text(a@),
            y@ == part_text(b@),
            forall|j: int| 0 <= j < i ==> ascii_lower(x@[j]) == ascii_lower(y@[j]),
        decreases x.len() - i,
    {
        if fold_ascii(x[i]) != fold_ascii(y[i]) {
            proof {
                let fx = ascii_folded(x@);
                let fy = ascii_folded(y@);
                assert(fx[i as int] == ascii_lower(x@[i as int]));
                assert(fy[i as int] == ascii_lower(y@[i as int]));
                assert(fx != fy);
            }
            return false;
        }
        i += 1;
    }
    assert(ascii_folded(x@) == ascii_folded(y@));
    true
}

/// Splices `base` from under `relative` onto `onto`, going by the paths as
/// they were written: nothing is cleaned and only ASCII case is ignored.
///
/// The result is defined where `base` has every component of `relative`,
/// each written alike in its place. It is then `onto` with the components
/// of `base` that follow those of `relative` resolved against it one after
/// another. A `base` that ends above `relative`, or differs from it in
/// some place, gives `None`.
pub fn logical_splice(base: &str, relative: &str, onto: &str) -> (r: Option<String>)
    ensures
        text_of(r) == logically_spliced(base@, relative@, onto@),
{
    let b = parse(base);
    let rel = parse(relative);
    assert(parts_of(b@).len() == b@.len());
    assert(parts_of(rel@).len() == rel@.len());
    if rel.len() > b.len() {
        return None;
    }
    let shared = rel.len();
    let mut i: usize = 0;
    while i < shared
        invariant
            i <= shared,
            shared <= b.len(),
            shared == rel.len(),
            parts_of(b@) == components(base@),
            parts_of(rel@) == components(relative@),
            forall|j: int| 0 <= j < i ==> written_alike(rel@[j]@, b@[j]@),
        decreases shared - i,
    {
        if !alike(&rel[i], &b[i]) {
            proof {
                let pb = parts_of(b@);
                let pr = parts_of(rel@);
                assert(pb[i as int] == b@[i as int]@);
                assert(pr[i as int] == rel@[i as int]@);
                assert(!written_alike(pr[i as int], pb[i as int]));
                assert(!opens_alike(pr, pb));
            }
            return None;
        }
        i += 1;
    }
    proof {
        let pb = parts_of(b@);
        let pr = parts_of(rel@);
        assert forall|j: int| 0 <= j < pr.len() implies written_alike(#[trigger] pr[j], pb[j]) by {
            assert(written_alike(rel@[j]@, b@[j]@));
        }
        assert(opens_alike(pr, pb));
    }
    let mut out = String::new();
    out.append(onto);
    let mut k: usize = shared;
    let ghost rest = parts_of(b@).skip(shared as int);
    assert(rest.take(0) == Seq::<Part>::empty());
    while k < b.len()
        invariant
            shared <= k <= b.len(),
            rest == parts_of(b@).skip(shared as int),
            out@ == extended(onto@, rest.take(k - shared)),
        decreases b.len() - k,
    {
        let text = text_of_component(&b[k]);
        let piece = string_of(&text);
        proof {
            let seen = rest.take(k - shared + 1);
            assert(seen.drop_last() == rest.take(k - shared));
            assert(seen.last() == b@[k as int]@);
        }
        out = join_paths(out.as_str(), piece.as_str());
        k += 1;
    }
    assert(rest.take(b.len() - shared) == rest);
    Some(out)
}

} // verus!

//! A path in normal form: cleaned, and beside it the same text in lower
//! case, by which paths are compared.

use vstd::prelude::*;
use vstd::std_specs::cmp::PartialEqSpecImpl;
use vstd::std_specs::convert::FromSpecImpl;
use crate::clean::{cleaned, clean_path, join_parts, join_components, copy_component};
use crate::grammar::{Component, components, parts_of, parse};
use crate::join::{joined, join_paths};
use crate::text::{lowercase, to_lowercase};

verus! {

/// What a `NormalizedPath` holds: the text it is compared by and the text
/// it is forwarded as.
pub struct PathView {
    pub inner: Seq<char>,
    pub original: Seq<char>,
}

/// The form of `s` by which paths are compared: cleaned, then lowered.
pub open spec fn canonical(s: Seq<char>) -> Seq<char> {
    lowercase(cleaned(s))
}

/// The normal form of the path `s`.
pub open spec fn normalized(s: Seq<char>) -> PathView {
    PathView { inner: canonical(s), original: cleaned(s) }
}

/// Every component of `b` is, place by place, the component of `a`.
pub open spec fn path_starts_with(a: Seq<char>, b: Seq<char>) -> bool {
    components(b).is_prefix_of(components(a))
}

/// The components of `a` that follow those of `b`, written as a path. It is
/// empty where nothing follows.
pub open spec fn remainder(a: Seq<char>, b: Seq<char>) -> Seq<char> {
    join_parts(components(a).skip(components(b).len() as int))
}

impl PathView {
    /// The value is the normal form of some path.
    pub open spec fn wf(self) -> bool {
        exists|s: Seq<char>| self == #[trigger] normalized(s)
    }

    /// This path lies at or under `base`, going by the compared forms.
    pub open spec fn starts_with(self, base: PathView) -> bool {
        path_starts_with(self.inner, base.inner)
    }

    /// What is left of the compared form after `prefix`, where it starts
    /// with `prefix`.
    pub open spec fn strip_prefix(self, prefix: PathView) -> Option<Seq<char>> {
        if self.starts_with(prefix) {
            Some(remainder(self.inner, prefix.inner))
        } else {
            None
        }
    }
}

/// A cleaned path together with its lowercase form. Two values are equal
/// when their lowercase forms are.
#[derive(Debug)]
pub struct NormalizedPath {
    inner: String,
    original: String,
}

impl View for NormalizedPath {
    type V = PathView;

    closed spec fn view(&self) -> PathView {
        PathView { inner: self.inner@, original: self.original@ }
    }
}

impl Clone for NormalizedPath {
    fn clone(&self) -> (r: Self)
        ensures
            r@ == self@,
    {
        proof {
            use_type_invariant(self);
        }
        NormalizedPath { inner: self.inner.clone(), original: self.original.clone() }
    }
}

impl PartialEq for NormalizedPath {
    fn eq(&self, other: &Self) -> (r: bool) {
        self.inner == other.inner
    }
}

impl Eq for NormalizedPath {
}

impl std::hash::Hash for NormalizedPath {
    /// Feeds the compared form to `state` with `String::hash`, so that
    /// equal paths hash alike. Nothing is claimed of what `state` holds
    /// afterwards.
    #[verifier::external_body]
    fn hash<H: std::hash::Hasher>(&self, state: &mut H) {
        self.inner.hash(state);
    }
}

impl PartialEqSpecImpl for NormalizedPath {
    open spec fn obeys_eq_spec() -> bool {
        true
    }

    open spec fn eq_spec(&self, other: &Self) -> bool {
        self@.inner == other@.inner
    }
}

impl<'a> From<&'a str> for NormalizedPath {
    fn from(path: &'a str) -> (r: Self)
        ensures
            r@ == normalized(path@),
    {
        NormalizedPath::new(path)
    }
}

impl<'a> FromSpecImpl<&'a str> for NormalizedPath {
    /// No expression of a specification builds the strings a path holds,
    /// so the conversion is described by the `ensures` of `from` alone.
    open spec fn obeys_from_spec() -> bool {
        false
    }

    open spec fn from_spec(path: &'a str) -> Self {
        arbitrary()
    }
}

impl From<String> for NormalizedPath {
    fn from(path: String) -> (r: Self)
        ensures
            r@ == normalized(path@),
    {
        NormalizedPath::new(path.as_str())
    }
}

impl FromSpecImpl<String> for NormalizedPath {
    open spec fn obeys_from_spec() -> bool {
        false
    }

    open spec fn from_spec(path: String) -> Self {
        arbitrary()
    }
}

/// `a@ == b@`, component by component.
fn same_component(a: &Component, b: &Component) -> (r: bool)
    ensures
        r == (a@ == b@),
{
    match (a, b) {
        (Component::Prefix(x), Component::Prefix(y)) => *x == *y,
        (Component::RootDir, Component::RootDir) => true,
        (Component::CurDir, Component::CurDir) => true,
        (Component::ParentDir, Component::ParentDir) => true,
        (Component::Normal(x), Component::Normal(y)) => *x == *y,
        _ => false,
    }
}

/// Whether the components `b` open the components `a`.
fn opens(a: &Vec<Component>, b: &Vec<Component>) -> (r: bool)
    ensures
        r == parts_of(b@).is_prefix_of(parts_of(a@)),
{
    if b.len() > a.len() {
        return false;
    }
    let mut i: usize = 0;
    while i < b.len()
        invariant
            i <= b.len() <= a.len(),
            forall|j: int| 0 <= j < i ==> a@[j]@ == b@[j]@,
        decreases b.len() - i,
    {
        if !same_component(&a[i], &b[i]) {
            proof {
                let pa = parts_of(a@);
                let pb = parts_of(b@);
                assert(pb[i as int] != pa.subrange(0, pb.len() as int)[i as int]);
            }
            return false;
        }
        i += 1;
    }
    proof {
        let pa = parts_of(a@);
        let pb = parts_of(b@);
        assert(pb == pa.subrange(0, pb.len() as int));
    }
    true
}

impl NormalizedPath {
    /// Every value is the normal form of some path.
    #[verifier::type_invariant]
    spec fn is_normal_form(&self) -> bool {
        self@.wf()
    }

    /// The normal form of `path`: cleaned, and beside it lowered for
    /// comparison.
    pub fn new(path: &str) -> (r: Self)
        ensures
            r@ == normalized(path@),
            r@.wf(),
    {
        let cleaned = clean_path(path);
        let lowered = to_lowercase(cleaned.as_str());
        assert((PathView { inner: lowered@, original: cleaned@ }) == normalized(path@));
        NormalizedPath { inner: lowered, original: cleaned }
    }

    /// The text by which this path is compared.
    pub fn inner(&self) -> (r: &str)
        ensures
            r@ == self@.inner,
            self@.wf(),
    {
        proof {
            use_type_invariant(self);
        }
        self.inner.as_str()
    }

    /// The cleaned text, in the case it was given in.
    pub fn original(&self) -> (r: &str)
        ensures
            r@ == self@.original,
            self@.wf(),
    {
        proof {
            use_type_invariant(self);
        }
        self.original.as_str()
    }

    /// An owned copy of the cleaned text.
    pub fn to_path_buf(&self) -> (r: String)
        ensures
            r@ == self@.original,
            self@.wf(),
    {
        proof {
            use_type_invariant(self);
        }
        self.original.clone()
    }

    /// The components of the compared form.
    pub fn components(&self) -> (r: Vec<Component>)
        ensures
            parts_of(r@) == components(self@.inner),
    {
        parse(self.inner.as_str())
    }

    /// How many components the compared form has.
    pub fn component_count(&self) -> (r: usize)
        ensures
            r == components(self@.inner).len(),
    {
        let parsed = parse(self.inner.as_str());
        assert(parts_of(parsed@).len() == parsed@.len());
        parsed.len()
    }

    /// Whether this path lies at or under `base`: each component of `base`
    /// equals the component of this path in the same place.
    pub fn starts_with(&self, base: &NormalizedPath) -> (r: bool)
        ensures
            r == self@.starts_with(base@),
    {
        let mine = parse(self.inner.as_str());
        let theirs = parse(base.inner.as_str());
        opens(&mine, &theirs)
    }

    /// The components after `prefix`, written as a path, where this path
    /// lies at or under `prefix`.
    pub fn strip_prefix(&self, prefix: &NormalizedPath) -> (r: Option<String>)
        ensures
            r is Some == self@.starts_with(prefix@),
            match r {
                Some(rest) => Some(rest@) == self@.strip_prefix(prefix@),
                None => self@.strip_prefix(prefix@) is None,
            },
    {
        let mine = parse(self.inner.as_str());
        let theirs = parse(prefix.inner.as_str());
        if !opens(&mine, &theirs) {
            return None;
        }
        let mut rest: Vec<Component> = Vec::new();
        let mut i: usize = theirs.len();
        assert(parts_of(theirs@).len() == theirs@.len());
        assert(parts_of(mine@).len() == mine@.len());
        while i < mine.len()
            invariant
                theirs.len() <= i <= mine.len(),
                parts_of(rest@) == parts_of(mine@).subrange(theirs.len() as int, i as int),
            decreases mine.len() - i,
        {
            let ghost before = rest@;
            let copy = copy_component(&mine[i]);
            rest.push(copy);
            proof {
                assert(parts_of(rest@) == parts_of(before).push(mine@[i as int]@));
                assert(parts_of(mine@)[i as int] == mine@[i as int]@);
                assert(parts_of(rest@) == parts_of(mine@).subrange(
                    theirs.len() as int,
                    i + 1,
                ));
            }
            i += 1;
        }
        proof {
            assert(parts_of(mine@).subrange(theirs.len() as int, mine.len() as int) == parts_of(
                mine@,
            ).skip(theirs.len() as int));
        }
        Some(join_components(&rest))
    }

    /// `path` resolved against the cleaned text of this path, in normal
    /// form.
    pub fn join(&self, path: &str) -> (r: NormalizedPath)
        ensures
            r@ == normalized(joined(self@.original, path@)),
            r@.wf(),
    {
        let together = join_paths(self.original.as_str(), path);
        NormalizedPath::new(together.as_str())
    }
}

} // verus!

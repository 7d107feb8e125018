//! The ordered list of source and target roots, and the first-match rule.

use vstd::prelude::*;
use crate::grammar::{Component, Part, components, parts_of, parse};
use crate::normalized::{NormalizedPath, PathView, normalized};
use crate::splice::{spliced, splice_path};
use crate::text::{text_of, texts_of};

verus! {

/// What a `PathMapping` holds.
pub struct MappingView {
    pub source: PathView,
    pub target: PathView,
}

/// A source root and the target root that stands in for it.
pub struct PathMapping {
    source: NormalizedPath,
    target: NormalizedPath,
}

impl View for PathMapping {
    type V = MappingView;

    closed spec fn view(&self) -> MappingView {
        MappingView { source: self.source@, target: self.target@ }
    }
}

impl PathMapping {
    /// The mapping from `source` to `target`, both brought to normal form.
    pub fn new(source: &str, target: &str) -> (r: Self)
        ensures
            r@ == mapping_of(source@, target@),
    {
        PathMapping { source: NormalizedPath::new(source), target: NormalizedPath::new(target) }
    }
}

/// The mapping that registering `source` and `target` adds.
pub open spec fn mapping_of(source: Seq<char>, target: Seq<char>) -> MappingView {
    MappingView { source: normalized(source), target: normalized(target) }
}

/// The splice of `path` by the first of `mappings` under whose source it
/// lies; `None` where it lies under none.
pub open spec fn first_match(mappings: Seq<MappingView>, path: PathView) -> Option<Seq<char>>
    decreases mappings.len(),
{
    if mappings.len() == 0 {
        None
    } else {
        match spliced(path, mappings[0].source, mappings[0].target) {
            Some(found) => Some(found),
            None => first_match(mappings.skip(1), path),
        }
    }
}

/// The last component of `path`, where that is a normal one.
pub open spec fn leaf_name(path: Seq<char>) -> Option<Seq<char>> {
    let parts = components(path);
    if parts.len() > 0 {
        match parts.last() {
            Part::Normal(name) => Some(name),
            _ => None,
        }
    } else {
        None
    }
}

/// The names of the registered sources: of each, in the order of
/// registration, the last component of its cleaned text. A source that
/// does not end in a normal component has no name.
pub open spec fn source_names(mappings: Seq<MappingView>) -> Seq<Seq<char>>
    decreases mappings.len(),
{
    if mappings.len() == 0 {
        Seq::empty()
    } else {
        let before = source_names(mappings.drop_last());
        match leaf_name(mappings.last().source.original) {
            Some(name) => before.push(name),
            None => before,
        }
    }
}

/// The mappings in the order they were registered. Nothing sorts them: a
/// caller registers the longer of two nested sources first.
pub struct PathRegistry {
    mappings: Vec<PathMapping>,
}

impl View for PathRegistry {
    type V = Seq<MappingView>;

    closed spec fn view(&self) -> Seq<MappingView> {
        Seq::new(self.mappings@.len(), |i: int| self.mappings@[i]@)
    }
}

impl PathRegistry {
    /// A registry without mappings.
    pub fn new() -> (r: Self)
        ensures
            r@ == Seq::<MappingView>::empty(),
    {
        PathRegistry { mappings: Vec::new() }
    }

    /// Adds the mapping from `source` to `target` behind those already
    /// there.
    pub fn register(&mut self, source: &str, target: &str)
        ensures
            final(self)@ == old(self)@.push(mapping_of(source@, target@)),
    {
        let mapping = PathMapping::new(source, target);
        self.mappings.push(mapping);
        assert(self@ == old(self)@.push(mapping_of(source@, target@)));
    }

    /// The splice of `path` by the first mapping under whose source it
    /// lies; `None` where it lies under none.
    pub fn try_remap(&self, path: &NormalizedPath) -> (r: Option<String>)
        ensures
            text_of(r) == first_match(self@, path@),
    {
        let mut i: usize = 0;
        assert(self@.skip(0) == self@);
        while i < self.mappings.len()
            invariant
                i <= self.mappings.len(),
                self@.len() == self.mappings.len(),
                first_match(self@, path@) == first_match(self@.skip(i as int), path@),
            decreases self.mappings.len() - i,
        {
            let ghost here = self@.skip(i as int);
            proof {
                assert(here[0] == self.mappings@[i as int]@);
                assert(here.skip(1) == self@.skip(i + 1));
            }
            let mapping = &self.mappings[i];
            let found = splice_path(path, &mapping.source, &mapping.target);
            if found.is_some() {
                return found;
            }
            i += 1;
        }
        None
    }

    /// Whether `path` lies under a registered source.
    pub fn would_remap(&self, path: &NormalizedPath) -> (r: bool)
        ensures
            r == first_match(self@, path@) is Some,
    {
        self.try_remap(path).is_some()
    }

    /// The names of the registered sources, in the order of registration.
    pub fn source_names(&self) -> (r: Vec<String>)
        ensures
            texts_of(r@) == source_names(self@),
    {
        let mut names: Vec<String> = Vec::new();
        let mut i: usize = 0;
        assert(self@.take(0) == Seq::<MappingView>::empty());
        while i < self.mappings.len()
            invariant
                i <= self.mappings.len(),
                self@.len() == self.mappings.len(),
                texts_of(names@) == source_names(self@.take(i as int)),
            decreases self.mappings.len() - i,
        {
            let ghost before = names@;
            let ghost seen = self@.take(i + 1);
            proof {
                assert(seen.drop_last() == self@.take(i as int));
                assert(seen.last() == self.mappings@[i as int]@);
            }
            let parsed = parse(self.mappings[i].source.original());
            assert(parts_of(parsed@).len() == parsed@.len());
            if parsed.len() > 0 {
                assert(parts_of(parsed@).last() == parsed@.last()@);
                match &parsed[parsed.len() - 1] {
                    Component::Normal(name) => {
                        names.push(name.clone());
                        assert(texts_of(names@) == texts_of(before).push(name@));
                    },
                    _ => {},
                }
            }
            i += 1;
        }
        assert(self@.take(self.mappings.len() as int) == self@);
        names
    }

    /// How many mappings are registered.
    pub fn len(&self) -> (r: usize)
        ensures
            r == self@.len(),
    {
        self.mappings.len()
    }

    /// Whether no mapping is registered.
    pub fn is_empty(&self) -> (r: bool)
        ensures
            r == (self@.len() == 0),
    {
        self.mappings.len() == 0
    }
}

/// The splice of `path` by the published registry; `None` while none is
/// published.
pub fn remap_path(registry: Option<&PathRegistry>, path: &NormalizedPath) -> (r: Option<String>)
    ensures
        text_of(r) == match registry {
            Some(published) => first_match(published@, path@),
            None => None,
        },
{
    match registry {
        Some(published) => published.try_remap(path),
        None => None,
    }
}

} // verus!

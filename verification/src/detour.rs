//! What each intercepted call does with the path it was given.

use vstd::prelude::*;
use crate::normalized::{NormalizedPath, normalized};
use crate::registry::{MappingView, PathRegistry, first_match};
use crate::wide::{path_to_widestring, pcwstr_to_path, wide_form, wide_text};

verus! {

/// What a detour hands to the function it stands in front of.
#[derive(Debug, PartialEq, Eq)]
pub enum Forward {
    /// The caller's own pointer, untouched.
    Unchanged,
    /// A wide string that takes the place of the caller's.
    Rewritten(Vec<u16>),
}

/// What `Forward` stands for in specifications.
pub enum ForwardView {
    Unchanged,
    Rewritten(Seq<u16>),
}

impl View for Forward {
    type V = ForwardView;

    open spec fn view(&self) -> ForwardView {
        match self {
            Forward::Unchanged => ForwardView::Unchanged,
            Forward::Rewritten(w) => ForwardView::Rewritten(w@),
        }
    }
}

/// The path that a call with the wide string `raw` is sent to by
/// `registry`, where that differs from the path it names.
pub open spec fn redirected(registry: Seq<MappingView>, raw: Seq<u16>) -> Option<Seq<char>> {
    let path = normalized(wide_text(raw));
    match first_match(registry, path) {
        Some(target) => if target == path.original {
            None
        } else {
            Some(target)
        },
        None => None,
    }
}

/// Decides what a detour forwards for the wide string `raw`: the remapped
/// path where a registered source matches and remapping changes the path,
/// else the caller's pointer.
pub fn redirect(registry: &PathRegistry, raw: &Vec<u16>) -> (r: Forward)
    ensures
        r@ == match redirected(registry@, raw@) {
            Some(target) => ForwardView::Rewritten(wide_form(target)),
            None => ForwardView::Unchanged,
        },
{
    let path = pcwstr_to_path(raw);
    redirect_path(registry, &path)
}

/// As `redirect`, for a path that is decoded already.
pub fn redirect_path(registry: &PathRegistry, path: &NormalizedPath) -> (r: Forward)
    ensures
        r@ == match first_match(registry@, path@) {
            Some(target) => if target == path@.original {
                ForwardView::Unchanged
            } else {
                ForwardView::Rewritten(wide_form(target))
            },
            None => ForwardView::Unchanged,
        },
{
    match registry.try_remap(path) {
        Some(target) => {
            let unchanged = target == path.to_path_buf();
            if unchanged {
                Forward::Unchanged
            } else {
                Forward::Rewritten(path_to_widestring(target.as_str()))
            }
        },
        None => Forward::Unchanged,
    }
}

} // verus!

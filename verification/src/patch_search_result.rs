use vstd::prelude::*;

use crate::patch::{Patch, PatchView};

verus! {

/// What one layer holds at and after a position: the patch that covers the
/// position, if any, and the patch that comes after it in the layer, if any.
pub enum PatchSearchResult<'a> {
    NoMorePatches,
    PatchFollows { next_patch: &'a Patch },
    CurrentPatchIsTheLastOne { current_patch: &'a Patch },
    CurrentPatchIsFollowedBy { current_patch: &'a Patch, next_patch: &'a Patch },
}

impl<'a> PatchSearchResult<'a> {
    /// The patch that covers the position.
    pub open spec fn current(self) -> Option<PatchView> {
        match self {
            PatchSearchResult::NoMorePatches => None,
            PatchSearchResult::PatchFollows { .. } => None,
            PatchSearchResult::CurrentPatchIsTheLastOne { current_patch } => Some(current_patch@),
            PatchSearchResult::CurrentPatchIsFollowedBy { current_patch, .. } => Some(
                current_patch@,
            ),
        }
    }

    /// The patch that comes next in the layer.
    pub open spec fn next(self) -> Option<PatchView> {
        match self {
            PatchSearchResult::NoMorePatches => None,
            PatchSearchResult::PatchFollows { next_patch } => Some(next_patch@),
            PatchSearchResult::CurrentPatchIsTheLastOne { .. } => None,
            PatchSearchResult::CurrentPatchIsFollowedBy { next_patch, .. } => Some(next_patch@),
        }
    }
}

} // verus!

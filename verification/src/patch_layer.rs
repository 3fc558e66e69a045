use vstd::prelude::*;

pub mod lemmas;

use crate::patch::{Patch, PatchView};
use lemmas::{
    lemma_admitted_is_new, lemma_first_beyond, lemma_insert_keeps_order,
    lemma_insert_position_unique, lemma_with_patch,
};
use crate::patch_search_result::PatchSearchResult;
use crate::traits::Contains;

verus! {

/// Every patch of `layer` is well formed.
pub open spec fn all_wf(layer: Seq<PatchView>) -> bool {
    forall|i: int| 0 <= i < layer.len() ==> (#[trigger] layer[i]).wf()
}

/// The patches of `layer` stand in strictly ascending order of their keys.
pub open spec fn sorted_by_key(layer: Seq<PatchView>) -> bool {
    forall|i: int, j: int|
        0 <= i < j < layer.len() ==> (#[trigger] layer[i]).key_lt(#[trigger] layer[j])
}

/// No two patches of `layer` overlap.
pub open spec fn non_overlapping(layer: Seq<PatchView>) -> bool {
    forall|i: int, j: int|
        0 <= i < layer.len() && 0 <= j < layer.len() && i != j ==> !(#[trigger] layer[i]).overlaps(
            #[trigger] layer[j],
        )
}

/// No patch of `layer` overlaps `patch`.
pub open spec fn admits(layer: Seq<PatchView>, patch: PatchView) -> bool {
    forall|i: int| 0 <= i < layer.len() ==> !(#[trigger] layer[i]).overlaps(patch)
}

/// Some patch of `layer` has the key of `patch`.
pub open spec fn has_key(layer: Seq<PatchView>, patch: PatchView) -> bool {
    exists|i: int| 0 <= i < layer.len() && (#[trigger] layer[i]).key() == patch.key()
}

/// `i` is where `patch` belongs in `layer`: what stands before orders before
/// `patch`, and what stands at `i` and after does not.
pub open spec fn is_insert_position(layer: Seq<PatchView>, patch: PatchView, i: int) -> bool {
    &&& 0 <= i <= layer.len()
    &&& forall|j: int| 0 <= j < i ==> (#[trigger] layer[j]).key_lt(patch)
    &&& forall|j: int| i <= j < layer.len() ==> !(#[trigger] layer[j]).key_lt(patch)
}

/// The layer after `patch` was offered to it: a set keeps what it has when the
/// key is taken, and else takes the patch in at its place in the order.
pub open spec fn with_patch(layer: Seq<PatchView>, patch: PatchView) -> Seq<PatchView> {
    if has_key(layer, patch) {
        layer
    } else {
        layer.insert(choose|i: int| is_insert_position(layer, patch, i), patch)
    }
}

/// `i` is the first patch of `layer` that contains `offset`.
pub open spec fn is_first_containing(layer: Seq<PatchView>, offset: int, i: int) -> bool {
    &&& 0 <= i < layer.len()
    &&& layer[i].contains(offset)
    &&& forall|j: int| 0 <= j < i ==> !(#[trigger] layer[j]).contains(offset)
}

/// The first patch of `layer` that contains `offset`.
pub open spec fn covering(layer: Seq<PatchView>, offset: int) -> Option<PatchView> {
    if exists|i: int| is_first_containing(layer, offset, i) {
        Some(layer[choose|i: int| is_first_containing(layer, offset, i)])
    } else {
        None
    }
}

/// `i` is the first patch of `layer` that ends after `offset`: the first one
/// that contains `offset` or begins after it.
pub open spec fn is_first_beyond(layer: Seq<PatchView>, offset: int, i: int) -> bool {
    &&& 0 <= i < layer.len()
    &&& layer[i].end() > offset
    &&& forall|j: int| 0 <= j < i ==> (#[trigger] layer[j]).end() <= offset
}

/// The index of the first patch of `layer` that ends after `offset`, or the
/// length of `layer` where there is none.
pub open spec fn first_beyond(layer: Seq<PatchView>, offset: int) -> int {
    if exists|i: int| is_first_beyond(layer, offset, i) {
        choose|i: int| is_first_beyond(layer, offset, i)
    } else {
        layer.len() as int
    }
}

/// The patch that a search at `offset` reports as current: the first patch
/// that ends after `offset`, where it contains `offset`.
pub open spec fn current_at(layer: Seq<PatchView>, offset: int) -> Option<PatchView> {
    let i = first_beyond(layer, offset);
    if i < layer.len() && layer[i].contains(offset) {
        Some(layer[i])
    } else {
        None
    }
}

/// The patch that a search at `offset` reports as next: the first patch that
/// ends after `offset` where it begins after `offset`, and else its successor.
pub open spec fn next_after(layer: Seq<PatchView>, offset: int) -> Option<PatchView> {
    let i = first_beyond(layer, offset);
    if i >= layer.len() {
        None
    } else if !layer[i].contains(offset) {
        Some(layer[i])
    } else if i + 1 < layer.len() {
        Some(layer[i + 1])
    } else {
        None
    }
}

/// A set of patches, held in the order of their keys.
pub struct PatchLayer {
    patches: Vec<Patch>,
}

impl View for PatchLayer {
    type V = Seq<PatchView>;

    closed spec fn view(&self) -> Seq<PatchView> {
        Seq::new(self.patches@.len(), |i: int| self.patches@[i]@)
    }
}

impl Clone for PatchLayer {
    fn clone(&self) -> (res: Self)
        ensures
            res@ == self@,
    {
        proof {
            use_type_invariant(self);
        }
        let patches = self.patches.clone();
        assert(Seq::new(patches@.len(), |i: int| patches@[i]@) =~= self@);
        Self { patches }
    }
}

impl PatchLayer {
    /// What holds of every layer: its patches are well formed, and they stand
    /// in strictly ascending order of their keys, so that no key stands twice.
    #[verifier::type_invariant]
    pub open spec fn wf(&self) -> bool {
        all_wf(self@) && sorted_by_key(self@)
    }

    /// Makes a layer that holds `patch` alone.
    pub fn new_with(patch: Patch) -> (res: Self)
        ensures
            res@ == seq![patch@],
    {
        proof {
            use_type_invariant(&patch);
        }
        let mut patches = Vec::new();
        patches.push(patch);
        let res = Self { patches };
        assert(res@ =~= seq![patch@]);
        res
    }

    /// Tells whether `patch` can join this layer: whether it overlaps none of
    /// the patches that the layer holds.
    pub fn may_contain(&self, patch: &Patch) -> (res: bool)
        ensures
            res == admits(self@, patch@),
    {
        let mut i: usize = 0;
        while i < self.patches.len()
            invariant
                i <= self.patches@.len(),
                forall|j: int| 0 <= j < i ==> !(#[trigger] self@[j]).overlaps(patch@),
            decreases self.patches.len() - i,
        {
            if self.patches[i].overlaps(patch) {
                assert(self@[i as int].overlaps(patch@));
                return false;
            }
            i += 1;
        }
        true
    }

    /// Adds `patch` to the set and tells whether it was added: a patch whose
    /// key the layer already holds is dropped, and the layer stays as it is.
    /// A patch that the layer admits is always added, and a layer without
    /// overlaps stays so.
    pub fn insert(&mut self, patch: Patch) -> (res: bool)
        ensures
            res == !has_key(old(self)@, patch@),
            final(self)@ == with_patch(old(self)@, patch@),
            admits(old(self)@, patch@) ==> res,
            admits(old(self)@, patch@) && non_overlapping(old(self)@) ==> non_overlapping(
                final(self)@,
            ),
    {
        proof {
            use_type_invariant(&*self);
            use_type_invariant(&patch);
            if admits(self@, patch@) {
                lemma_admitted_is_new(self@, patch@);
                if non_overlapping(self@) {
                    lemma_with_patch(self@, patch@);
                }
            }
        }
        let mut i: usize = 0;
        while i < self.patches.len()
            invariant
                i <= self.patches@.len(),
                forall|j: int| 0 <= j < i ==> (#[trigger] self@[j]).key_lt(patch@),
            ensures
                i == self.patches@.len() || !self@[i as int].key_lt(patch@),
            decreases self.patches.len() - i,
        {
            let here = &self.patches[i];
            let before = here.begin() < patch.begin() || (here.begin() == patch.begin()
                && here.end() < patch.end());
            assert(before == self@[i as int].key_lt(patch@));
            if !before {
                break ;
            }
            i += 1;
        }
        let ghost before = self@;
        assert(is_insert_position(before, patch@, i as int)) by {
            assert forall|j: int| i <= j < before.len() implies !(#[trigger] before[j]).key_lt(
                patch@,
            ) by {
                if j > i {
                    assert(before[i as int].key_lt(before[j]));
                }
            }
        }
        if i < self.patches.len() && self.patches[i].begin() == patch.begin()
            && self.patches[i].end() == patch.end() {
            assert(before[i as int].key() == patch@.key());
            return false;
        }
        assert(!has_key(before, patch@)) by {
            assert forall|j: int| 0 <= j < before.len() implies (#[trigger] before[j]).key()
                != patch@.key() by {
                if j > i {
                    assert(before[i as int].key_lt(before[j]));
                }
            }
        }
        proof {
            lemma_insert_position_unique(before, patch@, i as int);
        }
        let mut patches = Vec::new();
        std::mem::swap(&mut patches, &mut self.patches);
        patches.insert(i, patch);
        assert(Seq::new(patches@.len(), |k: int| patches@[k]@) =~= before.insert(
            i as int,
            patch@,
        ));
        proof {
            lemma_insert_keeps_order(before, patch@, i as int);
        }
        self.patches = patches;
        true
    }

    /// Finds the patch which contains data for the given offset.
    pub fn patch_for(&self, offset: u64) -> (res: Option<&Patch>)
        ensures
            res.is_some() == covering(self@, offset as int).is_some(),
            res matches Some(patch) ==> Some(patch@) == covering(self@, offset as int),
    {
        let mut i: usize = 0;
        while i < self.patches.len()
            invariant
                i <= self.patches@.len(),
                forall|j: int| 0 <= j < i ==> !(#[trigger] self@[j]).contains(offset as int),
            decreases self.patches.len() - i,
        {
            if self.patches[i].contains(offset) {
                assert(is_first_containing(self@, offset as int, i as int));
                assert forall|k: int| is_first_containing(self@, offset as int, k) implies k
                    == i by {
                    if k < i {
                        assert(!self@[k].contains(offset as int));
                    }
                }
                return Some(&self.patches[i]);
            }
            i += 1;
        }
        assert forall|k: int| !is_first_containing(self@, offset as int, k) by {
            if 0 <= k < self@.len() {
                assert(!self@[k].contains(offset as int));
            }
        }
        None
    }

    /// Looks for the patch that covers `offset` and for the patch after it.
    /// The patches are taken in order. The first that contains `offset` is the
    /// current one, and its successor, if there is one, is the next. Where a
    /// patch that begins after `offset` comes first, it is the next, and
    /// there is no current one.
    pub fn next_patch_for(&self, offset: u64) -> (res: PatchSearchResult<'_>)
        ensures
            res.current() == current_at(self@, offset as int),
            res.next() == next_after(self@, offset as int),
    {
        proof {
            use_type_invariant(self);
        }
        let mut i: usize = 0;
        while i < self.patches.len()
            invariant
                i <= self.patches@.len(),
                forall|j: int| 0 <= j < i ==> (#[trigger] self@[j]).end() <= offset,
            decreases self.patches.len() - i,
        {
            let here = &self.patches[i];
            proof {
                use_type_invariant(here);
            }
            if here.contains(offset) || here.begin() > offset {
                proof {
                    lemma_first_beyond(self@, offset as int, i as int);
                }
                if !here.contains(offset) {
                    return PatchSearchResult::PatchFollows { next_patch: here };
                } else if i + 1 < self.patches.len() {
                    return PatchSearchResult::CurrentPatchIsFollowedBy {
                        current_patch: here,
                        next_patch: &self.patches[i + 1],
                    };
                } else {
                    return PatchSearchResult::CurrentPatchIsTheLastOne { current_patch: here };
                }
            }
            i += 1;
        }
        assert forall|k: int| !is_first_beyond(self@, offset as int, k) by {
            if 0 <= k < self@.len() {
                assert(self@[k].end() <= offset);
            }
        }
        PatchSearchResult::NoMorePatches
    }

    /// Hands out the patches of this layer in ascending order of their keys.
    pub fn iter_patches(&self) -> (res: &[Patch])
        ensures
            res@.len() == self@.len(),
            forall|i: int| 0 <= i < res@.len() ==> (#[trigger] res@[i])@ == self@[i],
    {
        self.patches.as_slice()
    }
}

} // verus!

use vstd::prelude::*;

use super::model::{
    is_first_admitting, lemma_landing, lemma_landing_in_front, lemma_place, masked, place, splice,
    written,
};
use super::seek::SeekFrom;
use super::theorems::{theorem_unmasked_write_splices, theorem_write_changes_data};
use super::MemOverlay;
use crate::error::OverlayError;
use crate::patch::{Patch, PatchView};
use crate::patch_layer::lemmas::lemma_admitted_is_new;
use crate::patch_layer::{admits, PatchLayer};
use crate::traits::SolidPatch;

verus! {

impl MemOverlay {
    /// Whether a write of `bytes` at `offset` shows in full: whether no layer
    /// in front of the layer that the patch lands in covers a byte of it. A
    /// write to an overlay of at most one layer always does.
    pub open spec fn unmasked(&self, offset: int, bytes: Seq<u8>) -> bool {
        forall|i: int|
            offset <= i < offset + bytes.len() ==> !#[trigger] masked(
                self.layers(),
                PatchView { offset: offset as nat, bytes },
                i,
            )
    }

    /// Writes `buf` as a patch at the cursor and returns the number of bytes
    /// taken, which is all of them. The patch joins the front-most layer
    /// none of whose patches it overlaps. Where there is no such layer, it
    /// makes a new layer at the front. The cursor stays where it is. An empty
    /// `buf` is refused, and nothing changes.
    pub fn write(&mut self, buf: &[u8]) -> (res: Result<usize, OverlayError>)
        requires
            old(self).cursor() + buf@.len() <= u64::MAX,
        ensures
            final(self).base() == old(self).base(),
            final(self).cursor() == old(self).cursor(),
            match res {
                Ok(n) => n == buf@.len() && n > 0 && final(self).layers() == place(
                    old(self).layers(),
                    PatchView { offset: old(self).cursor() as nat, bytes: buf@ },
                ),
                Err(e) => e == OverlayError::EmptyPatch && buf@.len() == 0
                    && final(self).layers() == old(self).layers(),
            },
            res is Ok ==> final(self).spec_len() == (if old(self).cursor() + buf@.len() > old(
                self,
            ).spec_len() {
                old(self).cursor() + buf@.len()
            } else {
                old(self).spec_len()
            }),
            res is Ok ==> final(self)@ == written(
                old(self).base(),
                old(self).layers(),
                PatchView { offset: old(self).cursor() as nat, bytes: buf@ },
            ),
            res is Ok && old(self).unmasked(old(self).cursor(), buf@) ==> final(self)@ == splice(
                old(self)@,
                old(self).cursor(),
                buf@,
            ),
    {
        proof {
            use_type_invariant(&*self);
        }
        let patch = match Patch::new(self.pos, buf) {
            Ok(patch) => patch,
            Err(e) => {
                return Err(e);
            },
        };
        let ghost layers = self.layers();
        proof {
            use_type_invariant(&patch);
            lemma_place(self.base(), layers, patch@);
            theorem_write_changes_data(self.base(), layers, patch@);
            if self.unmasked(self.cursor(), buf@) {
                theorem_unmasked_write_splices(self.base(), layers, patch@);
            }
        }
        // find the first layer where this patch does not overlap with any other patch
        let mut l: usize = 0;
        while l < self.patch_layers.len()
            invariant
                l <= self.patch_layers@.len(),
                layers == self.layers(),
                forall|m: int| 0 <= m < l ==> !admits(#[trigger] layers[m], patch@),
            ensures
                l == self.patch_layers@.len() || admits(layers[l as int], patch@),
            decreases self.patch_layers.len() - l,
        {
            if self.patch_layers[l].may_contain(&patch) {
                break ;
            }
            l += 1;
        }
        // take the overlay apart, so that its layers can change on their own
        let mut taken = MemOverlay { base: Vec::new(), pos: 0, patch_layers: Vec::new() };
        std::mem::swap(self, &mut taken);
        let MemOverlay { base, pos, mut patch_layers } = taken;
        if l < patch_layers.len() {
            proof {
                assert(is_first_admitting(layers, patch@, l as int));
                lemma_landing(layers, patch@, l as int);
                lemma_admitted_is_new(layers[l as int], patch@);
            }
            patch_layers[l].insert(patch);
        } else {
            proof {
                lemma_landing_in_front(layers, patch@);
            }
            // insert at position 0 to make sure that a read always finds
            // the most recent patches first
            patch_layers.insert(0, PatchLayer::new_with(patch));
        }
        assert(Seq::new(patch_layers@.len(), |m: int| patch_layers@[m]@) =~= place(layers, patch@));
        *self = MemOverlay { base, pos, patch_layers };
        Ok(buf.len())
    }

    /// Does nothing: a write is in place when it returns.
    pub fn flush(&mut self) -> (res: Result<(), OverlayError>)
        ensures
            res is Ok,
            *final(self) == *old(self),
    {
        Ok(())
    }

    /// Writes `bytes` as a patch at `offset` and returns the number of bytes
    /// taken. The cursor stays where it is. The write is refused where
    /// `offset` lies beyond the last valid position, and where `bytes` is
    /// empty. Then nothing changes.
    pub fn add_bytes_at(&mut self, offset: u64, bytes: &[u8]) -> (res: Result<usize, OverlayError>)
        requires
            offset + bytes@.len() <= u64::MAX,
        ensures
            final(self).base() == old(self).base(),
            final(self).cursor() == old(self).cursor(),
            match res {
                Ok(n) => offset <= old(self).spec_last_valid_position() && n == bytes@.len() && n
                    > 0 && final(self).layers() == place(
                    old(self).layers(),
                    PatchView { offset: offset as nat, bytes: bytes@ },
                ),
                Err(e) => final(self).layers() == old(self).layers() && (if offset > old(
                    self,
                ).spec_last_valid_position() {
                    e == OverlayError::SeekOutOfRange
                } else {
                    e == OverlayError::EmptyPatch && bytes@.len() == 0
                }),
            },
            res is Ok ==> final(self).spec_len() == (if offset + bytes@.len() > old(
                self,
            ).spec_len() {
                offset + bytes@.len()
            } else {
                old(self).spec_len()
            }),
            res is Ok ==> final(self)@ == written(
                old(self).base(),
                old(self).layers(),
                PatchView { offset: offset as nat, bytes: bytes@ },
            ),
            res is Ok && old(self).unmasked(offset as int, bytes@) ==> final(self)@ == splice(
                old(self)@,
                offset as int,
                bytes@,
            ),
    {
        proof {
            use_type_invariant(&*self);
        }
        let current_position = self.pos;
        match self.seek(SeekFrom::Start(offset)) {
            Ok(_) => {},
            Err(e) => {
                return Err(e);
            },
        }
        let res = self.write(bytes);
        proof {
            use_type_invariant(&*self);
            if res is Ok {
                lemma_place(
                    old(self).base(),
                    old(self).layers(),
                    PatchView { offset: offset as nat, bytes: bytes@ },
                );
            }
        }
        self.pos = current_position;
        res
    }
}

} // verus!

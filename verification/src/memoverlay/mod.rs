use vstd::prelude::*;
use vstd::std_specs::convert::FromSpecImpl;

pub mod display;
pub mod model;
pub mod read;
pub mod seek;
pub mod theorems;
pub mod write;

use crate::error::OverlayError;
use crate::patch::{copy_from, Patch, PatchView};
use crate::patch_layer::lemmas::lemma_search;
use crate::patch_layer::{covering, PatchLayer};
use crate::patch_search_result::PatchSearchResult;
use model::{
    chunk_len, composite, front_patch, holds, is_front_cover, lemma_chunk, lemma_front_patch,
    lemma_front_patch_covered, lemma_next_start, lemma_overlay_end, next_start, overlay_end,
    stack_wf, total_len,
};

verus! {

/// Puts a writable layer of bytes over a buffer of bytes.
///
/// ```txt
/// +-----------------+------------+-----------------+-------+----------------------+-------+-----------------+
/// |    chunk 0      |  chunk 1   |    chunk 2      |   3   |       chunk 4        |   5   |     chunk 6     |
/// +-----------------+------------+-----------------+-------+----------------------+-------+-----------------+
///
///                                +-----------------+       +----------------------+
///                                +-----------------+       +----------------------+
///                   +-------------------+                           +---------------------+
///                   +-------------------+                           +---------------------+
/// +---------------------------------------------------------------------------------------------------------+
/// +---------------------------------------------------------------------------------------------------------+
/// ```
pub struct MemOverlay {
    base: Vec<u8>,
    pos: u64,
    patch_layers: Vec<PatchLayer>,
}

impl View for MemOverlay {
    type V = Seq<u8>;

    /// The data that a read from the start yields: the base with every patch
    /// laid over it.
    open spec fn view(&self) -> Seq<u8> {
        composite(self.base(), self.layers())
    }
}

impl Clone for MemOverlay {
    fn clone(&self) -> (res: Self)
        ensures
            res.base() == self.base(),
            res.layers() == self.layers(),
            res.cursor() == self.cursor(),
    {
        proof {
            use_type_invariant(self);
        }
        let base = self.base.clone();
        let patch_layers = self.patch_layers.clone();
        assert(Seq::new(patch_layers@.len(), |l: int| patch_layers@[l]@) =~= self.layers());
        Self { base, pos: self.pos, patch_layers }
    }
}

impl From<Vec<u8>> for MemOverlay {
    /// Lays an overlay over `base`, with the cursor at its start.
    fn from(base: Vec<u8>) -> (res: Self)
        ensures
            res.base() == base@,
            res.layers().len() == 0,
            res.cursor() == 0,
            res@ == base@,
    {
        let len = base.len();
        assert(len <= u64::MAX);
        let res = Self { base, pos: 0, patch_layers: Vec::new() };
        proof {
            assert(res.layers() =~= Seq::empty());
            theorems::theorem_unpatched_data_is_base(res.base());
        }
        res
    }
}

impl FromSpecImpl<Vec<u8>> for MemOverlay {
    open spec fn obeys_from_spec() -> bool {
        false
    }

    open spec fn from_spec(base: Vec<u8>) -> Self {
        arbitrary()
    }
}

impl MemOverlay {
    /// The bytes of the base, which no write changes.
    pub closed spec fn base(&self) -> Seq<u8> {
        self.base@
    }

    /// The layers of patches, the one made last at the front.
    pub closed spec fn layers(&self) -> Seq<Seq<PatchView>> {
        Seq::new(self.patch_layers@.len(), |l: int| self.patch_layers@[l]@)
    }

    /// The position of the cursor.
    pub closed spec fn cursor(&self) -> int {
        self.pos as int
    }

    /// The length of the data.
    pub open spec fn spec_len(&self) -> int {
        total_len(self.base(), self.layers())
    }

    /// The last position that holds a byte of a patch.
    pub open spec fn spec_last_overlay_position(&self) -> Option<u64> {
        if self.layers().len() == 0 {
            None
        } else {
            Some((overlay_end(self.layers()) - 1) as u64)
        }
    }

    /// The last position that holds a byte of the base, 0 for an empty base.
    pub open spec fn spec_last_base_position(&self) -> u64 {
        if self.base().len() == 0 {
            0
        } else {
            (self.base().len() - 1) as u64
        }
    }

    /// The last position that holds a byte, 0 where there is no data.
    pub open spec fn spec_last_valid_position(&self) -> u64 {
        if self.spec_len() == 0 {
            0
        } else {
            (self.spec_len() - 1) as u64
        }
    }

    /// Whether `other` has the base and the layers of this overlay.
    pub open spec fn same_data(&self, other: &Self) -> bool {
        self.base() == other.base() && self.layers() == other.layers()
    }

    /// What holds of every overlay: its layers are in order, its data has no
    /// hole, and its cursor lies within the data or at its end.
    #[verifier::type_invariant]
    pub open spec fn wf(&self) -> bool {
        stack_wf(self.base(), self.layers()) && 0 <= self.cursor() <= self.spec_len()
    }

    /// Lays an overlay over `base`, with the cursor at `pos`. The cursor must
    /// lie within the base or at its end.
    pub fn new(base: Vec<u8>, pos: u64) -> (res: Result<Self, OverlayError>)
        ensures
            match res {
                Ok(overlay) => pos <= base@.len() && overlay.base() == base@
                    && overlay.layers().len() == 0 && overlay.cursor() == pos && overlay@
                    == base@,
                Err(e) => pos > base@.len() && e == OverlayError::SeekOutOfRange,
            },
    {
        if pos > base.len() as u64 {
            return Err(OverlayError::SeekOutOfRange);
        }
        let res = Self { base, pos, patch_layers: Vec::new() };
        proof {
            assert(res.layers() =~= Seq::empty());
            theorems::theorem_unpatched_data_is_base(res.base());
        }
        Ok(res)
    }

    /// Returns the position of the cursor.
    pub fn stream_position(&self) -> (res: u64)
        ensures
            res == self.cursor(),
    {
        self.pos
    }

    /// Returns the greatest offset of a last byte among all patches, or `None`
    /// where there is no patch.
    pub fn last_overlay_position(&self) -> (res: Option<u64>)
        ensures
            res == self.spec_last_overlay_position(),
            match res {
                Some(last) => {
                    &&& exists|p: PatchView| #[trigger]
                        holds(self.layers(), p) && p.end() - 1 == last
                    &&& forall|p: PatchView| #[trigger]
                        holds(self.layers(), p) ==> p.end() - 1 <= last
                },
                None => forall|p: PatchView| !#[trigger] holds(self.layers(), p),
            },
    {
        proof {
            use_type_invariant(self);
            lemma_overlay_end(self.layers());
        }
        let mut last: Option<u64> = None;
        let mut l: usize = 0;
        while l < self.patch_layers.len()
            invariant
                l <= self.patch_layers@.len(),
                self.wf(),
                last == (if l == 0 {
                    None
                } else {
                    Some((overlay_end(self.layers().take(l as int)) - 1) as u64)
                }),
            decreases self.patch_layers.len() - l,
        {
            let layer = &self.patch_layers[l];
            let patches = layer.iter_patches();
            proof {
                let done = self.layers().take(l as int);
                let more = self.layers().take(l + 1);
                assert(more.drop_last() =~= done);
                assert(more.last() == self.layers()[l as int]);
                assert(model::layer_ok(self.layers()[l as int]));
                assert forall|m: int| 0 <= m < more.len() implies model::layer_ok(
                    #[trigger] more[m],
                ) by {
                    assert(more[m] == self.layers()[m]);
                }
                lemma_overlay_end(more);
                lemma_overlay_end(done);
                assert(self.layers()[l as int].last().wf());
            }
            match patches.last() {
                Some(patch) => {
                    let end = patch.last_byte_offset();
                    last =
                    match last {
                        Some(so_far) => if so_far < end {
                            Some(end)
                        } else {
                            Some(so_far)
                        },
                        None => Some(end),
                    };
                },
                None => {},
            }
            l += 1;
        }
        assert(self.layers().take(l as int) =~= self.layers());
        last
    }

    /// Returns the offset of the last byte of the base, 0 for an empty base.
    pub fn last_base_position(&self) -> (res: u64)
        ensures
            res == self.spec_last_base_position(),
    {
        if self.base.len() == 0 {
            0
        } else {
            (self.base.len() - 1) as u64
        }
    }

    /// Returns the last position that a seek can reach: the greater of the
    /// last position of the base and the last position of a patch.
    pub fn last_valid_position(&self) -> (res: u64)
        ensures
            res == self.spec_last_valid_position(),
            res == (match self.spec_last_overlay_position() {
                Some(last) if last > self.spec_last_base_position() => last,
                _ => self.spec_last_base_position(),
            }),
    {
        proof {
            use_type_invariant(self);
            lemma_overlay_end(self.layers());
        }
        let overlay = match self.last_overlay_position() {
            Some(last) => last,
            None => 0,
        };
        let base = self.last_base_position();
        if overlay > base {
            overlay
        } else {
            base
        }
    }

    /// Advances the cursor by `bytes`. The new position must lie within the
    /// data, unless the position counter cannot hold it: that is an error,
    /// and the cursor stays where it was.
    fn shift_position(&mut self, bytes: usize) -> (res: Result<(), OverlayError>)
        requires
            old(self).cursor() + bytes <= old(self).spec_len() || old(self).cursor() + bytes
                > u64::MAX,
        ensures
            final(self).same_data(old(self)),
            match res {
                Ok(_) => final(self).cursor() == old(self).cursor() + bytes,
                Err(e) => e == OverlayError::CounterOverflow && old(self).cursor() + bytes
                    > u64::MAX && final(self).cursor() == old(self).cursor(),
            },
    {
        proof {
            use_type_invariant(&*self);
        }
        match self.pos.checked_add(bytes as u64) {
            Some(pos) => {
                self.pos = pos;
                Ok(())
            },
            None => Err(OverlayError::CounterOverflow),
        }
    }

    /// How far a chunk that is read at `cursor` from a source that ends at
    /// `source_end` may reach into a buffer of `capacity` bytes, with the
    /// next patch beginning at `next`.
    pub open spec fn bounded_len(
        cursor: int,
        source_end: int,
        next: Option<int>,
        capacity: int,
    ) -> int {
        let end = match next {
            Some(begin) => if begin < source_end {
                begin
            } else {
                source_end
            },
            None => source_end,
        };
        if end <= cursor {
            0
        } else if capacity < end - cursor {
            capacity
        } else {
            end - cursor
        }
    }

    /// Reads from `current_patch`, which covers the cursor, into `buf`: from
    /// the cursor on, up to the end of the patch, of `buf`, or the begin of
    /// `next_patch`, whichever comes first. Returns the number of bytes read.
    /// The cursor stays where it is.
    fn read_from_patch(
        &self,
        current_patch: &Patch,
        next_patch: Option<&Patch>,
        buf: &mut [u8],
    ) -> (res: Result<usize, OverlayError>)
        requires
            current_patch@.contains(self.cursor()),
            next_patch matches Some(next) ==> next@.begin() > self.cursor(),
        ensures
            final(buf)@.len() == old(buf)@.len(),
            res matches Ok(n) && n == Self::bounded_len(
                self.cursor(),
                current_patch@.end(),
                match next_patch {
                    Some(next) => Some(next@.begin()),
                    None => None,
                },
                old(buf)@.len() as int,
            ) && final(buf)@.subrange(0, n as int) == current_patch@.bytes.subrange(
                self.cursor() - current_patch@.begin(),
                self.cursor() - current_patch@.begin() + n,
            ) && final(buf)@.subrange(n as int, old(buf)@.len() as int) == old(buf)@.subrange(
                n as int,
                old(buf)@.len() as int,
            ),
    {
        proof {
            use_type_invariant(current_patch);
        }
        let offset = self.pos - current_patch.begin();
        let ghost begin = self.cursor() - current_patch@.begin();
        let res = match next_patch {
            Some(next_patch) => {
                let distance = next_patch.begin() - self.pos;
                if distance < buf.len() as u64 {
                    let (head, tail) = buf.split_at_mut(distance as usize);
                    let res = current_patch.read(offset, head);
                    assert(buf@ =~= head@ + tail@);
                    assert(tail@ =~= old(buf)@.subrange(distance as int, old(buf)@.len() as int));
                    res
                } else {
                    current_patch.read(offset, buf)
                }
            },
            None => current_patch.read(offset, buf),
        };
        proof {
            let n = res.unwrap() as int;
            assert(buf@.subrange(0, n) =~= current_patch@.bytes.subrange(begin, begin + n));
            assert(buf@.subrange(n, old(buf)@.len() as int) =~= old(buf)@.subrange(
                n,
                old(buf)@.len() as int,
            ));
        }
        res
    }

    /// Reads from the base into `buf`: from the cursor on, up to the end of
    /// the base, of `buf`, or the begin of `next_patch`, whichever comes
    /// first. Returns the number of bytes read, which is 0 where the cursor
    /// lies at or beyond the end of the base. The cursor stays where it is.
    fn read_from_base(&self, next_patch: Option<&Patch>, buf: &mut [u8]) -> (res: Result<
        usize,
        OverlayError,
    >)
        requires
            next_patch matches Some(next) ==> next@.begin() > self.cursor(),
        ensures
            final(buf)@.len() == old(buf)@.len(),
            res matches Ok(n) && n == Self::bounded_len(
                self.cursor(),
                self.base().len() as int,
                match next_patch {
                    Some(next) => Some(next@.begin()),
                    None => None,
                },
                old(buf)@.len() as int,
            ) && (n > 0 ==> final(buf)@.subrange(0, n as int) == self.base().subrange(
                self.cursor(),
                self.cursor() + n,
            )) && final(buf)@.subrange(n as int, old(buf)@.len() as int) == old(buf)@.subrange(
                n as int,
                old(buf)@.len() as int,
            ),
    {
        let res = match next_patch {
            Some(next_patch) => {
                let distance = next_patch.begin() - self.pos;
                if distance < buf.len() as u64 {
                    let (head, tail) = buf.split_at_mut(distance as usize);
                    let res = copy_from(&self.base, self.pos, head);
                    assert(buf@ =~= head@ + tail@);
                    assert(tail@ =~= old(buf)@.subrange(distance as int, old(buf)@.len() as int));
                    res
                } else {
                    copy_from(&self.base, self.pos, buf)
                }
            },
            None => copy_from(&self.base, self.pos, buf),
        };
        proof {
            let n = res as int;
            if n > 0 {
                assert(buf@.subrange(0, n) =~= self.base().subrange(
                    self.cursor(),
                    self.cursor() + n,
                ));
            }
            assert(buf@.subrange(n, old(buf)@.len() as int) =~= old(buf)@.subrange(
                n,
                old(buf)@.len() as int,
            ));
        }
        Ok(res)
    }

    /// Of two candidates for the next patch, keeps the one that begins first,
    /// and the one found first where both begin at one offset.
    fn nearer<'a>(found: Option<&'a Patch>, candidate: &'a Patch) -> (res: Option<&'a Patch>)
        ensures
            res matches Some(patch) && patch@.begin() == (match found {
                Some(so_far) if so_far@.begin() <= candidate@.begin() => so_far@.begin(),
                _ => candidate@.begin(),
            }),
    {
        match found {
            Some(so_far) => {
                if candidate.begin() < so_far.begin() {
                    Some(candidate)
                } else {
                    Some(so_far)
                }
            },
            None => Some(candidate),
        }
    }

    /// Reads the next chunk of data into `buf` and moves the cursor behind
    /// it. A chunk is a run of bytes of one source: of the patch that covers
    /// the cursor in the front-most layer that covers it, or of the base
    /// where no layer does. It ends where its source ends, where a patch of
    /// any layer begins, or where `buf` ends. Returns the number of bytes
    /// read, which is 0 where `buf` is empty or no data is left.
    fn read_next_chunk(&mut self, buf: &mut [u8]) -> (res: Result<usize, OverlayError>)
        ensures
            final(self).same_data(old(self)),
            final(buf)@.len() == old(buf)@.len(),
            res matches Ok(n) && n == chunk_len(
                old(self).base(),
                old(self).layers(),
                old(self).cursor(),
                old(buf)@.len() as int,
            ) && final(self).cursor() == old(self).cursor() + n
                && final(buf)@.subrange(0, n as int) == old(self)@.subrange(
                old(self).cursor(),
                old(self).cursor() + n,
            ) && final(buf)@.subrange(n as int, old(buf)@.len() as int) == old(buf)@.subrange(
                n as int,
                old(buf)@.len() as int,
            ),
    {
        proof {
            use_type_invariant(&*self);
        }
        let ghost base = self.base();
        let ghost layers = self.layers();
        let ghost cursor = self.cursor();
        let mut current: Option<&Patch> = None;
        let mut next: Option<&Patch> = None;
        let mut l: usize = 0;
        while l < self.patch_layers.len()
            invariant
                l <= self.patch_layers@.len(),
                self.wf(),
                layers == self.layers(),
                cursor == self.cursor(),
                match current {
                    Some(patch) => exists|m: int|
                        0 <= m < l && is_front_cover(layers, cursor, m) && covering(
                            #[trigger] layers[m],
                            cursor,
                        ) == Some(patch@),
                    None => forall|m: int|
                        0 <= m < l ==> (#[trigger] covering(layers[m], cursor)).is_none(),
                },
                next_start(layers.take(l as int), cursor) == (match next {
                    Some(patch) => Some(patch@.begin()),
                    None => None,
                }),
            decreases self.patch_layers.len() - l,
        {
            proof {
                assert(model::layer_ok(layers[l as int]));
                lemma_search(layers[l as int], cursor);
                assert(layers.take(l + 1).drop_last() =~= layers.take(l as int));
                assert(layers.take(l + 1).last() == layers[l as int]);
            }
            match self.patch_layers[l].next_patch_for(self.pos) {
                PatchSearchResult::PatchFollows { next_patch } => {
                    next = Self::nearer(next, next_patch);
                },
                PatchSearchResult::CurrentPatchIsTheLastOne { current_patch } => {
                    // we are inside a patch, so we must read from it
                    if current.is_none() {
                        assert(is_front_cover(layers, cursor, l as int));
                        current = Some(current_patch);
                    }
                },
                PatchSearchResult::CurrentPatchIsFollowedBy { current_patch, next_patch } => {
                    // we are inside a patch, so we must read from it
                    if current.is_none() {
                        assert(is_front_cover(layers, cursor, l as int));
                        current = Some(current_patch);
                    }
                    // but we must also take a look at where the next patch is
                    next = Self::nearer(next, next_patch);
                },
                PatchSearchResult::NoMorePatches => {},
            }
            l += 1;
        }
        proof {
            assert(layers.take(l as int) =~= layers);
            lemma_chunk(base, layers, cursor);
            lemma_next_start(layers, cursor);
            match current {
                Some(patch) => {
                    let m = choose|m: int|
                        0 <= m < l && is_front_cover(layers, cursor, m) && covering(
                            #[trigger] layers[m],
                            cursor,
                        ) == Some(patch@);
                    lemma_front_patch(layers, cursor, m);
                },
                None => {
                    lemma_front_patch_covered(layers, cursor);
                    if model::covered(layers, cursor) {
                        let m = choose|m: int|
                            0 <= m < layers.len() && (#[trigger] covering(
                                layers[m],
                                cursor,
                            )).is_some();
                        assert(covering(layers[m], cursor).is_none());
                    }
                },
            }
        }
        let bytes = match current {
            Some(current_patch) => {
                match self.read_from_patch(current_patch, next, buf) {
                    Ok(bytes) => bytes,
                    Err(e) => {
                        return Err(e);
                    },
                }
            },
            None => {
                match self.read_from_base(next, buf) {
                    Ok(bytes) => bytes,
                    Err(e) => {
                        return Err(e);
                    },
                }
            },
        };
        proof {
            let data = composite(base, layers);
            assert(buf@.subrange(0, bytes as int) =~= data.subrange(cursor, cursor + bytes)) by {
                assert forall|i: int| 0 <= i < bytes implies buf@.subrange(0, bytes as int)[i]
                    == data.subrange(cursor, cursor + bytes)[i] by {
                    assert(front_patch(layers, cursor + i) == front_patch(layers, cursor));
                    match current {
                        Some(patch) => {
                            let begin = cursor - patch@.begin();
                            assert(buf@.subrange(0, bytes as int)[i] == patch@.bytes.subrange(
                                begin,
                                begin + bytes,
                            )[i]);
                        },
                        None => {
                            assert(buf@.subrange(0, bytes as int)[i] == base.subrange(
                                cursor,
                                cursor + bytes,
                            )[i]);
                        },
                    }
                }
            }
        }
        match self.shift_position(bytes) {
            Ok(_) => Ok(bytes),
            Err(e) => Err(e),
        }
    }
}

} // verus!

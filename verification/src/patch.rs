use std::cmp::Ordering;
use vstd::prelude::*;
use vstd::std_specs::cmp::{PartialEqSpecImpl, PartialOrdSpecImpl};

use crate::error::OverlayError;
use crate::traits::{Contains, SolidPatch};

verus! {

/// What a patch is, mathematically: a run of bytes placed at an offset.
pub struct PatchView {
    pub offset: nat,
    pub bytes: Seq<u8>,
}

impl PatchView {
    /// A patch is never empty, and its span ends within the range of `u64`.
    pub open spec fn wf(self) -> bool {
        self.bytes.len() > 0 && self.offset + self.bytes.len() <= u64::MAX
    }

    /// The offset of the first byte.
    pub open spec fn begin(self) -> int {
        self.offset as int
    }

    /// The offset of the first byte after the patch.
    pub open spec fn end(self) -> int {
        (self.offset + self.bytes.len()) as int
    }

    /// Whether `offset` lies in `[begin, end)`.
    pub open spec fn contains(self, offset: int) -> bool {
        self.begin() <= offset < self.end()
    }

    /// The byte that the patch puts at the absolute position `offset`.
    pub open spec fn byte_at(self, offset: int) -> u8
        recommends
            self.contains(offset),
    {
        self.bytes[offset - self.begin()]
    }

    /// Two patches overlap when the first byte of either lies within the other.
    pub open spec fn overlaps(self, other: PatchView) -> bool {
        other.contains(self.begin()) || self.contains(other.begin())
    }

    /// The identity of a patch: its offset and its length, the content aside.
    pub open spec fn key(self) -> (nat, nat) {
        (self.offset, self.bytes.len())
    }

    /// The order of keys: by offset, then by length.
    pub open spec fn key_lt(self, other: PatchView) -> bool {
        self.offset < other.offset || (self.offset == other.offset && self.bytes.len()
            < other.bytes.len())
    }

    /// The key packed into one number, the offset in the upper 64 bits.
    pub open spec fn id(self) -> nat {
        self.offset * 0x1_0000_0000_0000_0000 + self.bytes.len()
    }
}

/// A run of bytes to be laid over a base at a fixed offset. It is never empty.
pub struct Patch {
    offset: u64,
    content: Vec<u8>,
}

impl View for Patch {
    type V = PatchView;

    closed spec fn view(&self) -> PatchView {
        PatchView { offset: self.offset as nat, bytes: self.content@ }
    }
}

impl Patch {
    /// What holds of every patch: it is not empty, and it ends within the
    /// range of `u64`.
    #[verifier::type_invariant]
    pub open spec fn wf(&self) -> bool {
        self@.wf()
    }

    /// Returns the key of this patch as one number. Two patches have the same
    /// id if and only if they have the same offset and the same length, and of
    /// two patches at one offset the longer has the greater id.
    pub fn id(&self) -> (res: u128)
        ensures
            res == self@.id(),
    {
        let begin: u64 = self.offset;
        let offset: u128 = (begin as u128) << 64;
        let len: u128 = self.content.len() as u128;
        assert(offset == begin as u128 * 0x1_0000_0000_0000_0000) by (bit_vector)
            requires
                offset == (begin as u128) << 64,
        ;
        assert(offset | len == offset + len) by (bit_vector)
            requires
                offset == (begin as u128) << 64,
                len <= 0xffff_ffff_ffff_ffff,
        ;
        offset | len
    }

    /// Returns the offset of the first byte of this patch.
    pub fn begin(&self) -> (res: u64)
        ensures
            res == self@.begin(),
    {
        self.offset
    }

    /// Returns the offset of the first byte after this patch.
    pub fn end(&self) -> (res: u64)
        ensures
            res == self@.end(),
    {
        proof {
            use_type_invariant(self);
        }
        self.offset + self.content.len() as u64
    }

    /// Returns the offset of the first byte of this patch.
    pub fn first_byte_offset(&self) -> (res: u64)
        ensures
            res == self@.begin(),
    {
        self.offset
    }

    /// Returns the offset of the last byte of this patch.
    pub fn last_byte_offset(&self) -> (res: u64)
        ensures
            res == self@.end() - 1,
    {
        proof {
            use_type_invariant(self);
        }
        self.offset + (self.content.len() - 1) as u64
    }

    /// Checks whether two patches overlap each other.
    pub fn overlaps(&self, other: &Self) -> (res: bool)
        ensures
            res == self@.overlaps(other@),
    {
        other.contains(self.first_byte_offset()) || self.contains(other.first_byte_offset())
    }

    /// Copies bytes of this patch into `buf`, starting at the byte `offset` of
    /// the patch, until the patch or `buf` ends, and returns how many were
    /// copied. The rest of `buf` is left as it was.
    pub fn read(&self, offset: u64, buf: &mut [u8]) -> (res: Result<usize, OverlayError>)
        ensures
            res matches Ok(n) && n == copied_len(self@.bytes, offset, old(buf)@.len()),
            final(buf)@ == copied_into(self@.bytes, offset, old(buf)@),
    {
        Ok(copy_from(&self.content, offset, buf))
    }
}

/// How many bytes a read at the byte `offset` of `source` copies into a
/// buffer of `capacity` bytes.
pub open spec fn copied_len(source: Seq<u8>, offset: u64, capacity: nat) -> nat {
    if offset >= source.len() {
        0
    } else if capacity < source.len() - offset {
        capacity
    } else {
        (source.len() - offset) as nat
    }
}

/// The buffer `buf` after a read at the byte `offset` of `source`: the bytes
/// read, and behind them what `buf` held before.
pub open spec fn copied_into(source: Seq<u8>, offset: u64, buf: Seq<u8>) -> Seq<u8> {
    let n = copied_len(source, offset, buf.len());
    if n == 0 {
        buf
    } else {
        source.subrange(offset as int, offset + n) + buf.subrange(n as int, buf.len() as int)
    }
}

/// Copies bytes of `source` into `buf`, starting at the byte `offset` of
/// `source`, until `source` or `buf` ends, and returns how many were copied.
pub(crate) fn copy_from(source: &Vec<u8>, offset: u64, buf: &mut [u8]) -> (res: usize)
    ensures
        res == copied_len(source@, offset, old(buf)@.len()),
        final(buf)@ == copied_into(source@, offset, old(buf)@),
{
    let len = source.len();
    if offset >= len as u64 {
        return 0;
    }
    let start: usize = offset as usize;
    let count: usize = if buf.len() < len - start {
        buf.len()
    } else {
        len - start
    };
    let mut i: usize = 0;
    while i < count
        invariant
            i <= count,
            start + count <= len,
            len == source@.len(),
            count <= buf@.len(),
            buf@.len() == old(buf)@.len(),
            forall|j: int| 0 <= j < i ==> buf@[j] == source@[start + j],
            forall|j: int| i <= j < buf@.len() ==> buf@[j] == old(buf)@[j],
        decreases count - i,
    {
        buf[i] = source[start + i];
        i += 1;
    }
    assert(buf@ =~= copied_into(source@, offset, old(buf)@));
    count
}

impl Clone for Patch {
    fn clone(&self) -> (res: Self)
        ensures
            res@ == self@,
    {
        proof {
            use_type_invariant(self);
        }
        Self { offset: self.offset, content: self.content.clone() }
    }
}

/// Two patches are equal where their keys are: the content is not compared.
impl PartialEq for Patch {
    fn eq(&self, other: &Self) -> (res: bool) {
        self.offset == other.offset && self.content.len() == other.content.len()
    }
}

impl PartialEqSpecImpl for Patch {
    open spec fn obeys_eq_spec() -> bool {
        true
    }

    open spec fn eq_spec(&self, other: &Self) -> bool {
        self@.key() == other@.key()
    }
}

impl Eq for Patch {}

/// Patches are ordered by their keys: by offset, then by length.
impl PartialOrd for Patch {
    fn partial_cmp(&self, other: &Self) -> (res: Option<Ordering>) {
        if self.offset < other.offset {
            Some(Ordering::Less)
        } else if self.offset > other.offset {
            Some(Ordering::Greater)
        } else if self.content.len() < other.content.len() {
            Some(Ordering::Less)
        } else if self.content.len() > other.content.len() {
            Some(Ordering::Greater)
        } else {
            Some(Ordering::Equal)
        }
    }
}

impl PartialOrdSpecImpl for Patch {
    open spec fn obeys_partial_cmp_spec() -> bool {
        true
    }

    open spec fn partial_cmp_spec(&self, other: &Self) -> Option<Ordering> {
        if self@.key_lt(other@) {
            Some(Ordering::Less)
        } else if other@.key_lt(self@) {
            Some(Ordering::Greater)
        } else {
            Some(Ordering::Equal)
        }
    }
}

impl Contains for Patch {
    open spec fn spec_contains(&self, offset: u64) -> bool {
        self@.contains(offset as int)
    }

    fn contains(&self, offset: u64) -> (res: bool) {
        self.begin() <= offset && offset < self.end()
    }
}

impl<'a> SolidPatch<&'a [u8]> for Patch {
    open spec fn bytes_of(content: &'a [u8]) -> Seq<u8> {
        content@
    }

    open spec fn built_from(&self) -> (nat, Seq<u8>) {
        (self@.offset, self@.bytes)
    }

    fn new(offset: u64, content: &'a [u8]) -> (res: Result<Self, OverlayError>) {
        if content.len() == 0 {
            Err(OverlayError::EmptyPatch)
        } else {
            Ok(Self { offset, content: vstd::slice::slice_to_vec(content) })
        }
    }
}

impl SolidPatch<Vec<u8>> for Patch {
    open spec fn bytes_of(content: Vec<u8>) -> Seq<u8> {
        content@
    }

    open spec fn built_from(&self) -> (nat, Seq<u8>) {
        (self@.offset, self@.bytes)
    }

    fn new(offset: u64, content: Vec<u8>) -> (res: Result<Self, OverlayError>) {
        if content.len() == 0 {
            Err(OverlayError::EmptyPatch)
        } else {
            Ok(Self { offset, content })
        }
    }
}

} // verus!

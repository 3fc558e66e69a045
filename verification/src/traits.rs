use vstd::prelude::*;

use crate::error::OverlayError;

verus! {

/// Construction of a patch from an offset and some container of bytes.
pub trait SolidPatch<T>: Sized {
    /// The bytes that `content` holds.
    spec fn bytes_of(content: T) -> Seq<u8>;

    /// The offset and the bytes that a patch holds.
    spec fn built_from(&self) -> (nat, Seq<u8>);

    /// Builds a patch of `content` at `offset`. An empty `content` is the only
    /// reason to fail. The span must end within the range of `u64`.
    fn new(offset: u64, content: T) -> (res: Result<Self, OverlayError>)
        requires
            offset + Self::bytes_of(content).len() <= u64::MAX,
        ensures
            match res {
                Ok(patch) => Self::bytes_of(content).len() > 0 && patch.built_from() == (
                    offset as nat,
                    Self::bytes_of(content),
                ),
                Err(e) => Self::bytes_of(content).len() == 0 && e == OverlayError::EmptyPatch,
            },
    ;
}

/// Membership of an offset in a span of bytes.
pub trait Contains {
    /// Whether `offset` lies within the span.
    spec fn spec_contains(&self, offset: u64) -> bool;

    fn contains(&self, offset: u64) -> (res: bool)
        ensures
            res == self.spec_contains(offset),
    ;
}

} // verus!

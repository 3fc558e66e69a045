use vstd::prelude::*;

verus! {

/// The ways in which an operation on the overlay can fail.
#[derive(Clone, Copy, Debug, PartialEq, Eq, Structural)]
pub enum OverlayError {
    /// A patch of zero bytes was asked for.
    EmptyPatch,
    /// A seek target lies beyond the last valid position, or could not be
    /// computed without leaving the range of the position counter.
    SeekOutOfRange,
    /// Advancing the cursor would leave the range of the position counter.
    CounterOverflow,
}

} // verus!

use vstd::prelude::*;

use super::MemOverlay;
use crate::error::OverlayError;

verus! {

/// Where a seek starts to count from.
#[derive(Clone, Copy, Debug)]
pub enum SeekFrom {
    /// From the start of the data.
    Start(u64),
    /// From the last valid position.
    End(i64),
    /// From the cursor.
    Current(i64),
}

/// The sum of a position and a signed distance, where it is a position: not
/// negative, and within the range of `u64`.
pub open spec fn spec_checked_add(a: u64, b: i64) -> Option<u64> {
    if 0 <= a + b <= u64::MAX {
        Some((a + b) as u64)
    } else {
        None
    }
}

/// Adds a signed distance to a position. The sum is never wrapped: where it
/// is negative or beyond the range of `u64`, the seek is out of range.
pub fn checked_add(a: u64, b: i64) -> (res: Result<u64, OverlayError>)
    ensures
        match res {
            Ok(sum) => sum == a + b,
            Err(e) => e == OverlayError::SeekOutOfRange && !(0 <= a + b <= u64::MAX),
        },
        res.ok() == spec_checked_add(a, b),
{
    match a.checked_add_signed(b) {
        Some(sum) => Ok(sum),
        None => Err(OverlayError::SeekOutOfRange),
    }
}

impl MemOverlay {
    /// The position that a seek asks for, where it can be computed.
    pub open spec fn seek_target(&self, pos: SeekFrom) -> Option<u64> {
        match pos {
            SeekFrom::Start(target) => Some(target),
            SeekFrom::End(diff) => spec_checked_add(self.spec_last_valid_position(), diff),
            SeekFrom::Current(diff) => spec_checked_add(self.cursor() as u64, diff),
        }
    }

    /// Moves the cursor to `new_pos`, which must not lie beyond the last
    /// valid position. A seek that fails leaves the cursor where it was.
    pub(crate) fn set_new_position(&mut self, new_pos: u64) -> (res: Result<u64, OverlayError>)
        ensures
            final(self).same_data(old(self)),
            match res {
                Ok(pos) => pos == new_pos && new_pos <= old(self).spec_last_valid_position()
                    && final(self).cursor() == new_pos,
                Err(e) => e == OverlayError::SeekOutOfRange && new_pos > old(
                    self,
                ).spec_last_valid_position() && final(self).cursor() == old(self).cursor(),
            },
    {
        proof {
            use_type_invariant(&*self);
        }
        if new_pos > self.last_valid_position() {
            Err(OverlayError::SeekOutOfRange)
        } else {
            self.pos = new_pos;
            Ok(new_pos)
        }
    }

    /// Where a seek arrives: at the position that it asks for, where that can
    /// be computed and does not lie beyond the last valid position.
    pub open spec fn seek_result(&self, pos: SeekFrom) -> Option<u64> {
        match self.seek_target(pos) {
            Some(target) if target <= self.spec_last_valid_position() => Some(target),
            _ => None,
        }
    }

    /// Moves the cursor to the position that `pos` asks for and returns it.
    /// The seek fails where that position cannot be computed or lies beyond
    /// the last valid position, and then the cursor stays where it was.
    pub fn seek(&mut self, pos: SeekFrom) -> (res: Result<u64, OverlayError>)
        ensures
            final(self).same_data(old(self)),
            match res {
                Ok(target) => old(self).seek_result(pos) == Some(target) && final(self).cursor()
                    == target,
                Err(e) => e == OverlayError::SeekOutOfRange && old(self).seek_result(pos).is_none()
                    && final(self).cursor() == old(self).cursor(),
            },
    {
        match pos {
            SeekFrom::Start(diff) => self.set_new_position(diff),
            SeekFrom::End(diff) => {
                match checked_add(self.last_valid_position(), diff) {
                    Ok(target) => self.set_new_position(target),
                    Err(e) => Err(e),
                }
            },
            SeekFrom::Current(diff) => {
                match checked_add(self.pos, diff) {
                    Ok(target) => self.set_new_position(target),
                    Err(e) => Err(e),
                }
            },
        }
    }
}

} // verus!

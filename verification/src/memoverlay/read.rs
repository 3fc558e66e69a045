use vstd::prelude::*;

use super::model::lemma_chunk;
use super::MemOverlay;
use crate::error::OverlayError;

verus! {

impl MemOverlay {
    /// How many bytes lie between the cursor and the end of the data.
    pub open spec fn available(&self) -> int {
        self.spec_len() - self.cursor()
    }

    /// How many bytes a read into a buffer of `capacity` bytes yields: as
    /// many as the buffer takes, or as many as are left.
    pub open spec fn read_len(&self, capacity: int) -> int {
        if capacity < self.available() {
            capacity
        } else {
            self.available()
        }
    }

    /// Reads data into `buf`, from the cursor on, until `buf` is full or the
    /// data ends, and moves the cursor behind what was read. Returns the
    /// number of bytes read. What `buf` holds behind them stays as it was.
    pub fn read(&mut self, buf: &mut [u8]) -> (res: Result<usize, OverlayError>)
        ensures
            final(self).same_data(old(self)),
            final(buf)@.len() == old(buf)@.len(),
            res matches Ok(n) && n == old(self).read_len(old(buf)@.len() as int)
                && final(self).cursor() == old(self).cursor() + n
                && final(buf)@.subrange(0, n as int) == old(self)@.subrange(
                old(self).cursor(),
                old(self).cursor() + n,
            ) && final(buf)@.subrange(n as int, old(buf)@.len() as int) == old(buf)@.subrange(
                n as int,
                old(buf)@.len() as int,
            ),
    {
        proof {
            use_type_invariant(&*self);
        }
        let ghost data = self@;
        let ghost start = self.cursor();
        proof {
            super::model::lemma_overlay_end(self.layers());
        }
        let mut bytes_read: usize = 0;
        while bytes_read < buf.len()
            invariant
                self.wf(),
                self.same_data(old(self)),
                data == self@,
                data.len() == self.spec_len(),
                0 <= start,
                bytes_read <= buf@.len(),
                buf@.len() == old(buf)@.len(),
                self.cursor() == start + bytes_read,
                buf@.subrange(0, bytes_read as int) == data.subrange(start, start + bytes_read),
                buf@.subrange(bytes_read as int, buf@.len() as int) == old(buf)@.subrange(
                    bytes_read as int,
                    buf@.len() as int,
                ),
            ensures
                bytes_read == buf@.len() || self.cursor() == self.spec_len(),
            decreases buf.len() - bytes_read,
        {
            let ghost before = buf@;
            let (done, rest) = buf.split_at_mut(bytes_read);
            proof {
                lemma_chunk(self.base(), self.layers(), self.cursor());
            }
            let bytes = match self.read_next_chunk(rest) {
                Ok(bytes) => bytes,
                Err(e) => {
                    return Err(e);
                },
            };
            proof {
                use_type_invariant(&*self);
                assert(buf@ =~= done@ + rest@);
                assert(done@ =~= before.subrange(0, bytes_read as int));
                let tail = before.subrange(bytes_read as int, before.len() as int);
                assert(rest@.subrange(0, bytes as int) == data.subrange(
                    start + bytes_read,
                    start + bytes_read + bytes,
                ));
                assert(rest@.subrange(bytes as int, tail.len() as int) == tail.subrange(
                    bytes as int,
                    tail.len() as int,
                ));
                assert(buf@.subrange(0, bytes_read + bytes) =~= data.subrange(
                    start,
                    start + bytes_read + bytes,
                )) by {
                    assert forall|i: int| 0 <= i < bytes_read + bytes implies buf@[i] == data[start
                        + i] by {
                        if i < bytes_read {
                            assert(buf@[i] == before.subrange(0, bytes_read as int)[i]);
                            assert(before.subrange(0, bytes_read as int)[i] == data.subrange(
                                start,
                                start + bytes_read,
                            )[i]);
                        } else {
                            assert(buf@[i] == rest@.subrange(0, bytes as int)[i - bytes_read]);
                            assert(data[start + i] == data.subrange(
                                start + bytes_read,
                                start + bytes_read + bytes,
                            )[i - bytes_read]);
                        }
                    }
                }
                assert(buf@.subrange(bytes_read + bytes, buf@.len() as int) =~= old(buf)@.subrange(
                    bytes_read + bytes,
                    buf@.len() as int,
                )) by {
                    assert forall|i: int| bytes_read + bytes <= i < buf@.len() implies buf@[i]
                        == old(buf)@[i] by {
                        assert(buf@[i] == rest@.subrange(bytes as int, tail.len() as int)[i
                            - bytes_read - bytes]);
                        assert(tail[i - bytes_read] == old(buf)@.subrange(
                            bytes_read as int,
                            buf@.len() as int,
                        )[i - bytes_read]);
                    }
                }
            }
            if bytes == 0 {
                break ;
            }
            bytes_read += bytes;
        }
        Ok(bytes_read)
    }
}

} // verus!

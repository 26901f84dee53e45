//! Bounds-checked byte-level primitives over caller-supplied buffers.
//!
//! Reads address a shared slice through an explicit position; writes append
//! to a caller-owned vector. Every failure is reported as
//! [`Error::UnexpectedEnd`]; nothing here panics.

use vstd::prelude::*;

use crate::error::Error;

verus! {

/// Reads the byte at `pos`, or fails when the buffer is exhausted.
pub fn read_u8_at(buf: &[u8], pos: usize) -> (r: Result<u8, Error>)
    ensures
        pos < buf@.len() ==> r == Ok::<u8, Error>(buf@[pos as int]),
        pos >= buf@.len() ==> r == Err::<u8, Error>(Error::UnexpectedEnd),
{
    if pos < buf.len() {
        Ok(buf[pos])
    } else {
        Err(Error::UnexpectedEnd)
    }
}

/// Copies `n` bytes starting at `pos` out of the buffer, or fails when fewer
/// than `n` bytes remain.
pub fn read_exact_at(buf: &[u8], pos: usize, n: usize) -> (r: Result<Vec<u8>, Error>)
    requires
        pos <= buf@.len(),
    ensures
        n <= buf@.len() - pos ==> r is Ok && r->Ok_0@ == buf@.subrange(
            pos as int,
            pos + n,
        ),
        n > buf@.len() - pos ==> r == Err::<Vec<u8>, Error>(Error::UnexpectedEnd),
{
    if n <= buf.len() - pos {
        let taken = vstd::slice::slice_subrange(buf, pos, pos + n);
        Ok(vstd::slice::slice_to_vec(taken))
    } else {
        Err(Error::UnexpectedEnd)
    }
}

/// Appends a whole slice to the output buffer.
pub fn write_bytes(out: &mut Vec<u8>, b: &[u8])
    ensures
        final(out)@ == old(out)@ + b@,
{
    let ghost start = out@;
    let mut i: usize = 0;
    while i < b.len()
        invariant
            i <= b@.len(),
            out@ == start + b@.subrange(0, i as int),
        decreases b@.len() - i,
    {
        out.push(b[i]);
        i = i + 1;
        proof {
            assert(start + b@.subrange(0, i - 1).push(b@[i - 1]) == start + b@.subrange(
                0,
                i as int,
            )) by {
                assert(b@.subrange(0, i - 1).push(b@[i - 1]) =~= b@.subrange(0, i as int));
            }
        }
    }
    proof {
        assert(b@.subrange(0, b@.len() as int) =~= b@);
    }
}

} // verus!

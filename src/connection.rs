//! The read side of a connection: bytes arrive in a growable buffer, and
//! whole frames are detached from its front as soon as they are complete.
use vstd::prelude::*;
use bytes::BytesMut;
use crate::frame::{decode, parse_message, RespError, Value};

verus! {

#[verifier::external_type_specification]
#[verifier::external_body]
pub struct ExBytesMut(BytesMut);

/// The bytes that a buffer holds, first to last.
pub uninterp spec fn buffer_contents(b: BytesMut) -> Seq<u8>;

/// Relies on `BytesMut::with_capacity`: a new buffer holds no bytes.
#[verifier::external_body]
fn new_buffer() -> (r: BytesMut)
    ensures
        buffer_contents(r) == Seq::<u8>::empty(),
{
    BytesMut::with_capacity(512)
}

/// Relies on `BytesMut::extend_from_slice`: the bytes are appended at the
/// end; it panics only when the capacity would overflow.
#[verifier::external_body]
fn buffer_extend(b: &mut BytesMut, data: &[u8])
    requires
        buffer_contents(*old(b)).len() + data@.len() <= isize::MAX,
    ensures
        buffer_contents(*final(b)) == buffer_contents(*old(b)) + data@,
{
    b.extend_from_slice(data)
}

/// Relies on `Deref for BytesMut`: the slice is the buffer's bytes.
#[verifier::external_body]
fn buffer_slice(b: &BytesMut) -> (r: &[u8])
    ensures
        r@ == buffer_contents(*b),
{
    &b[..]
}

/// Relies on `BytesMut::len`: the number of bytes held.
#[verifier::external_body]
fn buffer_len(b: &BytesMut) -> (r: usize)
    ensures
        r == buffer_contents(*b).len(),
{
    b.len()
}

/// Relies on `BytesMut::split_to`: the first `n` bytes leave the buffer;
/// it panics only when `n` exceeds the length.
#[verifier::external_body]
fn buffer_drop_front(b: &mut BytesMut, n: usize)
    requires
        n <= buffer_contents(*old(b)).len(),
    ensures
        buffer_contents(*final(b)) == buffer_contents(*old(b)).subrange(
            n as int,
            buffer_contents(*old(b)).len() as int,
        ),
{
    let _ = b.split_to(n);
}

/// Accumulates the bytes read from a peer and hands out whole frames.
pub struct FrameReader {
    buffer: BytesMut,
}

impl FrameReader {
    /// The bytes received and not yet taken as frames.
    pub closed spec fn pending(&self) -> Seq<u8> {
        buffer_contents(self.buffer)
    }

    pub fn new() -> (r: Self)
        ensures
            r.pending() == Seq::<u8>::empty(),
    {
        FrameReader { buffer: new_buffer() }
    }

    /// How many bytes are waiting.
    pub fn pending_len(&self) -> (r: usize)
        ensures
            r == self.pending().len(),
    {
        buffer_len(&self.buffer)
    }

    /// Appends bytes read from the peer.
    pub fn push(&mut self, data: &[u8])
        requires
            old(self).pending().len() + data@.len() <= isize::MAX,
        ensures
            final(self).pending() == old(self).pending() + data@,
    {
        buffer_extend(&mut self.buffer, data)
    }

    /// Takes the frame at the front of the pending bytes: `Ok(None)` while
    /// it is incomplete, the decoding error when the bytes are malformed.
    /// Only a frame that is taken leaves the buffer.
    pub fn next_frame(&mut self) -> (r: Result<Option<Value>, RespError>)
        ensures
            match decode(old(self).pending()) {
                Ok((f, n)) => r matches Ok(Some(v)) && v.model() == f
                    && final(self).pending() == old(self).pending().subrange(
                    n as int,
                    old(self).pending().len() as int,
                ),
                Err(RespError::Incomplete) => r matches Ok(None) && final(self).pending() == old(
                    self,
                ).pending(),
                Err(e) => r == Err::<Option<Value>, RespError>(e) && final(self).pending() == old(
                    self,
                ).pending(),
            },
    {
        let parsed = parse_message(buffer_slice(&self.buffer));
        match parsed {
            Ok((v, n)) => {
                proof {
                    crate::frame::lemma_decode_consumed(self.pending());
                }
                buffer_drop_front(&mut self.buffer, n);
                Ok(Some(v))
            },
            Err(RespError::Incomplete) => Ok(None),
            Err(e) => Err(e),
        }
    }
}

} // verus!

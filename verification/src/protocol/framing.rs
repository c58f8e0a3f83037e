//! Length-prefixed framing: a 4-byte big-endian length, then the payload.
use crate::bytes::{append, append_be32, be32, from_be32, lemma_be32_round_trip, read_be32};
use crate::protocol::error::ProtocolError;
use vstd::prelude::*;
use vstd::slice::slice_subrange;

verus! {

/// The most bytes that a payload may have.
pub const MAX_FRAME_SIZE: usize = 16_777_216;

/// The frame of a payload.
pub open spec fn frame_of(payload: Seq<u8>) -> Seq<u8> {
    be32(payload.len() as u32) + payload
}

/// What the start of a buffer decodes to: a payload and the number of bytes
/// that its frame takes.
pub open spec fn decoded(buf: Seq<u8>) -> Result<(Seq<u8>, int), ProtocolError> {
    if buf.len() < 4 {
        Err(ProtocolError::Incomplete)
    } else if from_be32(buf) > MAX_FRAME_SIZE {
        Err(ProtocolError::FrameTooLarge(from_be32(buf) as usize))
    } else if buf.len() < 4 + from_be32(buf) {
        Err(ProtocolError::Incomplete)
    } else {
        Ok((buf.subrange(4, 4 + from_be32(buf)), 4 + from_be32(buf)))
    }
}

/// The frame of a serialised message.
pub fn encode(payload: &[u8]) -> (r: Result<Vec<u8>, ProtocolError>)
    ensures
        payload@.len() <= MAX_FRAME_SIZE ==> (r matches Ok(f) && f@ == frame_of(payload@)),
        payload@.len() > MAX_FRAME_SIZE ==> r == Err::<Vec<u8>, ProtocolError>(
            ProtocolError::FrameTooLarge(payload@.len() as usize),
        ),
{
    if payload.len() > MAX_FRAME_SIZE {
        return Err(ProtocolError::FrameTooLarge(payload.len()));
    }
    let len: u32 = payload.len() as u32;
    let mut frame: Vec<u8> = Vec::new();
    append_be32(&mut frame, len);
    append(&mut frame, payload);
    assert(frame@ =~= frame_of(payload@));
    Ok(frame)
}

/// The payload of the frame at the start of `buf`, and the number of bytes
/// that the frame takes.
pub fn decode(buf: &[u8]) -> (r: Result<(&[u8], usize), ProtocolError>)
    ensures
        match decoded(buf@) {
            Ok(out) => r matches Ok(x) && x.0@ == out.0 && x.1 == out.1,
            Err(e) => r matches Err(x) && x == e,
        },
{
    if buf.len() < 4 {
        return Err(ProtocolError::Incomplete);
    }
    let len: usize = read_be32(buf) as usize;
    if len > MAX_FRAME_SIZE {
        return Err(ProtocolError::FrameTooLarge(len));
    }
    let end: usize = 4 + len;
    if buf.len() < end {
        return Err(ProtocolError::Incomplete);
    }
    Ok((slice_subrange(buf, 4, end), end))
}

/// A frame at the start of a buffer decodes to the payload it was made from,
/// whatever follows it.
pub proof fn lemma_frame_round_trip(payload: Seq<u8>, rest: Seq<u8>)
    requires
        payload.len() <= MAX_FRAME_SIZE,
    ensures
        decoded(frame_of(payload) + rest) == Ok::<(Seq<u8>, int), ProtocolError>(
            (payload, frame_of(payload).len() as int),
        ),
{
    let buf = frame_of(payload) + rest;
    let n = payload.len() as u32;
    lemma_be32_round_trip(n);
    assert(buf[0] == be32(n)[0] && buf[1] == be32(n)[1] && buf[2] == be32(n)[2] && buf[3]
        == be32(n)[3]);
    assert(buf.subrange(4, 4 + n) =~= payload);
}

/// No proper prefix of a frame decodes.
pub proof fn lemma_truncated_frame(payload: Seq<u8>, keep: int)
    requires
        payload.len() <= MAX_FRAME_SIZE,
        0 <= keep < frame_of(payload).len(),
    ensures
        decoded(frame_of(payload).take(keep)) == Err::<(Seq<u8>, int), ProtocolError>(
            ProtocolError::Incomplete,
        ),
{
    let n = payload.len() as u32;
    lemma_be32_round_trip(n);
    let buf = frame_of(payload).take(keep);
    if keep >= 4 {
        assert(buf[0] == be32(n)[0] && buf[1] == be32(n)[1] && buf[2] == be32(n)[2] && buf[3]
            == be32(n)[3]);
    }
}

/// A frame is four bytes that say how long the payload is, the highest first, and
/// the payload.
pub proof fn lemma_frame_parts(payload: Seq<u8>)
    requires
        payload.len() <= MAX_FRAME_SIZE,
    ensures
        MAX_FRAME_SIZE == 16 * 1024 * 1024,
        frame_of(payload).len() == 4 + payload.len(),
        frame_of(payload).skip(4) == payload,
        frame_of(payload)[0] * 16777216 + frame_of(payload)[1] * 65536 + frame_of(payload)[2] * 256
            + frame_of(payload)[3] == payload.len(),
{
    let n = payload.len() as u32;
    lemma_be32_round_trip(n);
    let f = frame_of(payload);
    assert(f.skip(4) =~= payload);
    assert(f[0] == be32(n)[0] && f[1] == be32(n)[1] && f[2] == be32(n)[2] && f[3] == be32(n)[3]);
}

/// A buffer decodes only to what stands in it: the payload behind the length,
/// which is its length; a length above the limit is refused whatever follows, and
/// anything short of a whole frame is incomplete.
pub proof fn lemma_decoded(buf: Seq<u8>)
    requires
        buf.len() >= 4,
    ensures
        ({
            let n = buf[0] * 16777216 + buf[1] * 65536 + buf[2] * 256 + buf[3];
            match decoded(buf) {
                Ok((payload, used)) => n <= MAX_FRAME_SIZE && payload.len() == n && used == 4 + n
                    && used <= buf.len() && payload == buf.skip(4).take(n),
                Err(ProtocolError::FrameTooLarge(k)) => n > MAX_FRAME_SIZE && k == n as usize,
                Err(e) => n <= MAX_FRAME_SIZE && e is Incomplete && buf.len() < 4 + n,
            }
        }),
        decoded(buf.take(3)) is Err,
{
    let n = from_be32(buf);
    if n <= MAX_FRAME_SIZE && buf.len() >= 4 + n {
        assert(buf.subrange(4, 4 + n) =~= buf.skip(4).take(n));
    }
}

} // verus!

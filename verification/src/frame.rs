//! Frames: a four-byte big-endian length followed by that many bytes of body.

use vstd::prelude::*;
use vstd::slice::slice_subrange;
use crate::digits::{
    be_bytes, be_value, lemma_be_bytes_len, lemma_be_bytes_of_value, lemma_be_value_of_bytes,
    lemma_pow256_values, push_be, read_be,
};

verus! {

/// Why a frame was not accepted.
#[derive(Debug, Clone, Copy, PartialEq, Eq, Structural)]
pub enum ProtocolError {
    /// The bytes end before the length prefix or the announced body does.
    Truncated,
    /// More bytes follow than the length prefix announces.
    LengthMismatch,
    /// The body is not a message of the expected kind in the schema.
    Malformed,
}

/// Number of bytes of the length prefix.
pub const HEADER_LEN: usize = 4;

/// The longest body that a frame can carry.
pub const MAX_BODY_LEN: u64 = 0xFFFF_FFFF;

/// The frame that carries `body`.
pub open spec fn frame_of(body: Seq<u8>) -> Seq<u8> {
    be_bytes(body.len(), 4) + body
}

/// The whole length that the first four bytes of a frame announce:
/// prefix and body together.
pub open spec fn announced_len(bytes: Seq<u8>) -> nat {
    4 + be_value(bytes.take(4))
}

/// The body of the frame that `bytes` is, or why `bytes` is no frame.
pub open spec fn unframed(bytes: Seq<u8>) -> Result<Seq<u8>, ProtocolError> {
    if bytes.len() < 4 || bytes.len() < announced_len(bytes) {
        Err(ProtocolError::Truncated)
    } else if bytes.len() > announced_len(bytes) {
        Err(ProtocolError::LengthMismatch)
    } else {
        Ok(bytes.skip(4))
    }
}

/// The first frame among `bytes`: the length prefix and the body that it
/// announces, once all of that is there. What follows is no part of it.
pub open spec fn leading_frame(bytes: Seq<u8>) -> Option<Seq<u8>> {
    if bytes.len() >= 4 && bytes.len() >= announced_len(bytes) {
        Some(bytes.take(announced_len(bytes) as int))
    } else {
        None
    }
}

/// A frame is the first frame of itself with anything behind it.
pub proof fn lemma_leading_frame_of_frame(body: Seq<u8>, rest: Seq<u8>)
    requires
        body.len() <= MAX_BODY_LEN,
    ensures
        leading_frame(frame_of(body) + rest) == Some(frame_of(body)),
{
    let header = be_bytes(body.len(), 4);
    let bytes = frame_of(body) + rest;
    lemma_be_bytes_len(body.len(), 4);
    lemma_pow256_values();
    lemma_be_value_of_bytes(body.len(), 4);
    assert(bytes.take(4) == header);
    assert(bytes.take(4 + body.len() as int) == frame_of(body));
}

/// The first frame among bytes is a frame, and its body is within bounds.
pub proof fn lemma_leading_frame_is_frame(bytes: Seq<u8>)
    requires
        leading_frame(bytes) is Some,
    ensures
        unframed(leading_frame(bytes)->Some_0) == Ok::<Seq<u8>, ProtocolError>(
            bytes.subrange(4, announced_len(bytes) as int),
        ),
{
    let frame = leading_frame(bytes)->Some_0;
    assert(frame.take(4) == bytes.take(4));
    assert(frame.skip(4) == bytes.subrange(4, announced_len(bytes) as int));
}

/// Taking a frame apart gives back the body it was made of.
pub proof fn lemma_unframed_of_frame(body: Seq<u8>)
    requires
        body.len() <= MAX_BODY_LEN,
    ensures
        unframed(frame_of(body)) == Ok::<Seq<u8>, ProtocolError>(body),
{
    let header = be_bytes(body.len(), 4);
    let bytes = frame_of(body);
    lemma_be_bytes_len(body.len(), 4);
    lemma_pow256_values();
    lemma_be_value_of_bytes(body.len(), 4);
    assert(bytes.take(4) == header);
    assert(bytes.skip(4) == body);
}

/// Bytes that are a frame are the frame of their body.
pub proof fn lemma_frame_of_unframed(bytes: Seq<u8>)
    requires
        unframed(bytes) is Ok,
    ensures
        frame_of(unframed(bytes)->Ok_0) == bytes,
        unframed(bytes)->Ok_0.len() <= MAX_BODY_LEN,
{
    let header = bytes.take(4);
    lemma_be_bytes_of_value(header);
    lemma_pow256_values();
    assert(header + bytes.skip(4) == bytes);
}

/// Puts the length prefix in front of `body`.
fn prefixed(body: &[u8]) -> (bytes: Vec<u8>)
    requires
        body@.len() <= MAX_BODY_LEN,
    ensures
        bytes@ == frame_of(body@),
{
    let mut bytes: Vec<u8> = Vec::new();
    push_be(&mut bytes, body.len() as u128, 4);
    push_all(&mut bytes, body);
    bytes
}

/// Appends `tail` to `out`.
pub(crate) fn push_all(out: &mut Vec<u8>, tail: &[u8])
    ensures
        final(out)@ == old(out)@ + tail@,
{
    let mut i: usize = 0;
    while i < tail.len()
        invariant
            0 <= i <= tail@.len(),
            out@ == old(out)@ + tail@.take(i as int),
        decreases tail@.len() - i,
    {
        out.push(tail[i]);
        i += 1;
    }
    proof {
        assert(tail@.take(tail@.len() as int) == tail@);
    }
}

/// Frames `body`. A body too long for the length prefix cannot be framed.
pub fn frame(body: &[u8]) -> (r: Option<Vec<u8>>)
    ensures
        r is Some <==> body@.len() <= MAX_BODY_LEN,
        r matches Some(bytes) ==> bytes@ == frame_of(body@),
{
    if body.len() as u64 <= MAX_BODY_LEN {
        Some(prefixed(body))
    } else {
        None
    }
}

/// The length of the whole frame that begins with `bytes`, once its first
/// four bytes are there. A reader uses it to know how much more to wait for.
pub fn frame_len(bytes: &[u8]) -> (r: Option<u64>)
    ensures
        r is Some <==> bytes@.len() >= 4,
        r matches Some(n) ==> n == announced_len(bytes@),
{
    if bytes.len() < HEADER_LEN {
        None
    } else {
        let n = read_be(bytes, 0, 4);
        proof {
            assert(bytes@.subrange(0, 4) == bytes@.take(4));
            lemma_be_bytes_of_value(bytes@.take(4));
            lemma_pow256_values();
        }
        Some(4 + n as u64)
    }
}

/// Whether a reader that holds `bytes` and expects one frame of at most
/// `limit` bytes should wait for more: the length prefix is not all there
/// yet, or it announces a frame within the limit that is not all there yet.
pub fn awaits_more(bytes: &[u8], limit: u64) -> (r: bool)
    ensures
        r == (bytes@.len() < 4 || (announced_len(bytes@) <= limit && bytes@.len() < announced_len(
            bytes@,
        ))),
{
    match frame_len(bytes) {
        None => true,
        Some(n) => n <= limit && (bytes.len() as u64) < n,
    }
}

/// Cuts the first frame off `bytes`, where all of it is there, and leaves
/// what follows it unread.
pub fn first_frame(bytes: &[u8]) -> (r: Option<&[u8]>)
    ensures
        match leading_frame(bytes@) {
            Some(frame) => r matches Some(b) && b@ == frame,
            None => r is None,
        },
{
    match frame_len(bytes) {
        None => None,
        Some(n) => {
            if (bytes.len() as u64) < n {
                None
            } else {
                let frame = slice_subrange(bytes, 0, n as usize);
                proof {
                    assert(bytes@.subrange(0, n as int) == bytes@.take(n as int));
                }
                Some(frame)
            }
        },
    }
}

/// Takes a frame apart: checks the length prefix against what is there and
/// returns the body.
pub fn unframe(bytes: &[u8]) -> (r: Result<&[u8], ProtocolError>)
    ensures
        match unframed(bytes@) {
            Ok(body) => r matches Ok(b) && b@ == body,
            Err(e) => r == Err::<&[u8], ProtocolError>(e),
        },
{
    match frame_len(bytes) {
        None => Err(ProtocolError::Truncated),
        Some(n) => {
            if (bytes.len() as u64) < n {
                Err(ProtocolError::Truncated)
            } else if bytes.len() as u64 > n {
                Err(ProtocolError::LengthMismatch)
            } else {
                let body = slice_subrange(bytes, HEADER_LEN, bytes.len());
                proof {
                    assert(bytes@.subrange(4, bytes@.len() as int) == bytes@.skip(4));
                }
                Ok(body)
            }
        },
    }
}

/// Whether two byte strings are the same.
pub(crate) fn same_bytes(a: &[u8], b: &[u8]) -> (r: bool)
    ensures
        r == (a@ == b@),
{
    if a.len() != b.len() {
        return false;
    }
    let mut i: usize = 0;
    while i < a.len()
        invariant
            0 <= i <= a@.len(),
            a@.len() == b@.len(),
            a@.take(i as int) == b@.take(i as int),
        decreases a@.len() - i,
    {
        if a[i] != b[i] {
            return false;
        }
        proof {
            assert(a@.take(i + 1) == a@.take(i as int).push(a@[i as int]));
            assert(b@.take(i + 1) == b@.take(i as int).push(b@[i as int]));
        }
        i += 1;
    }
    proof {
        assert(a@.take(a@.len() as int) == a@);
        assert(b@.take(b@.len() as int) == b@);
    }
    true
}

} // verus!

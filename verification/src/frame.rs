//! Frames: a four-byte little-endian length followed by that many bytes of
//! body. This module states what a byte stream of frames holds and builds
//! single frames; `chunker` takes streams apart again.

use byteorder::{ByteOrder, LittleEndian};
use vstd::prelude::*;

verus! {

/// Largest body, in bytes, that a frame may carry (16 MiB).
pub const MAX_FRAME: u32 = 16_777_216u32;

/// Why a body could not be turned into a frame.
#[derive(Debug, Clone, Copy, PartialEq, Eq, Structural)]
pub enum EncodeError {
    /// The body is longer than `MAX_FRAME`.
    TooLarge,
    /// The schema codec did not serialize the payload.
    Schema,
}

/// Why received bytes could not be turned into a payload.
#[derive(Debug, Clone, Copy, PartialEq, Eq, Structural)]
pub enum DecodeError {
    /// A header announced a body longer than `MAX_FRAME`.
    FrameTooLarge,
    /// A body does not parse under the payload schema.
    Schema,
}

/// The four bytes of `n` in little-endian order: the least significant byte
/// first.
pub open spec fn le32(n: u32) -> Seq<u8> {
    seq![
        (n % 256) as u8,
        (n / 256 % 256) as u8,
        (n / 65536 % 256) as u8,
        (n / 16777216) as u8,
    ]
}

/// The number whose little-endian bytes are the first four of `s`.
pub open spec fn le32_value(s: Seq<u8>) -> int
    recommends
        s.len() >= 4,
{
    s[0] + 256 * s[1] + 65536 * s[2] + 16777216 * s[3]
}

/// The frame that carries `body`.
pub open spec fn frame(body: Seq<u8>) -> Seq<u8> {
    le32(body.len() as u32) + body
}

/// The frames of `bodies`, one after the other.
pub open spec fn frames(bodies: Seq<Seq<u8>>) -> Seq<u8>
    decreases bodies.len(),
{
    if bodies.len() == 0 {
        Seq::empty()
    } else {
        frame(bodies[0]) + frames(bodies.skip(1))
    }
}

/// Whether every body fits in a frame.
pub open spec fn all_fit(bodies: Seq<Seq<u8>>) -> bool {
    forall|i: int| 0 <= i < bodies.len() ==> (#[trigger] bodies[i]).len() <= MAX_FRAME
}

/// The body length that the first four bytes of `stream` announce.
pub open spec fn announced(stream: Seq<u8>) -> int
    recommends
        stream.len() >= 4,
{
    le32_value(stream)
}

/// What a byte stream holds: the bodies of its complete frames, in order, and
/// the bytes of the unfinished frame behind them. `None` when a header
/// announces more than `MAX_FRAME`.
pub open spec fn split_frames(stream: Seq<u8>) -> Option<(Seq<Seq<u8>>, Seq<u8>)>
    decreases stream.len(),
{
    if stream.len() < 4 {
        Some((Seq::empty(), stream))
    } else {
        let n = announced(stream);
        if n > MAX_FRAME {
            None
        } else if stream.len() < 4 + n {
            Some((Seq::empty(), stream))
        } else {
            match split_frames(stream.skip(4 + n)) {
                Some((bodies, rest)) => Some((seq![stream.subrange(4, 4 + n)] + bodies, rest)),
                None => None,
            }
        }
    }
}

/// The views of a vector of byte buffers.
pub open spec fn views(bufs: Seq<Vec<u8>>) -> Seq<Seq<u8>> {
    bufs.map_values(|b: Vec<u8>| b@)
}

/// The four header bytes of a body of `n` bytes. Calls
/// `byteorder::LittleEndian::write_u32` on a four-byte array; trusted to leave
/// in it the little-endian bytes of `n`, least significant first.
#[verifier::external_body]
fn len32_le(n: u32) -> (header: [u8; 4])
    ensures
        header@ == le32(n),
{
    let mut header = [0u8; 4];
    LittleEndian::write_u32(&mut header, n);
    header
}

/// The length that four header bytes announce. Calls
/// `byteorder::LittleEndian::read_u32`; trusted to return the number whose
/// little-endian bytes are the first four of `header`.
#[verifier::external_body]
pub(crate) fn len32_value(header: &[u8]) -> (n: u32)
    requires
        header@.len() >= 4,
    ensures
        n == le32_value(header@),
{
    LittleEndian::read_u32(header)
}

/// Frames `body`: its length as four little-endian bytes, then the body.
/// Refuses a body longer than `MAX_FRAME`, which no decoder would accept.
pub fn to_buf(body: &[u8]) -> (r: Result<Vec<u8>, EncodeError>)
    ensures
        body@.len() <= MAX_FRAME ==> (r matches Ok(buf) && buf@ == frame(body@)),
        body@.len() > MAX_FRAME ==> r == Err::<Vec<u8>, EncodeError>(EncodeError::TooLarge),
{
    if body.len() > MAX_FRAME as usize {
        return Err(EncodeError::TooLarge);
    }
    let header = len32_le(body.len() as u32);
    let mut buf: Vec<u8> = Vec::with_capacity(body.len() + 4);
    buf.extend_from_slice(header.as_slice());
    buf.extend_from_slice(body);
    Ok(buf)
}

/// The bytes of a number stand for that number.
pub proof fn lemma_le32_value(n: u32)
    ensures
        le32(n).len() == 4,
        le32_value(le32(n)) == n,
{
    let q1 = n as int / 256;
    let q2 = q1 / 256;
    let q3 = q2 / 256;
    assert(q2 == n as int / 65536);
    assert(q3 == n as int / 16777216);
    assert(0 <= q3 < 256);
    assert(n == n as int % 256 + 256 * q1);
    assert(q1 == q1 % 256 + 256 * q2);
    assert(q2 == q2 % 256 + 256 * q3);
}

/// Four bytes are the bytes of the number they stand for.
pub proof fn lemma_le32_bytes(s: Seq<u8>)
    requires
        s.len() >= 4,
    ensures
        0 <= le32_value(s) <= u32::MAX,
        le32(le32_value(s) as u32) == s.take(4),
{
    let v = le32_value(s);
    let r1 = s[1] + 256 * s[2] + 65536 * s[3];
    let r2 = s[2] + 256 * s[3];
    assert(v == s[0] + 256 * r1);
    assert(v % 256 == s[0] && v / 256 == r1);
    assert(r1 == s[1] + 256 * r2);
    assert(r1 % 256 == s[1] && r1 / 256 == r2);
    assert(r2 % 256 == s[2] && r2 / 256 == s[3]);
    assert(v / 65536 == r2);
    assert(v / 16777216 == s[3]);
    assert(le32(v as u32) =~= s.take(4));
}

/// Four bytes and the number they stand for determine each other.
pub proof fn lemma_le32(n: u32, s: Seq<u8>)
    ensures
        le32(n).len() == 4,
        le32_value(le32(n)) == n,
        s.len() >= 4 ==> 0 <= le32_value(s) <= u32::MAX,
        s.len() == 4 ==> le32(le32_value(s) as u32) == s,
{
    lemma_le32_value(n);
    if s.len() >= 4 {
        lemma_le32_bytes(s);
        if s.len() == 4 {
            assert(s.take(4) =~= s);
        }
    }
}

/// A header gives back the length it was made from.
pub proof fn lemma_announced_frame(body: Seq<u8>, tail: Seq<u8>)
    requires
        body.len() <= MAX_FRAME,
    ensures
        announced(frame(body) + tail) == body.len(),
        (frame(body) + tail).subrange(4, 4 + body.len() as int) == body,
        (frame(body) + tail).skip(4 + body.len() as int) == tail,
        frame(body).len() == 4 + body.len(),
{
    lemma_le32(body.len() as u32, Seq::empty());
    assert((frame(body) + tail).subrange(4, 4 + body.len() as int) =~= body);
    assert((frame(body) + tail).skip(4 + body.len() as int) =~= tail);
}

/// Splitting a stream that grew at its end: the frames found so far stay, and
/// the unfinished rest is split on with the new bytes behind it.
pub proof fn lemma_split_append(s: Seq<u8>, t: Seq<u8>)
    ensures
        split_frames(s + t) == match split_frames(s) {
            Some((bodies, rest)) => match split_frames(rest + t) {
                Some((more, left)) => Some((bodies + more, left)),
                None => None,
            },
            None => None,
        },
    decreases s.len(),
{
    if s.len() < 4 || (announced(s) <= MAX_FRAME && s.len() < 4 + announced(s)) {
        match split_frames(s + t) {
            Some((more, left)) => {
                assert(Seq::<Seq<u8>>::empty() + more =~= more);
            },
            None => {},
        }
    } else {
        let n = announced(s);
        assert((s + t).subrange(0, 4) =~= s.subrange(0, 4));
        if n <= MAX_FRAME {
            let body = s.subrange(4, 4 + n);
            assert((s + t).skip(4 + n) =~= s.skip(4 + n) + t);
            assert((s + t).subrange(4, 4 + n) =~= body);
            lemma_split_append(s.skip(4 + n), t);
            match split_frames(s.skip(4 + n)) {
                Some((bodies, rest)) => {
                    match split_frames(rest + t) {
                        Some((more, left)) => {
                            assert((seq![body] + bodies) + more =~= seq![body] + (bodies + more));
                        },
                        None => {},
                    }
                },
                None => {},
            }
        }
    }
}

/// A stream made of whole frames splits into exactly their bodies, with
/// nothing left over.
pub proof fn lemma_split_frames_of(bodies: Seq<Seq<u8>>)
    requires
        all_fit(bodies),
    ensures
        split_frames(frames(bodies)) == Some((bodies, Seq::<u8>::empty())),
    decreases bodies.len(),
{
    if bodies.len() == 0 {
        assert(bodies =~= Seq::<Seq<u8>>::empty());
    } else {
        let body = bodies[0];
        let tail = frames(bodies.skip(1));
        assert(all_fit(bodies.skip(1))) by {
            assert forall|i: int| 0 <= i < bodies.skip(1).len() implies (#[trigger] bodies.skip(
                1,
            )[i]).len() <= MAX_FRAME by {
                assert(bodies.skip(1)[i] == bodies[i + 1]);
            }
        }
        lemma_announced_frame(body, tail);
        lemma_split_frames_of(bodies.skip(1));
        assert(seq![body] + bodies.skip(1) =~= bodies);
    }
}

} // verus!

//! The frame codec: building the wire frame for a request body, decoding
//! one frame from a buffered response, and decoding a server-streaming
//! response chunk by chunk.
//!
//! Wire format of one frame:
//!
//! ```text
//! byte 0       : compression flag (always 0 on encode, skipped on decode)
//! bytes 1..=4  : payload length, unsigned 32-bit big-endian
//! bytes 5..    : payload, UTF-8 text
//! ```
//!
//! A declared length of 0 is a valid frame meaning "empty message"; the
//! decoder treats it as a terminal signal, not as an empty payload.

use vstd::prelude::*;
use vstd::slice::{slice_subrange, slice_to_vec};
use vstd::utf8::{valid_utf8, decode_utf8, encode_utf8};

verus! {

/// The faults a frame decode can raise. Either one aborts the whole
/// decode operation; there is no per-frame recovery.
#[derive(Clone, Copy, Debug, PartialEq, Eq, Structural)]
pub enum DecodeFault {
    /// Fewer than the 5 header bytes were available where a frame was
    /// expected.
    ShortBuffer,
    /// The payload bytes were not valid UTF-8.
    InvalidUtf8,
}

/// What decoding one frame yields: a decoded text message, or the
/// zero-length terminal signal that ends the response.
#[derive(Debug, PartialEq, Eq)]
pub enum FrameEvent {
    /// The frame carried a payload, decoded to text.
    Message(String),
    /// The frame declared length 0: nothing more to show.
    EmptySignal,
}

/// The four big-endian bytes of a 32-bit length.
pub open spec fn spec_be32(n: u32) -> Seq<u8> {
    seq![(n >> 24) as u8, (n >> 16) as u8, (n >> 8) as u8, n as u8]
}

/// The wire frame for a payload: flag 0, big-endian length, then the
/// payload bytes themselves.
pub open spec fn spec_frame(payload: Seq<u8>) -> Seq<u8> {
    seq![0u8] + spec_be32(payload.len() as u32) + payload
}

/// The length field declared by a frame's header.
pub open spec fn spec_declared_len(buf: Seq<u8>) -> u32
    recommends
        buf.len() >= 5,
{
    ((buf[1] as u32) << 24) | ((buf[2] as u32) << 16) | ((buf[3] as u32) << 8) | (buf[4] as u32)
}

/// The payload region of a frame buffer: everything past the 5 header
/// bytes.
pub open spec fn spec_payload(buf: Seq<u8>) -> Seq<u8> {
    buf.skip(5)
}

/// The big-endian bytes of the length 0 are all zero.
proof fn lemma_be32_zero()
    ensures
        spec_be32(0) =~= seq![0u8, 0u8, 0u8, 0u8],
{
    assert(((0u32 >> 24) as u8) == 0 && ((0u32 >> 16) as u8) == 0 && ((0u32 >> 8) as u8) == 0)
        by (bit_vector);
}

/// Build the wire frame to send for an optional request body. An absent
/// body stands for "no message" and yields the fixed five zero bytes: a
/// zero-length frame, not the absence of a frame. A present body is
/// framed with its UTF-8 byte length.
pub fn encode_frame(body: &Option<String>) -> (r: Vec<u8>)
    requires
        body matches Some(b) ==> encode_utf8(b@).len() <= u32::MAX,
    ensures
        body is None ==> r@ == spec_frame(Seq::<u8>::empty()),
        body matches Some(b) ==> r@ == spec_frame(encode_utf8(b@)),
        body is None ==> r@ =~= seq![0u8, 0u8, 0u8, 0u8, 0u8],
{
    let mut out: Vec<u8> = Vec::new();
    match body {
        None => {
            out.push(0);
            out.push(0);
            out.push(0);
            out.push(0);
            out.push(0);
            proof {
                lemma_be32_zero();
                assert(out@ =~= spec_frame(Seq::<u8>::empty()));
            }
        },
        Some(b) => {
            let bytes: &[u8] = b.as_str().as_bytes();
            let n: u32 = bytes.len() as u32;
            out.push(0);
            out.push(#[verifier::truncate] ((n >> 24) as u8));
            out.push(#[verifier::truncate] ((n >> 16) as u8));
            out.push(#[verifier::truncate] ((n >> 8) as u8));
            out.push(#[verifier::truncate] (n as u8));
            let mut i: usize = 0;
            while i < bytes.len()
                invariant
                    i <= bytes@.len(),
                    bytes@ == encode_utf8(b@),
                    bytes@.len() <= u32::MAX,
                    n == bytes@.len() as u32,
                    out@ =~= seq![0u8] + spec_be32(n) + bytes@.take(i as int),
                decreases bytes@.len() - i,
            {
                out.push(bytes[i]);
                i = i + 1;
            }
            proof {
                assert(bytes@.take(bytes@.len() as int) =~= bytes@);
                assert(out@ =~= spec_frame(bytes@));
            }
        },
    }
    out
}

/// Relies on `alloc::string::String::from_utf8`: it returns `Ok` exactly
/// when the bytes are valid UTF-8, and the returned string is the text
/// those bytes encode.
#[verifier::external_body]
fn utf8_to_string(bytes: Vec<u8>) -> (r: Option<String>)
    ensures
        r is Some <==> valid_utf8(bytes@),
        r matches Some(s) ==> s@ == decode_utf8(bytes@),
{
    match String::from_utf8(bytes) {
        Ok(s) => Some(s),
        Err(_) => None,
    }
}

/// Decode one frame from a buffer positioned at its start. A unary
/// response is decoded by one such call over its fully buffered body.
///
/// Fewer than the 5 header bytes is a framing fault. A declared length
/// of 0 is the terminal empty-message signal. Otherwise the whole rest
/// of the buffer is taken as the payload (the declared length is not
/// cross-checked against it) and decoded as UTF-8; bytes that are not
/// valid UTF-8 are a decode fault, and no partial text is produced.
pub fn decode_frame(buf: &[u8]) -> (r: Result<FrameEvent, DecodeFault>)
    ensures
        (buf@.len() < 5) <==> (r matches Err(DecodeFault::ShortBuffer)),
        (buf@.len() >= 5 && spec_declared_len(buf@) == 0) <==> (r matches Ok(
            FrameEvent::EmptySignal,
        )),
        buf@.len() >= 5 && spec_declared_len(buf@) != 0 && valid_utf8(spec_payload(buf@)) ==> (
        r matches Ok(FrameEvent::Message(m)) && m@ == decode_utf8(spec_payload(buf@))),
        (buf@.len() >= 5 && spec_declared_len(buf@) != 0 && !valid_utf8(spec_payload(buf@)))
            <==> (r matches Err(DecodeFault::InvalidUtf8)),
{
    if buf.len() < 5 {
        return Err(DecodeFault::ShortBuffer);
    }
    let len: u32 = ((buf[1] as u32) << 24) | ((buf[2] as u32) << 16) | ((buf[3] as u32) << 8) | (
    buf[4] as u32);
    if len == 0 {
        return Ok(FrameEvent::EmptySignal);
    }
    let payload: Vec<u8> = slice_to_vec(slice_subrange(buf, 5, buf.len()));
    match utf8_to_string(payload) {
        Some(s) => Ok(FrameEvent::Message(s)),
        None => Err(DecodeFault::InvalidUtf8),
    }
}

/// The result of a completed server-streaming decode.
#[derive(Debug, PartialEq, Eq)]
pub struct StreamOutcome {
    /// The decoded payloads, in arrival order.
    pub messages: Vec<String>,
    /// Whether a zero-length terminal frame stopped consumption before
    /// the underlying stream's end.
    pub terminated: bool,
}

/// What a server-streaming decode yields for a sequence of chunks, each
/// chunk assumed to hold one complete frame: the decoded payloads in
/// arrival order, and whether a terminal empty-message frame stopped
/// consumption early. The first faulty chunk aborts the whole decode,
/// and no chunk past a terminal frame is looked at.
pub open spec fn spec_stream(chunks: Seq<Seq<u8>>) -> Result<(Seq<Seq<char>>, bool), DecodeFault>
    decreases chunks.len(),
{
    if chunks.len() == 0 {
        Ok((Seq::<Seq<char>>::empty(), false))
    } else if chunks[0].len() < 5 {
        Err(DecodeFault::ShortBuffer)
    } else if spec_declared_len(chunks[0]) == 0 {
        Ok((Seq::<Seq<char>>::empty(), true))
    } else if !valid_utf8(spec_payload(chunks[0])) {
        Err(DecodeFault::InvalidUtf8)
    } else {
        match spec_stream(chunks.drop_first()) {
            Ok(rest) => Ok((seq![decode_utf8(spec_payload(chunks[0]))] + rest.0, rest.1)),
            Err(f) => Err(f),
        }
    }
}

/// Already-emitted payloads, prefixed onto the outcome of the chunks
/// that remain.
pub open spec fn spec_stream_prepend(
    acc: Seq<Seq<char>>,
    r: Result<(Seq<Seq<char>>, bool), DecodeFault>,
) -> Result<(Seq<Seq<char>>, bool), DecodeFault> {
    match r {
        Ok(rest) => Ok((acc + rest.0, rest.1)),
        Err(f) => Err(f),
    }
}

/// Decode a server-streaming response delivered as discrete chunks, on
/// the convention that each chunk holds exactly one complete frame.
///
/// Chunks are decoded in arrival order and their payloads emitted in
/// that same order. The first terminal empty-message frame stops the
/// decode; chunks after it are not touched. The first faulty chunk
/// aborts the whole decode with its fault.
pub fn decode_stream(chunks: &Vec<Vec<u8>>) -> (r: Result<StreamOutcome, DecodeFault>)
    ensures
        spec_stream(chunks.deep_view()) matches Ok(out) ==> (r matches Ok(o)
            && o.messages.deep_view() == out.0 && o.terminated == out.1),
        spec_stream(chunks.deep_view()) matches Err(f) ==> (r matches Err(g) && g == f),
{
    let ghost dv = chunks.deep_view();
    let mut messages: Vec<String> = Vec::new();
    proof {
        assert(messages.deep_view() =~= Seq::<Seq<char>>::empty());
        assert(dv.skip(0) =~= dv);
        match spec_stream(dv) {
            Ok(rest) => {
                assert(Seq::<Seq<char>>::empty() + rest.0 =~= rest.0);
            },
            Err(_) => {},
        }
    }
    let mut i: usize = 0;
    while i < chunks.len()
        invariant
            i <= chunks@.len(),
            dv == chunks.deep_view(),
            dv.len() == chunks@.len(),
            spec_stream_prepend(messages.deep_view(), spec_stream(dv.skip(i as int)))
                == spec_stream(dv),
        decreases chunks@.len() - i,
    {
        let chunk: &Vec<u8> = &chunks[i];
        proof {
            assert(dv.skip(i as int)[0] == dv[i as int]);
            assert(dv[i as int] == chunk@);
        }
        let ghost pre = messages.deep_view();
        match decode_frame(chunk.as_slice()) {
            Ok(FrameEvent::Message(s)) => {
                let ghost m = s@;
                messages.push(s);
                proof {
                    assert(messages.deep_view() =~= pre.push(m));
                    assert(dv.skip(i as int).drop_first() =~= dv.skip(i as int + 1));
                    match spec_stream(dv.skip(i as int + 1)) {
                        Ok(rest) => {
                            assert(pre + (seq![m] + rest.0) =~= pre.push(m) + rest.0);
                        },
                        Err(_) => {},
                    }
                }
                i = i + 1;
            },
            Ok(FrameEvent::EmptySignal) => {
                proof {
                    assert(pre + Seq::<Seq<char>>::empty() =~= pre);
                }
                return Ok(StreamOutcome { messages, terminated: true });
            },
            Err(f) => {
                return Err(f);
            },
        }
    }
    proof {
        assert(dv.skip(i as int) =~= Seq::<Seq<u8>>::empty());
        assert(messages.deep_view() + Seq::<Seq<char>>::empty() =~= messages.deep_view());
    }
    Ok(StreamOutcome { messages, terminated: false })
}

/// Round-trip law at the byte level: the frame built for a payload
/// declares exactly the payload's length, and its payload region holds
/// exactly the payload's bytes.
pub proof fn lemma_frame_round_trip(payload: Seq<u8>)
    requires
        payload.len() <= u32::MAX,
    ensures
        spec_frame(payload).len() == 5 + payload.len(),
        spec_declared_len(spec_frame(payload)) == payload.len(),
        spec_payload(spec_frame(payload)) == payload,
{
    let n: u32 = payload.len() as u32;
    let frame = spec_frame(payload);
    assert(frame[1] == (n >> 24) as u8);
    assert(frame[2] == (n >> 16) as u8);
    assert(frame[3] == (n >> 8) as u8);
    assert(frame[4] == n as u8);
    assert((((n >> 24) as u8 as u32) << 24) | (((n >> 16) as u8 as u32) << 16) | (((n >> 8) as u8
        as u32) << 8) | (n as u8 as u32) == n) by (bit_vector);
    assert(spec_payload(frame) =~= payload);
}

/// Round-trip law for a text body: decoding the frame built for a body
/// yields that body back exactly, except that an empty body's frame is
/// the terminal empty-message signal.
pub proof fn lemma_body_round_trip(body: Seq<char>)
    requires
        encode_utf8(body).len() <= u32::MAX,
    ensures
        encode_utf8(body).len() == 0 ==> spec_declared_len(spec_frame(encode_utf8(body))) == 0,
        encode_utf8(body).len() != 0 ==> spec_declared_len(spec_frame(encode_utf8(body))) != 0,
        valid_utf8(spec_payload(spec_frame(encode_utf8(body)))),
        decode_utf8(spec_payload(spec_frame(encode_utf8(body)))) == body,
{
    lemma_frame_round_trip(encode_utf8(body));
    vstd::utf8::encode_utf8_valid_utf8(body);
    vstd::utf8::encode_utf8_decode_utf8(body);
}

/// Streaming round-trip law: a chunk sequence holding one frame per
/// non-empty text body decodes to exactly those bodies, in their order,
/// with no fault and no early termination.
pub proof fn lemma_stream_round_trip(bodies: Seq<Seq<char>>)
    requires
        forall|i: int|
            0 <= i < bodies.len() ==> 0 < #[trigger] encode_utf8(bodies[i]).len() <= u32::MAX,
    ensures
        spec_stream(bodies.map_values(|b: Seq<char>| spec_frame(encode_utf8(b)))) matches Ok(out)
            && out.0 == bodies && out.1 == false,
    decreases bodies.len(),
{
    let frames = bodies.map_values(|b: Seq<char>| spec_frame(encode_utf8(b)));
    if bodies.len() == 0 {
        assert(Seq::<Seq<char>>::empty() =~= bodies);
    } else {
        lemma_frame_round_trip(encode_utf8(bodies[0]));
        lemma_body_round_trip(bodies[0]);
        assert(frames[0] == spec_frame(encode_utf8(bodies[0])));
        assert(frames.drop_first() =~= bodies.drop_first().map_values(
            |b: Seq<char>| spec_frame(encode_utf8(b)),
        ));
        assert(forall|i: int|
            0 <= i < bodies.drop_first().len() ==> 0 < #[trigger] encode_utf8(
                bodies.drop_first()[i],
            ).len() <= u32::MAX);
        lemma_stream_round_trip(bodies.drop_first());
        assert(seq![bodies[0]] + bodies.drop_first() =~= bodies);
    }
}

} // verus!

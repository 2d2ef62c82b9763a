//! The frame codec.
//!
//! In either direction a message travels as one frame: a four-byte big-endian
//! unsigned length, then that many bytes of UTF-8 JSON text. There is no
//! checksum, no version byte and no limit on the length short of what the
//! header can announce.

use vstd::prelude::*;
use vstd::slice::slice_subrange;
use vstd::utf8::encode_utf8;
use crate::error::{Error, IoFailure};
use crate::json::{decode, decoded, Message};

verus! {

/// The number of bytes in a frame's header.
pub const HEADER_LEN: usize = 4;

/// The four header bytes that announce a payload of `len` bytes, most
/// significant byte first.
pub open spec fn header_of(len: nat) -> Seq<u8> {
    seq![
        ((len / 0x100_0000) % 0x100) as u8,
        ((len / 0x1_0000) % 0x100) as u8,
        ((len / 0x100) % 0x100) as u8,
        (len % 0x100) as u8,
    ]
}

/// The payload length that four header bytes announce.
pub open spec fn announced(header: Seq<u8>) -> nat {
    (header[0] * 0x100_0000 + header[1] * 0x1_0000 + header[2] * 0x100 + header[3]) as nat
}

/// The frame that carries `payload`.
pub open spec fn frame(payload: Seq<u8>) -> Seq<u8> {
    header_of(payload.len()) + payload
}

/// Whether a header can announce a payload of `len` bytes.
pub open spec fn fits_header(len: nat) -> bool {
    len <= u32::MAX
}

/// Encodes a payload length as a header, or refuses a length that no header
/// can announce.
pub fn encode_header(len: usize) -> (r: Result<[u8; 4], Error>)
    ensures
        match r {
            Ok(header) => fits_header(len as nat) && header@ == header_of(len as nat),
            Err(e) => !fits_header(len as nat) && e == Error::IntegerConversionError,
        },
{
    if len > 0xFFFF_FFFF {
        return Err(Error::IntegerConversionError);
    }
    let header = [
        ((len / 0x100_0000) % 0x100) as u8,
        ((len / 0x1_0000) % 0x100) as u8,
        ((len / 0x100) % 0x100) as u8,
        (len % 0x100) as u8,
    ];
    assert(header@ =~= header_of(len as nat));
    Ok(header)
}

/// Decodes the payload length that a header announces.
pub fn payload_length(header: &[u8; 4]) -> (len: u32)
    ensures
        len == announced(header@),
{
    (header[0] as u32) * 0x100_0000 + (header[1] as u32) * 0x1_0000 + (header[2] as u32) * 0x100
        + (header[3] as u32)
}

/// What `read` makes of the bytes that a connection supplied before it
/// closed: the first frame's message and the number of bytes the frame takes,
/// or the error that ends the reading.
pub open spec fn read_result(stream: Seq<u8>) -> Result<(Message, nat), Error> {
    if stream.len() < HEADER_LEN {
        Err(Error::IOError(IoFailure::UnexpectedEof))
    } else {
        let len = announced(stream.subrange(0, HEADER_LEN as int));
        if stream.len() - HEADER_LEN < len {
            Err(Error::IOError(IoFailure::UnexpectedEof))
        } else {
            match decoded(stream.subrange(HEADER_LEN as int, HEADER_LEN + len)) {
                Ok(message) => Ok((message, (HEADER_LEN + len) as nat)),
                Err(e) => Err(e),
            }
        }
    }
}

/// A header is four bytes, and it announces the length it was made for.
pub proof fn lemma_header_announces(len: nat)
    requires
        fits_header(len),
    ensures
        header_of(len).len() == HEADER_LEN,
        announced(header_of(len)) == len,
{
    let high = (len / 0x100_0000) % 0x100;
    let upper = (len / 0x1_0000) % 0x100;
    let lower = (len / 0x100) % 0x100;
    let low = len % 0x100;
    assert(high == len / 0x100_0000);
    assert(len / 0x1_0000 == high * 0x100 + upper);
    assert(len / 0x100 == (len / 0x1_0000) * 0x100 + lower);
    assert(len == (len / 0x100) * 0x100 + low);
}

/// Four bytes are the header of the length they announce.
pub proof fn lemma_announced_header(header: Seq<u8>)
    requires
        header.len() == HEADER_LEN,
    ensures
        fits_header(announced(header)),
        header_of(announced(header)) == header,
{
    let high = header[0] as int;
    let upper = header[1] as int;
    let lower = header[2] as int;
    let low = header[3] as int;
    let len = high * 0x100_0000 + upper * 0x1_0000 + lower * 0x100 + low;
    assert(announced(header) == len);
    assert(len / 0x100_0000 == high);
    assert(len / 0x1_0000 == high * 0x100 + upper);
    assert(len / 0x100 == high * 0x1_0000 + upper * 0x100 + lower);
    assert(header_of(len as nat)[0] == header[0]);
    assert(header_of(len as nat)[1] == header[1]);
    assert(header_of(len as nat)[2] == header[2]);
    assert(header_of(len as nat)[3] == header[3]);
    assert(header_of(announced(header)) =~= header);
}

/// A frame is four bytes longer than its payload. Its first four bytes are
/// the big-endian encoding of the payload's length, and the payload follows
/// them unchanged.
pub proof fn lemma_frame_layout(payload: Seq<u8>)
    ensures
        frame(payload).len() == HEADER_LEN + payload.len(),
        frame(payload).subrange(0, HEADER_LEN as int) == header_of(payload.len()),
        frame(payload).subrange(HEADER_LEN as int, frame(payload).len() as int) == payload,
        fits_header(payload.len()) ==> announced(frame(payload).subrange(0, HEADER_LEN as int))
            == payload.len(),
{
    assert(frame(payload).subrange(0, HEADER_LEN as int) =~= header_of(payload.len()));
    assert(frame(payload).subrange(HEADER_LEN as int, frame(payload).len() as int) =~= payload);
    if fits_header(payload.len()) {
        lemma_header_announces(payload.len());
    }
}

/// Reading what was sent decodes the payload that was sent, whatever follows
/// it on the connection, and takes the frame's bytes and no more.
pub proof fn lemma_read_what_was_sent(payload: Seq<u8>, rest: Seq<u8>)
    requires
        fits_header(payload.len()),
    ensures
        read_result(frame(payload) + rest) == match decoded(payload) {
            Ok(message) => Ok::<(Message, nat), Error>((message, frame(payload).len())),
            Err(e) => Err(e),
        },
{
    let stream = frame(payload) + rest;
    lemma_frame_layout(payload);
    assert(stream.subrange(0, HEADER_LEN as int) =~= header_of(payload.len()));
    assert(stream.subrange(HEADER_LEN as int, HEADER_LEN + payload.len()) =~= payload);
}

/// A connection that closes inside a header, or inside the payload that the
/// header announced, fails the read with a transport error: what did arrive is
/// never handed to the JSON decoder.
pub proof fn lemma_short_read(stream: Seq<u8>)
    requires
        stream.len() < HEADER_LEN || stream.len() - HEADER_LEN < announced(
            stream.subrange(0, HEADER_LEN as int),
        ),
    ensures
        read_result(stream) == Err::<(Message, nat), Error>(
            Error::IOError(IoFailure::UnexpectedEof),
        ),
{
}

/// A read that succeeds takes a whole frame: at least a header, at most what
/// the connection supplied.
pub proof fn lemma_read_takes_frame(stream: Seq<u8>)
    ensures
        read_result(stream) matches Ok((_, taken)) ==> HEADER_LEN <= taken <= stream.len(),
{
}

/// Writes `message` to a connection as one frame.
///
/// `socket` holds the bytes written to the connection so far; the frame is
/// appended to it. A message too long for the header is refused and nothing is
/// written.
pub fn send(socket: &mut Vec<u8>, message: String) -> (r: Result<(), Error>)
    ensures
        match r {
            Ok(()) => fits_header(encode_utf8(message@).len())
                && final(socket)@ == old(socket)@ + frame(encode_utf8(message@)),
            Err(e) => e == Error::IntegerConversionError
                && !fits_header(encode_utf8(message@).len())
                && final(socket)@ == old(socket)@,
        },
{
    let payload = message.as_str().as_bytes();
    let header = encode_header(payload.len())?;
    socket.extend_from_slice(header.as_slice());
    socket.extend_from_slice(payload);
    assert(final(socket)@ =~= old(socket)@ + frame(encode_utf8(message@)));
    Ok(())
}

/// Reads one frame from the bytes that a connection supplied and decodes its
/// payload.
///
/// `socket` holds every byte that the connection will supply: a frame that
/// it does not hold whole is a short read. On success the result counts the
/// bytes that the frame took; the next frame starts there.
pub fn read(socket: &[u8]) -> (r: Result<(Message, usize), Error>)
    ensures
        match read_result(socket@) {
            Ok((message, taken)) => r == Ok::<(Message, usize), Error>((message, taken as usize))
                && taken <= socket@.len(),
            Err(e) => r == Err::<(Message, usize), Error>(e),
        },
{
    if socket.len() < HEADER_LEN {
        return Err(Error::IOError(IoFailure::UnexpectedEof));
    }
    let header = [socket[0], socket[1], socket[2], socket[3]];
    assert(header@ =~= socket@.subrange(0, HEADER_LEN as int));
    let len = payload_length(&header) as usize;
    if socket.len() - HEADER_LEN < len {
        return Err(Error::IOError(IoFailure::UnexpectedEof));
    }
    let payload = slice_subrange(socket, HEADER_LEN, HEADER_LEN + len);
    match decode(payload) {
        Ok(message) => Ok((message, HEADER_LEN + len)),
        Err(e) => Err(e),
    }
}

} // verus!

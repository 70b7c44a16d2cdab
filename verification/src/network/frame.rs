//! The frame format.
//!
//! A frame is a four-byte big-endian header followed by a body. The low 31
//! bits of the header give the length of the body; the top bit says whether
//! the body is gzip-compressed. A payload longer than `COMPRESSION_LIMIT`
//! bytes is compressed before it is sent.

use std::io::{Read, Write};
use bytes::{BufMut, BytesMut};
use flate2::read::GzDecoder;
use flate2::write::GzEncoder;
use flate2::Compression;
use vstd::prelude::*;
use vstd::slice::{slice_subrange, slice_to_vec};
use crate::error::KvError;
use crate::network::buffer::{
    be_u32_bytes, buffer_bytes, buffer_clear, buffer_extend, buffer_len, buffer_put_u32,
    buffer_split_off, buffer_unsplit, buffer_advance, buffer_as_slice,
};

verus! {

/// The header takes four bytes.
pub const LEN_LEN: usize = 4;

/// The length takes 31 bits, so the largest frame is 2 GiB.
pub const MAX_FRAME: usize = 0x8000_0000;

/// A payload longer than this is compressed.
pub const COMPRESSION_LIMIT: usize = 1436;

/// The bit of the header that marks a compressed body.
pub const COMPRESSION_BIT: usize = 0x8000_0000;

#[verifier::external_type_specification]
#[verifier::external_body]
pub struct ExIoError(std::io::Error);

/// What flate2's `GzEncoder` (default level, default header) writes for `data`.
pub uninterp spec fn gzip_output(data: Seq<u8>) -> Seq<u8>;

/// What flate2's `GzDecoder` reads out of `data`, or `None` where it fails.
pub uninterp spec fn gunzip_output(data: Seq<u8>) -> Option<Seq<u8>>;

/// Compresses `data` with flate2's `GzEncoder` at the default level, writing
/// into `dst` through `BufMut::writer`, and gives `dst` back. On success the
/// buffer holds what it held before followed by `gzip_output(data)`. It
/// succeeds: the `BytesMut` writer never reports an error, and the encoder
/// fails only on deflate parameters that the default level never gives.
#[verifier::external_body]
fn gzip_append(dst: BytesMut, data: &[u8]) -> (r: Result<BytesMut, std::io::Error>)
    ensures
        r is Ok,
        r matches Ok(b) ==> buffer_bytes(b) == buffer_bytes(dst) + gzip_output(data@),
{
    let mut encoder = GzEncoder::new(dst.writer(), Compression::default());
    encoder.write_all(data)?;
    Ok(encoder.finish()?.into_inner())
}

/// Decompresses `data` with flate2's `read::GzDecoder` and `read_to_end`.
/// It succeeds exactly where `gunzip_output` is `Some`, with that result;
/// and on what `GzEncoder` produced for some `d` it gives `d` back.
#[verifier::external_body]
fn gunzip(data: &[u8]) -> (r: Result<Vec<u8>, std::io::Error>)
    ensures
        r is Ok <==> gunzip_output(data@) is Some,
        r matches Ok(v) ==> gunzip_output(data@) == Some(v@),
        r is Ok || forall|d: Seq<u8>| data@ != gzip_output(d),
        r matches Ok(v) ==> forall|d: Seq<u8>| data@ == gzip_output(d) ==> v@ == d,
{
    let mut out = Vec::new();
    GzDecoder::new(data).read_to_end(&mut out)?;
    Ok(out)
}

/// The message of an I/O error (`ToString` of `std::io::Error`); nothing is
/// stated of the text.
#[verifier::external_body]
fn io_error_text(e: std::io::Error) -> String {
    e.to_string()
}

/// The header word for a body of `len` bytes.
pub open spec fn frame_header(len: nat, compressed: bool) -> u32 {
    if compressed {
        (len as u32) | 0x8000_0000u32
    } else {
        len as u32
    }
}

/// The body length that a header word announces.
pub open spec fn header_len(header: u32) -> u32 {
    header & 0x7fff_ffffu32
}

/// Whether a header word marks a compressed body.
pub open spec fn header_compressed(header: u32) -> bool {
    header & 0x8000_0000u32 == 0x8000_0000u32
}

/// The number that four big-endian bytes stand for.
pub open spec fn be_u32_value(b: Seq<u8>) -> u32
    recommends
        b.len() >= 4,
{
    (b[0] * 0x100_0000int + b[1] * 0x1_0000int + b[2] * 0x100int + b[3]) as u32
}

/// Whether a payload of `size` bytes is sent compressed.
pub open spec fn should_compress(size: nat) -> bool {
    size > COMPRESSION_LIMIT
}

/// The frame that carries `payload`, written into an empty buffer.
pub open spec fn encoded_frame(payload: Seq<u8>) -> Seq<u8> {
    if should_compress(payload.len()) {
        let gz = gzip_output(payload);
        be_u32_bytes(frame_header(gz.len(), true)) + gz
    } else {
        be_u32_bytes(frame_header(payload.len(), false)) + payload
    }
}

/// The header word at the front of `buf`.
pub open spec fn front_header(buf: Seq<u8>) -> u32 {
    be_u32_value(buf.take(LEN_LEN as int))
}

/// Whether `buf` starts with a whole frame: a header and all of its body.
pub open spec fn frame_available(buf: Seq<u8>) -> bool {
    &&& buf.len() >= LEN_LEN
    &&& buf.len() >= LEN_LEN + header_len(front_header(buf))
}

/// The body of the frame at the front of `buf`.
pub open spec fn frame_body(buf: Seq<u8>) -> Seq<u8> {
    buf.subrange(LEN_LEN as int, LEN_LEN + header_len(front_header(buf)))
}

/// What follows the frame at the front of `buf`.
pub open spec fn frame_rest(buf: Seq<u8>) -> Seq<u8> {
    buf.subrange(LEN_LEN + header_len(front_header(buf)), buf.len() as int)
}

/// The payload of the frame at the front of `buf`: its body, decompressed
/// where the header says so (`None` where decompression fails).
pub open spec fn frame_payload(buf: Seq<u8>) -> Option<Seq<u8>> {
    if header_compressed(front_header(buf)) {
        gunzip_output(frame_body(buf))
    } else {
        Some(frame_body(buf))
    }
}

/// Whether `buf` starts with the frame of `payload`.
pub open spec fn starts_with_frame(buf: Seq<u8>, payload: Seq<u8>) -> bool {
    let f = encoded_frame(payload);
    &&& f.len() <= buf.len()
    &&& forall|i: int| 0 <= i < f.len() ==> #[trigger] buf[i] == f[i]
}

/// Whether the frame of `payload` can be told back from its header: the
/// payload is under the size limit and, when compressed, so is its body.
pub open spec fn frame_fits(payload: Seq<u8>) -> bool {
    &&& payload.len() < MAX_FRAME
    &&& should_compress(payload.len()) ==> gzip_output(payload).len() < MAX_FRAME
}

/// Four big-endian bytes give back the number they were made from.
pub proof fn lemma_be_u32_roundtrip(x: u32)
    ensures
        be_u32_bytes(x).len() == 4,
        be_u32_value(be_u32_bytes(x)) == x,
{
    let b = be_u32_bytes(x);
    assert(b[0] == x / 0x100_0000);
    assert(b[1] == (x / 0x1_0000) % 0x100);
    assert(b[2] == (x / 0x100) % 0x100);
    assert(b[3] == x % 0x100);
    assert(x == (x / 0x100_0000) * 0x100_0000 + ((x / 0x1_0000) % 0x100) * 0x1_0000
        + ((x / 0x100) % 0x100) * 0x100 + x % 0x100) by (nonlinear_arith);
}

/// A header word gives back the length and the compression mark it was made
/// from, for any length under 2^31.
pub proof fn lemma_header_roundtrip(len: nat, compressed: bool)
    requires
        len < MAX_FRAME,
    ensures
        header_len(frame_header(len, compressed)) == len,
        header_compressed(frame_header(len, compressed)) == compressed,
{
    let l = len as u32;
    assert(l == len);
    assert(l < 0x8000_0000u32 ==> (l | 0x8000_0000u32) & 0x7fff_ffffu32 == l
        && (l | 0x8000_0000u32) & 0x8000_0000u32 == 0x8000_0000u32
        && l & 0x7fff_ffffu32 == l && l & 0x8000_0000u32 != 0x8000_0000u32) by (bit_vector);
}

/// Reading the frame of `payload` from a buffer that holds it followed by
/// `rest` finds the whole frame, with the body that was written, and leaves
/// `rest`.
pub proof fn lemma_frame_layout(payload: Seq<u8>, rest: Seq<u8>)
    requires
        frame_fits(payload),
    ensures
        ({
            let buf = encoded_frame(payload) + rest;
            &&& frame_available(buf)
            &&& header_compressed(front_header(buf)) == should_compress(payload.len())
            &&& frame_body(buf) == (if should_compress(payload.len()) {
                gzip_output(payload)
            } else {
                payload
            })
            &&& frame_rest(buf) == rest
        }),
{
    let c = should_compress(payload.len());
    let body = if c { gzip_output(payload) } else { payload };
    let h = frame_header(body.len(), c);
    let buf = encoded_frame(payload) + rest;
    assert(encoded_frame(payload) == be_u32_bytes(h) + body);
    lemma_be_u32_roundtrip(h);
    lemma_header_roundtrip(body.len(), c);
    assert(buf.take(4) =~= be_u32_bytes(h));
    assert(front_header(buf) == h);
    assert(buf.subrange(4, 4 + body.len() as int) =~= body);
    assert(buf.subrange(4 + body.len() as int, buf.len() as int) =~= rest);
}

/// A buffer that starts with the frame of `payload` is that frame followed
/// by what comes after it.
proof fn lemma_frame_split(buf: Seq<u8>, payload: Seq<u8>)
    requires
        frame_fits(payload),
    ensures
        starts_with_frame(buf, payload) ==> {
            let rest = buf.skip(encoded_frame(payload).len() as int);
            &&& buf == encoded_frame(payload) + rest
            &&& frame_available(buf)
            &&& header_compressed(front_header(buf)) == should_compress(payload.len())
            &&& frame_body(buf) == (if should_compress(payload.len()) {
                gzip_output(payload)
            } else {
                payload
            })
            &&& frame_rest(buf) == rest
        },
{
    if starts_with_frame(buf, payload) {
        let rest = buf.skip(encoded_frame(payload).len() as int);
        assert(buf =~= encoded_frame(payload) + rest);
        lemma_frame_layout(payload, rest);
    }
}

/// What a frame written for `payload` is: exactly `encoded_frame(payload)`,
/// whose header announces the whole of the body that follows and whose
/// compression mark says whether the body is the compressed payload.
pub open spec fn frame_self_delimiting(frame: Seq<u8>, payload: Seq<u8>) -> bool {
    &&& frame == encoded_frame(payload)
    &&& frame_available(frame)
    &&& header_len(front_header(frame)) == frame.len() - LEN_LEN
    &&& frame_rest(frame) == Seq::<u8>::empty()
    &&& header_compressed(front_header(frame)) == should_compress(payload.len())
    &&& frame_body(frame) == (if should_compress(payload.len()) {
        gzip_output(payload)
    } else {
        payload
    })
}

/// The frame of a payload that fits delimits itself.
pub proof fn lemma_frame_self_delimiting(payload: Seq<u8>)
    requires
        frame_fits(payload),
    ensures
        frame_self_delimiting(encoded_frame(payload), payload),
{
    let e = Seq::<u8>::empty();
    lemma_frame_layout(payload, e);
    assert(encoded_frame(payload) + e =~= encoded_frame(payload));
}

/// No frame of any payload that fits starts a buffer that does not start
/// with a whole frame, or whose compressed body was not made by gzip.
proof fn lemma_no_frame_prefix(buf: Seq<u8>)
    requires
        !frame_available(buf) || (header_compressed(front_header(buf)) && forall|d: Seq<u8>|
            frame_body(buf) != #[trigger] gzip_output(d)),
    ensures
        forall|payload: Seq<u8>|
            #![trigger encoded_frame(payload)]
            frame_fits(payload) ==> !starts_with_frame(buf, payload),
{
    assert forall|payload: Seq<u8>|
        #![trigger encoded_frame(payload)]
        frame_fits(payload) implies !starts_with_frame(buf, payload) by {
        lemma_frame_split(buf, payload);
        if starts_with_frame(buf, payload) && frame_available(buf) {
            assert(frame_body(buf) != gzip_output(payload));
        }
    }
}

/// The header word's fields, read straight off its four bytes: the body
/// length is the low seven bits of the first byte and the other three
/// bytes, big-endian; the body is marked compressed exactly when the first
/// byte has its top bit set.
pub proof fn lemma_header_word(b: Seq<u8>)
    requires
        b.len() >= LEN_LEN,
    ensures
        header_len(front_header(b)) as int == (b[0] % 128) * 0x100_0000int + b[1] * 0x1_0000int
            + b[2] * 0x100int + b[3],
        header_compressed(front_header(b)) == (b[0] >= 128),
{
    let t = b.take(4);
    assert(t[0] == b[0] && t[1] == b[1] && t[2] == b[2] && t[3] == b[3]);
    let v: int = b[0] * 0x100_0000int + b[1] * 0x1_0000int + b[2] * 0x100int + b[3];
    assert(0 <= v < 0x1_0000_0000);
    let x = front_header(b);
    assert(x == v);
    lemma_header_bits(x);
    let rest: int = b[1] * 0x1_0000int + b[2] * 0x100int + b[3];
    assert(0 <= rest < 0x100_0000);
    if b[0] >= 128 {
        assert(v - 0x8000_0000 == (b[0] - 128) * 0x100_0000int + rest);
        assert(v % 0x8000_0000 == v - 0x8000_0000);
        assert(b[0] % 128 == b[0] - 128);
    } else {
        assert(v < 0x8000_0000);
        assert(v % 0x8000_0000 == v);
        assert(b[0] % 128 == b[0]);
    }
}

/// The header word's fields in arithmetic: the body length is the word
/// modulo 2^31 and the compression mark is the word being 2^31 or more; a
/// compressed header of any length has the mark, and one of a length under
/// 2^31 gives that length back.
pub proof fn lemma_header_bits(h: u32)
    ensures
        header_len(h) == h % 0x8000_0000,
        header_compressed(h) == (h >= 0x8000_0000),
        header_compressed(frame_header(header_len(h) as nat, true)),
        (h | 0x8000_0000u32) >= 0x8000_0000u32,
        h < 0x8000_0000u32 ==> (h | 0x8000_0000u32) % 0x8000_0000 == h,
{
    assert(h & 0x7fff_ffffu32 == h % 0x8000_0000u32) by (bit_vector);
    assert((h & 0x8000_0000u32 == 0x8000_0000u32) == (h >= 0x8000_0000u32)) by (bit_vector);
    assert((h | 0x8000_0000u32) >= 0x8000_0000u32) by (bit_vector);
    assert(h < 0x8000_0000u32 ==> (h | 0x8000_0000u32) % 0x8000_0000u32 == h) by (bit_vector);
    let l = h & 0x7fff_ffffu32;
    assert(((l | 0x8000_0000u32) & 0x8000_0000u32) == 0x8000_0000u32) by (bit_vector);
    assert(header_len(h) as nat as u32 == l);
}

/// The frame `encode_frame` writes for a payload under `MAX_FRAME`, read
/// straight off its bytes: the first byte has its top bit set exactly when
/// the payload is longer than `COMPRESSION_LIMIT`; a payload up to the limit
/// follows the header as it is, and the header's length field is its length;
/// a longer one is replaced by its gzip compression, whose length the field
/// holds (where it is under 2^31).
pub proof fn lemma_encoded_frame_fields(payload: Seq<u8>)
    requires
        payload.len() < MAX_FRAME,
    ensures
        ({
            let f = encoded_frame(payload);
            let field = (f[0] % 128) * 0x100_0000int + f[1] * 0x1_0000int + f[2] * 0x100int + f[3];
            &&& f.len() >= LEN_LEN
            &&& (f[0] >= 128) == (payload.len() > COMPRESSION_LIMIT)
            &&& payload.len() <= COMPRESSION_LIMIT ==> f.skip(LEN_LEN as int) == payload && field
                == payload.len()
            &&& payload.len() > COMPRESSION_LIMIT ==> f.skip(LEN_LEN as int) == gzip_output(payload) && (
            gzip_output(payload).len() < 0x8000_0000 ==> field == gzip_output(payload).len())
        }),
{
    let c = should_compress(payload.len());
    let body = if c { gzip_output(payload) } else { payload };
    let h = frame_header(body.len(), c);
    let f = encoded_frame(payload);
    assert(f == be_u32_bytes(h) + body);
    lemma_be_u32_roundtrip(h);
    assert(f.take(4) =~= be_u32_bytes(h));
    assert(front_header(f) == h);
    assert(f.skip(4) =~= body);
    lemma_header_word(f);
    lemma_header_bits(h);
    if c {
        let l = body.len() as u32;
        lemma_header_bits(l);
        if body.len() < 0x8000_0000 {
            assert(l == body.len());
        }
    } else {
        assert(h == payload.len());
    }
}

/// No proper prefix of a frame is a whole frame: a buffer holding only the
/// first `k` bytes of the frame of `payload` is shorter than its four header
/// bytes plus the body length the header announces.
pub proof fn lemma_prefix_is_not_a_frame(payload: Seq<u8>, k: nat)
    requires
        frame_fits(payload),
        k < encoded_frame(payload).len(),
    ensures
        ({
            let f = encoded_frame(payload).take(k as int);
            f.len() < LEN_LEN || f.len() < LEN_LEN + (f[0] % 128) * 0x100_0000int + f[1] * 0x1_0000int
                + f[2] * 0x100int + f[3]
        }),
{
    let e = encoded_frame(payload);
    let f = e.take(k as int);
    lemma_encoded_frame_fields(payload);
    if f.len() >= 4 {
        assert(f[0] == e[0] && f[1] == e[1] && f[2] == e[2] && f[3] == e[3]);
    }
}

/// A buffer starts with a whole frame exactly when it holds the four header
/// bytes and at least as many more as the header's length field announces.
pub proof fn lemma_frame_available_fields(b: Seq<u8>)
    ensures
        frame_available(b) <==> (b.len() >= LEN_LEN && b.len() >= LEN_LEN + (b[0] % 128) * 0x100_0000int
            + b[1] * 0x1_0000int + b[2] * 0x100int + b[3]),
{
    if b.len() >= LEN_LEN {
        lemma_header_word(b);
    }
}

/// A payload is sent compressed exactly when it is longer than
/// `COMPRESSION_LIMIT` (1436) bytes.
pub proof fn lemma_compressed_exactly_over_limit(size: nat)
    ensures
        should_compress(size) <==> size > 1436,
{
}

/// Reads the header word: the body length and whether the body is compressed.
pub fn decode_header(header: u32) -> (r: (usize, bool))
    ensures
        r.0 == header_len(header),
        r.1 == header_compressed(header),
        r.0 == header % 0x8000_0000,
        r.1 == (header >= 0x8000_0000),
{
    proof {
        lemma_header_bits(header);
    }
    let bit: u32 = COMPRESSION_BIT as u32;
    let mask: u32 = !bit;
    assert(bit == 0x8000_0000u32);
    assert(mask == 0x7fff_ffffu32) by (bit_vector)
        requires
            bit == 0x8000_0000u32,
            mask == !bit,
    ;
    let len = (header & mask) as usize;
    let compressed = header & bit == bit;
    (len, compressed)
}

/// Appends the frame of `payload` to `buf`, after what the buffer held.
///
/// A payload of `MAX_FRAME` bytes or more is refused with `FrameError` and
/// the buffer is left as it was; no other error occurs. Up to
/// `COMPRESSION_LIMIT` bytes, the header and the payload are appended. Above
/// that the payload is gzip-compressed: the four length bytes written for it
/// are taken away again, and a header that announces the compressed length
/// is appended with the compressed body. Either way `encoded_frame(payload)`
/// follows the old contents.
///
/// The appended frame delimits itself: its header announces the length of
/// the body that follows and marks exactly the compressed ones (for a
/// compressed body under 2^31 bytes; a longer one does not fit the 31-bit
/// length).
pub fn encode_frame(payload: &[u8], buf: &mut BytesMut) -> (r: Result<(), KvError>)
    ensures
        r is Ok <==> payload@.len() < MAX_FRAME,
        r is Err ==> (r matches Err(KvError::FrameError)),
        r is Err ==> buffer_bytes(*final(buf)) == buffer_bytes(*old(buf)),
        r is Ok ==> buffer_bytes(*final(buf)) == buffer_bytes(*old(buf)) + encoded_frame(payload@),
        r is Ok && frame_fits(payload@) ==> frame_self_delimiting(
            buffer_bytes(*final(buf)).skip(buffer_bytes(*old(buf)).len() as int),
            payload@,
        ),
        r is Ok ==> ({
            let f = buffer_bytes(*final(buf)).skip(buffer_bytes(*old(buf)).len() as int);
            let field = (f[0] % 128) * 0x100_0000int + f[1] * 0x1_0000int + f[2] * 0x100int + f[3];
            &&& buffer_bytes(*final(buf)).take(buffer_bytes(*old(buf)).len() as int) == buffer_bytes(*old(buf))
            &&& f.len() >= LEN_LEN
            &&& (f[0] >= 128) == (payload@.len() > COMPRESSION_LIMIT)
            &&& payload@.len() <= COMPRESSION_LIMIT ==> f.skip(LEN_LEN as int) == payload@ && field
                == payload@.len()
            &&& payload@.len() > COMPRESSION_LIMIT ==> f.skip(LEN_LEN as int) == gzip_output(payload@) && (
            gzip_output(payload@).len() < 0x8000_0000 ==> field == gzip_output(payload@).len())
        }),
{
    let size = payload.len();
    if size >= MAX_FRAME {
        return Err(KvError::FrameError);
    }
    let held = buffer_len(buf);
    buffer_put_u32(buf, size as u32);
    if size > COMPRESSION_LIMIT {
        // take the four length bytes away again, and compress into their place
        let mut rest = buffer_split_off(buf, held);
        buffer_clear(&mut rest);
        match gzip_append(rest, payload) {
            Ok(compressed) => {
                let body_len = buffer_len(&compressed);
                let header: u32 = (body_len as u32) | (COMPRESSION_BIT as u32);
                assert(header == frame_header(body_len as nat, true));
                buffer_put_u32(buf, header);
                buffer_unsplit(buf, compressed);
                proof {
                    assert(buffer_bytes(*buf) =~= buffer_bytes(*old(buf)) + encoded_frame(payload@));
                }
            },
            Err(e) => {
                return Err(KvError::IoError(io_error_text(e)));
            },
        }
    } else {
        buffer_extend(buf, payload);
        proof {
            assert(frame_header(size as nat, false) == size as u32);
            assert(buffer_bytes(*buf) =~= buffer_bytes(*old(buf)) + encoded_frame(payload@));
        }
    }
    proof {
        assert(buffer_bytes(*buf).skip(buffer_bytes(*old(buf)).len() as int) =~= encoded_frame(
            payload@,
        ));
        assert(buffer_bytes(*buf).take(buffer_bytes(*old(buf)).len() as int) =~= buffer_bytes(*old(buf)));
        lemma_encoded_frame_fields(payload@);
        if frame_fits(payload@) {
            lemma_frame_self_delimiting(payload@);
        }
    }
    Ok(())
}

/// Takes the frame at the front of `buf` and gives its payload.
///
/// Where `buf` does not start with a whole frame (fewer than four bytes, or
/// fewer body bytes than the header announces) the error is `FrameError`;
/// where a compressed body does not decompress it is `IoError`; in both
/// cases the buffer is left as it was. Otherwise the frame is removed from
/// the front of the buffer and its payload returned, decompressed where the
/// header marks it. In particular, a buffer that starts with the frame that
/// `encode_frame` writes for a payload gives that payload back, and keeps
/// what followed the frame.
pub fn decode_frame(buf: &mut BytesMut) -> (r: Result<Vec<u8>, KvError>)
    ensures
        !frame_available(buffer_bytes(*old(buf))) ==> (r matches Err(KvError::FrameError))
            && buffer_bytes(*final(buf)) == buffer_bytes(*old(buf)),
        frame_available(buffer_bytes(*old(buf))) && frame_payload(buffer_bytes(*old(buf))) is None
            ==> (r matches Err(KvError::IoError(_)))
            && buffer_bytes(*final(buf)) == buffer_bytes(*old(buf)),
        frame_available(buffer_bytes(*old(buf))) && frame_payload(buffer_bytes(*old(buf))) is Some
            ==> (r matches Ok(v) && frame_payload(buffer_bytes(*old(buf))) == Some(v@))
            && buffer_bytes(*final(buf)) == frame_rest(buffer_bytes(*old(buf))),
        forall|payload: Seq<u8>|
            #![trigger encoded_frame(payload)]
            frame_fits(payload) && starts_with_frame(buffer_bytes(*old(buf)), payload)
            ==> (r matches Ok(v) && v@ == payload) && buffer_bytes(*final(buf))
            == buffer_bytes(*old(buf)).skip(encoded_frame(payload).len() as int),
        ({
            let b = buffer_bytes(*old(buf));
            let n = (b[0] % 128) * 0x100_0000int + b[1] * 0x1_0000int + b[2] * 0x100int + b[3];
            &&& (b.len() < LEN_LEN || b.len() < LEN_LEN + n) ==> (r matches Err(KvError::FrameError))
                && buffer_bytes(*final(buf)) == b
            &&& r is Ok ==> b.len() >= LEN_LEN + n && buffer_bytes(*final(buf)) == b.skip(LEN_LEN + n)
            &&& r matches Ok(v) ==> (b[0] < 128 ==> v@ == b.subrange(LEN_LEN as int, LEN_LEN + n)) && (
            b[0] >= 128 ==> gunzip_output(b.subrange(LEN_LEN as int, LEN_LEN + n)) == Some(v@))
        }),
{
    let ghost b = buffer_bytes(*buf);
    proof {
        if b.len() >= LEN_LEN {
            lemma_header_word(b);
        }
    }
    let total = buffer_len(buf);
    if total < LEN_LEN {
        proof {
            lemma_no_frame_prefix(b);
        }
        return Err(KvError::FrameError);
    }
    let bytes = buffer_as_slice(buf);
    let header: u32 = (bytes[0] as u32) * 0x100_0000 + (bytes[1] as u32) * 0x1_0000
        + (bytes[2] as u32) * 0x100 + (bytes[3] as u32);
    assert(header == front_header(b));
    let (len, compressed) = decode_header(header);
    if total - LEN_LEN < len {
        proof {
            lemma_no_frame_prefix(b);
        }
        return Err(KvError::FrameError);
    }
    let body = slice_subrange(bytes, LEN_LEN, LEN_LEN + len);
    assert(body@ == frame_body(b));
    let payload = if compressed {
        match gunzip(body) {
            Ok(v) => v,
            Err(e) => {
                proof {
                    lemma_no_frame_prefix(b);
                }
                return Err(KvError::IoError(io_error_text(e)));
            },
        }
    } else {
        slice_to_vec(body)
    };
    buffer_advance(buf, LEN_LEN + len);
    proof {
        assert(buffer_bytes(*buf) =~= frame_rest(b));
        assert forall|p: Seq<u8>|
            #![trigger encoded_frame(p)]
            frame_fits(p) && starts_with_frame(b, p) implies payload@ == p
                && frame_rest(b) == b.skip(encoded_frame(p).len() as int) by {
            lemma_frame_split(b, p);
        }
    }
    Ok(payload)
}

} // verus!

use std::io::Read;
use bytes::BytesMut;
use kv::error::KvError;
use kv::network::frame::{decode_frame, decode_header, encode_frame, COMPRESSION_BIT, COMPRESSION_LIMIT, LEN_LEN, MAX_FRAME};

#[test]
fn constants_have_their_values() {
    assert_eq!(LEN_LEN, 4);
    assert_eq!(MAX_FRAME, 2 * 1024 * 1024 * 1024);
    assert_eq!(COMPRESSION_LIMIT, 1436);
    assert_eq!(COMPRESSION_BIT, 1 << 31);
}

#[test]
fn small_payload_is_written_with_its_length() {
    let mut buf = BytesMut::new();
    encode_frame(b"hello", &mut buf).unwrap();
    assert_eq!(&buf[..], b"\x00\x00\x00\x05hello");
}

#[test]
fn small_payload_is_appended_after_what_the_buffer_held() {
    let mut buf = BytesMut::from(&b"ab"[..]);
    encode_frame(b"xyz", &mut buf).unwrap();
    assert_eq!(&buf[..], b"ab\x00\x00\x00\x03xyz");
}

#[test]
fn empty_payload_gives_a_bare_header() {
    let mut buf = BytesMut::new();
    encode_frame(b"", &mut buf).unwrap();
    assert_eq!(&buf[..], b"\x00\x00\x00\x00");
}

#[test]
fn payload_at_the_limit_is_not_compressed() {
    let payload = vec![7u8; COMPRESSION_LIMIT];
    let mut buf = BytesMut::new();
    encode_frame(&payload, &mut buf).unwrap();
    assert_eq!(buf.len(), LEN_LEN + COMPRESSION_LIMIT);
    assert_eq!(&buf[..4], &(COMPRESSION_LIMIT as u32).to_be_bytes());
    assert_eq!(&buf[4..], &payload[..]);
}

#[test]
fn payload_over_the_limit_is_compressed() {
    let payload = vec![0u8; 16384];
    let mut buf = BytesMut::new();
    encode_frame(&payload, &mut buf).unwrap();
    let header = u32::from_be_bytes([buf[0], buf[1], buf[2], buf[3]]);
    let (len, compressed) = decode_header(header);
    assert!(compressed);
    assert_eq!(len, buf.len() - LEN_LEN);
    assert!(len < payload.len());
    // a gzip stream starts with its magic bytes
    assert_eq!(&buf[4..6], &[0x1f, 0x8b]);
}

#[test]
fn small_frame_reads_back() {
    let mut buf = BytesMut::new();
    encode_frame(b"a command", &mut buf).unwrap();
    let payload = decode_frame(&mut buf).unwrap();
    assert_eq!(payload, b"a command".to_vec());
    assert!(buf.is_empty());
}

#[test]
fn compressed_frame_reads_back() {
    let payload: Vec<u8> = (0..20000u32).map(|i| (i % 251) as u8).collect();
    let mut buf = BytesMut::new();
    encode_frame(&payload, &mut buf).unwrap();
    let back = decode_frame(&mut buf).unwrap();
    assert_eq!(back, payload);
    assert!(buf.is_empty());
}

#[test]
fn frames_read_back_one_after_another() {
    let big = vec![3u8; 5000];
    let mut first = BytesMut::new();
    encode_frame(&big, &mut first).unwrap();
    let mut second = BytesMut::new();
    encode_frame(b"second", &mut second).unwrap();
    let mut buf = BytesMut::new();
    buf.extend_from_slice(&first);
    buf.extend_from_slice(&second);
    buf.extend_from_slice(b"tail");
    assert_eq!(decode_frame(&mut buf).unwrap(), big);
    assert_eq!(decode_frame(&mut buf).unwrap(), b"second".to_vec());
    assert_eq!(&buf[..], b"tail");
}

#[test]
fn short_header_is_a_frame_error() {
    let mut buf = BytesMut::from(&b"\x00\x00\x01"[..]);
    assert!(matches!(decode_frame(&mut buf), Err(KvError::FrameError)));
    assert_eq!(&buf[..], b"\x00\x00\x01");
}

#[test]
fn short_body_is_a_frame_error() {
    let mut buf = BytesMut::from(&b"\x00\x00\x00\x05abc"[..]);
    assert!(matches!(decode_frame(&mut buf), Err(KvError::FrameError)));
    assert_eq!(&buf[..], b"\x00\x00\x00\x05abc");
}

#[test]
fn bad_compressed_body_is_an_io_error() {
    let mut buf = BytesMut::from(&b"\x80\x00\x00\x03abc"[..]);
    assert!(matches!(decode_frame(&mut buf), Err(KvError::IoError(_))));
    assert_eq!(&buf[..], b"\x80\x00\x00\x03abc");
}

#[test]
fn header_words_are_read() {
    assert_eq!(decode_header(5), (5, false));
    assert_eq!(decode_header(0x8000_0005), (5, true));
    assert_eq!(decode_header(0xffff_ffff), (0x7fff_ffff, true));
    assert_eq!(decode_header(0), (0, false));
}

#[test]
fn payload_just_over_the_limit_is_compressed_with_its_body_length() {
    let payload = vec![0u8; COMPRESSION_LIMIT + 1];
    let mut buf = BytesMut::new();
    assert!(encode_frame(&payload, &mut buf).is_ok());
    let header = u32::from_be_bytes([buf[0], buf[1], buf[2], buf[3]]);
    assert_eq!(header & 0x8000_0000, 0x8000_0000);
    assert_eq!((header & 0x7fff_ffff) as usize, buf.len() - LEN_LEN);
    let mut out = Vec::new();
    flate2::read::GzDecoder::new(&buf[LEN_LEN..]).read_to_end(&mut out).unwrap();
    assert_eq!(out, payload);
}

#[test]
fn small_frame_after_other_bytes_delimits_itself() {
    let mut buf = BytesMut::from(&b"xyz"[..]);
    encode_frame(b"abcd", &mut buf).unwrap();
    let header = u32::from_be_bytes([buf[3], buf[4], buf[5], buf[6]]);
    assert_eq!(header, 4);
    assert_eq!(buf.len() - 3 - LEN_LEN, 4);
}

#[test]
fn compressed_frame_is_appended_after_what_the_buffer_held() {
    let payload = vec![5u8; 3000];
    let mut alone = BytesMut::new();
    encode_frame(&payload, &mut alone).unwrap();
    let mut buf = BytesMut::from(&b"held"[..]);
    encode_frame(&payload, &mut buf).unwrap();
    assert_eq!(&buf[..4], b"held");
    assert_eq!(&buf[4..], &alone[..]);
    let mut frame = buf.split_off(4);
    assert_eq!(decode_frame(&mut frame).unwrap(), payload);
    assert!(frame.is_empty());
}

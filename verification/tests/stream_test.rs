use kv::error::KvError;
use kv::network::stream::ProstStream;

#[test]
fn sent_frames_are_read_back() {
    let mut stream = ProstStream::new(Vec::<u8>::new());
    stream.start_send(b"hdel t1 k1").unwrap();
    // write the pending bytes to the inner stream in two pieces
    while !stream.is_flushed() {
        let pending = stream.unwritten();
        let n = pending.len().min(3);
        stream.stream_mut().extend_from_slice(&pending[..n]);
        stream.record_written(n);
    }
    stream.finish_flush();
    assert!(stream.unwritten().is_empty());
    let wire = stream.stream_mut().clone();
    assert_eq!(wire, b"\x00\x00\x00\x0ahdel t1 k1".to_vec());

    let mut reader = ProstStream::new(());
    assert!(reader.read_buffer_is_empty());
    reader.receive(&wire);
    assert_eq!(reader.next_payload().unwrap(), b"hdel t1 k1".to_vec());
    assert!(reader.read_buffer_is_empty());
}

#[test]
fn large_sent_frame_is_read_back() {
    let payload = vec![0u8; 16384];
    let mut stream = ProstStream::new(());
    stream.start_send(&payload).unwrap();
    let wire = stream.unwritten();
    assert!(wire.len() < payload.len());
    let mut reader = ProstStream::new(());
    reader.receive(&wire);
    assert_eq!(reader.next_payload().unwrap(), payload);
}

#[test]
fn incomplete_frame_is_not_taken() {
    let mut reader = ProstStream::new(());
    reader.receive(b"\x00\x00\x00\x09abc");
    assert!(matches!(reader.next_payload(), Err(KvError::FrameError)));
    assert!(!reader.read_buffer_is_empty());
}

#[test]
fn record_written_counts_bytes() {
    let mut stream = ProstStream::new(());
    stream.start_send(b"abcdef").unwrap();
    assert_eq!(stream.unwritten().len(), 10);
    stream.record_written(4);
    assert_eq!(stream.unwritten(), b"abcdef".to_vec());
    assert!(!stream.is_flushed());
    stream.record_written(6);
    assert!(stream.is_flushed());
}

#[test]
fn written_steps_add_up() {
    let mut stream = ProstStream::new(Vec::<u8>::new());
    stream.start_send(b"0123456789").unwrap();
    let mut out = Vec::new();
    for n in [1usize, 5, 0, 7, 1] {
        let pending = stream.unwritten();
        out.extend_from_slice(&pending[..n]);
        stream.record_written(n);
    }
    assert!(stream.is_flushed());
    assert_eq!(out, b"\x00\x00\x00\x0a0123456789".to_vec());
}

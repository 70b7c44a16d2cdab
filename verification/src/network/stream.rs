//! The buffers of a stream that carries frames: what is waiting to be
//! written, how much of it has been, and what has been read.
//!
//! The reading and writing themselves are done by whoever drives the
//! stream; the decisions about the buffers are made here.

use bytes::BytesMut;
use vstd::prelude::*;
use vstd::slice::{slice_subrange, slice_to_vec};
use crate::error::KvError;
use crate::network::buffer::{
    buffer_as_slice, buffer_bytes, buffer_clear, buffer_extend, buffer_len, buffer_new,
};
use crate::network::frame::{
    decode_frame, encode_frame, encoded_frame, frame_available, frame_fits,
    frame_payload, frame_rest, frame_self_delimiting, starts_with_frame, MAX_FRAME,
};

verus! {

/// The total of the byte counts `ns`.
pub open spec fn total_written(ns: Seq<usize>) -> nat
    decreases ns.len(),
{
    if ns.len() == 0 {
        0
    } else {
        total_written(ns.drop_last()) + ns.last() as nat
    }
}

/// The bytes that successive writes hand out of `buf` when `written` bytes
/// already count as written and the steps write `ns[0]`, `ns[1]`, ... bytes,
/// each starting where the previous one stopped (the first `n` of what
/// `unwritten` gives, then `record_written(n)`).
pub open spec fn bytes_handed_out(buf: Seq<u8>, written: nat, ns: Seq<usize>) -> Seq<u8>
    decreases ns.len(),
{
    if ns.len() == 0 {
        Seq::empty()
    } else {
        let before = written + total_written(ns.drop_last());
        bytes_handed_out(buf, written, ns.drop_last()) + buf.subrange(before as int, before + ns.last() as int)
    }
}

/// Steps of `record_written` add up: after steps of `ns[0]`, `ns[1]`, ...
/// bytes from a count of `written`, the count is `written` plus their total,
/// and the bytes the steps handed out are exactly the next ones of the
/// buffer, in order, none twice and none skipped.
pub proof fn lemma_writes_add_up(buf: Seq<u8>, written: nat, ns: Seq<usize>)
    requires
        written + total_written(ns) <= buf.len(),
    ensures
        bytes_handed_out(buf, written, ns) == buf.subrange(
            written as int,
            written + total_written(ns) as int,
        ),
    decreases ns.len(),
{
    if ns.len() > 0 {
        let before = written + total_written(ns.drop_last());
        lemma_writes_add_up(buf, written, ns.drop_last());
        assert(buf.subrange(written as int, before as int) + buf.subrange(before as int, before + ns.last() as int)
            =~= buf.subrange(written as int, written + total_written(ns) as int));
    } else {
        assert(buf.subrange(written as int, written as int) =~= Seq::<u8>::empty());
    }
}

/// What remains to be written is the write buffer from the written count
/// on: all the bytes queued and not yet written, every frame of them.
pub proof fn lemma_unwritten_is_the_rest<S>(s: ProstStream<S>)
    requires
        s.wf(),
    ensures
        s.unwritten_bytes() == s.write_buffer().subrange(s.written() as int, s.write_buffer().len() as int),
        s.unwritten_bytes().len() == s.write_buffer().len() - s.written(),
{
    assert(s.unwritten_bytes() =~= s.write_buffer().subrange(s.written() as int, s.write_buffer().len() as int));
}

/// A stream together with its write buffer, the count of bytes of it already
/// written, and its read buffer.
pub struct ProstStream<S> {
    stream: S,
    wbuf: BytesMut,
    written: usize,
    rbuf: BytesMut,
}

impl<S> ProstStream<S> {
    /// The inner stream.
    pub closed spec fn inner(&self) -> S {
        self.stream
    }

    /// The bytes waiting to be written, those already written included.
    pub closed spec fn write_buffer(&self) -> Seq<u8> {
        buffer_bytes(self.wbuf)
    }

    /// How many bytes of the write buffer have been written.
    pub closed spec fn written(&self) -> nat {
        self.written as nat
    }

    /// The bytes read and not yet decoded.
    pub closed spec fn read_buffer(&self) -> Seq<u8> {
        buffer_bytes(self.rbuf)
    }

    /// No more bytes count as written than the write buffer holds.
    pub open spec fn wf(&self) -> bool {
        self.written() <= self.write_buffer().len()
    }

    /// The bytes of the write buffer not yet written.
    pub open spec fn unwritten_bytes(&self) -> Seq<u8> {
        self.write_buffer().skip(self.written() as int)
    }

    /// Wraps `stream`, with both buffers empty.
    pub fn new(stream: S) -> (s: Self)
        ensures
            s.wf(),
            s.inner() == stream,
            s.write_buffer() == Seq::<u8>::empty(),
            s.written() == 0,
            s.read_buffer() == Seq::<u8>::empty(),
    {
        ProstStream { stream, wbuf: buffer_new(), written: 0, rbuf: buffer_new() }
    }

    /// The inner stream, to read from or write to.
    pub fn stream_mut(&mut self) -> (r: &mut S)
        ensures
            *r == old(self).inner(),
            final(self).inner() == *final(r),
            final(self).write_buffer() == old(self).write_buffer(),
            final(self).written() == old(self).written(),
            final(self).read_buffer() == old(self).read_buffer(),
    {
        &mut self.stream
    }

    /// Queues the frame of `payload` behind what the write buffer holds, as
    /// `encode_frame` does; the count of written bytes stays.
    pub fn start_send(&mut self, payload: &[u8]) -> (r: Result<(), KvError>)
        requires
            old(self).wf(),
        ensures
            final(self).inner() == old(self).inner(),
            final(self).written() == old(self).written(),
            final(self).read_buffer() == old(self).read_buffer(),
            r is Ok <==> payload@.len() < MAX_FRAME,
            r is Err ==> (r matches Err(KvError::FrameError)),
            r is Err ==> final(self).write_buffer() == old(self).write_buffer(),
            r is Ok ==> final(self).write_buffer() == old(self).write_buffer() + encoded_frame(payload@),
            r is Ok && frame_fits(payload@) ==> frame_self_delimiting(
                final(self).write_buffer().skip(old(self).write_buffer().len() as int),
                payload@,
            ),
            final(self).wf(),
    {
        encode_frame(payload, &mut self.wbuf)
    }

    /// Whether no more bytes count as written than the write buffer holds.
    pub fn written_in_range(&self) -> (b: bool)
        ensures
            b == self.wf(),
    {
        self.written <= buffer_len(&self.wbuf)
    }

    /// Whether every byte of the write buffer has been written.
    pub fn is_flushed(&self) -> (b: bool)
        ensures
            b == (self.written() == self.write_buffer().len()),
    {
        self.written == buffer_len(&self.wbuf)
    }

    /// A copy of the bytes of the write buffer not yet written.
    pub fn unwritten(&self) -> (v: Vec<u8>)
        requires
            self.wf(),
        ensures
            v@ == self.unwritten_bytes(),
            v@ == self.write_buffer().subrange(self.written() as int, self.write_buffer().len() as int),
            v@.len() == self.write_buffer().len() - self.written(),
    {
        let all = buffer_as_slice(&self.wbuf);
        let rest = slice_subrange(all, self.written, all.len());
        slice_to_vec(rest)
    }

    /// Counts `n` more bytes of the write buffer as written.
    pub fn record_written(&mut self, n: usize)
        requires
            old(self).wf(),
            n <= old(self).unwritten_bytes().len(),
        ensures
            final(self).wf(),
            final(self).written() == old(self).written() + n,
            final(self).write_buffer() == old(self).write_buffer(),
            final(self).inner() == old(self).inner(),
            final(self).read_buffer() == old(self).read_buffer(),
    {
        let total = buffer_len(&self.wbuf);
        assert(self.written + n <= total);
        self.written = self.written + n;
    }

    /// Empties the write buffer once it has all been written.
    pub fn finish_flush(&mut self)
        ensures
            final(self).wf(),
            final(self).written() == 0,
            final(self).write_buffer() == Seq::<u8>::empty(),
            final(self).inner() == old(self).inner(),
            final(self).read_buffer() == old(self).read_buffer(),
    {
        buffer_clear(&mut self.wbuf);
        self.written = 0;
    }

    /// Whether the read buffer is empty.
    pub fn read_buffer_is_empty(&self) -> (b: bool)
        ensures
            b == (self.read_buffer().len() == 0),
    {
        buffer_len(&self.rbuf) == 0
    }

    /// Appends bytes read from the stream to the read buffer.
    pub fn receive(&mut self, bytes: &[u8])
        ensures
            final(self).read_buffer() == old(self).read_buffer() + bytes@,
            final(self).inner() == old(self).inner(),
            final(self).write_buffer() == old(self).write_buffer(),
            final(self).written() == old(self).written(),
    {
        buffer_extend(&mut self.rbuf, bytes);
    }

    /// Takes the frame at the front of the read buffer and gives its payload,
    /// as `decode_frame` does.
    pub fn next_payload(&mut self) -> (r: Result<Vec<u8>, KvError>)
        ensures
            final(self).inner() == old(self).inner(),
            final(self).write_buffer() == old(self).write_buffer(),
            final(self).written() == old(self).written(),
            !frame_available(old(self).read_buffer()) ==> (r matches Err(KvError::FrameError))
                && final(self).read_buffer() == old(self).read_buffer(),
            frame_available(old(self).read_buffer()) && frame_payload(old(self).read_buffer()) is None
                ==> (r matches Err(KvError::IoError(_)))
                && final(self).read_buffer() == old(self).read_buffer(),
            frame_available(old(self).read_buffer()) && frame_payload(old(self).read_buffer()) is Some
                ==> (r matches Ok(v) && frame_payload(old(self).read_buffer()) == Some(v@))
                && final(self).read_buffer() == frame_rest(old(self).read_buffer()),
            forall|payload: Seq<u8>|
                #![trigger encoded_frame(payload)]
                frame_fits(payload) && starts_with_frame(old(self).read_buffer(), payload)
                ==> (r matches Ok(v) && v@ == payload) && final(self).read_buffer()
                == old(self).read_buffer().skip(encoded_frame(payload).len() as int),
    {
        decode_frame(&mut self.rbuf)
    }
}

} // verus!

//! Readers and writers of byte chunks.
use std::collections::VecDeque;

use bytes::Bytes;
use vstd::prelude::*;

use crate::buffer;
use crate::buffer::contents;
use crate::error::{IoError, IoResult};
use crate::pump::up_to;
use crate::raw::{delivered, raw_rest, RawSource};

verus! {

/// What one `read` hands out: a chunk's bytes, or a failure. An empty chunk is
/// the end of the stream.
pub type Event = Result<Seq<u8>, IoError>;

/// The event that the result of a `read` stands for.
pub open spec fn event_of(result: IoResult<Bytes>) -> Event {
    match result {
        Ok(chunk) => Ok(contents(chunk)),
        Err(e) => Err(e),
    }
}

/// The end of a stream, as an event.
pub open spec fn end_of_stream() -> Event {
    Ok(Seq::<u8>::empty())
}

/// Owned-buffer reader that yields refcounted chunks.
///
/// Nothing is known of what a stream will hand out, but that nothing comes after
/// its end. The contract of `read` only gives it a name, so that what is done
/// with it can be told exactly; an implementation outside this crate is taken
/// at its word.
pub trait ByteStream {
    /// What the `i`-th `read` from now will hand out.
    closed spec fn upcoming(&self, i: nat) -> Event {
        arbitrary()
    }

    /// Returns the next chunk of bytes. A chunk that is not empty is data, an
    /// empty one is the end of the stream, after which every read gives the
    /// end again. The caller does not control the size of a chunk.
    fn read(&mut self) -> (result: IoResult<Bytes>)
        ensures
            event_of(result) == old(self).upcoming(0),
            forall|i: nat| #[trigger] final(self).upcoming(i) == old(self).upcoming(i + 1),
            (result matches Ok(chunk) && contents(chunk).len() == 0) ==> forall|i: nat| #[trigger]
                final(self).upcoming(i) == end_of_stream(),
    ;
}

/// A boxed stream, of a known type or not, is a stream.
impl<S: ByteStream + ?Sized> ByteStream for Box<S> {
    open spec fn upcoming(&self, i: nat) -> Event {
        (**self).upcoming(i)
    }

    fn read(&mut self) -> (result: IoResult<Bytes>) {
        (**self).read()
    }
}

/// Owned-buffer writer.
///
/// Nothing is known of what a sink will answer; an answer may depend on all that
/// was written before. The contracts only give the answers a name, and say that
/// a write that succeeds is one in full and that a finished sink takes no more.
/// Of the bytes that a sink holds after a write that failed they say nothing.
pub trait ByteSink {
    /// The bytes that have been written in full so far.
    closed spec fn accepted(&self) -> Seq<u8> {
        arbitrary()
    }

    /// What a `write_all` will answer if it is given `data` and the calls from
    /// now up to it are given `written`, one after the other.
    closed spec fn reply(&self, written: Seq<Seq<u8>>, data: Seq<u8>) -> IoResult<()> {
        arbitrary()
    }

    /// What a `finish` now would answer.
    closed spec fn finish_reply(&self) -> IoResult<()> {
        arbitrary()
    }

    /// Writes `buf` in full.
    fn write_all(&mut self, buf: Bytes) -> (result: IoResult<()>)
        ensures
            result == old(self).reply(Seq::empty(), contents(buf)),
            forall|written: Seq<Seq<u8>>, data: Seq<u8>| #[trigger]
                final(self).reply(written, data) == old(self).reply(
                    seq![contents(buf)] + written,
                    data,
                ),
            result is Ok ==> final(self).accepted() == old(self).accepted() + contents(buf),
    ;

    /// Flushes what is buffered and finalises. After that no more writes are
    /// accepted: one with bytes in it fails.
    fn finish(&mut self) -> (result: IoResult<()>)
        ensures
            result == old(self).finish_reply(),
            result is Ok ==> forall|written: Seq<Seq<u8>>, data: Seq<u8>|
                data.len() > 0 ==> (#[trigger] final(self).reply(written, data)) is Err,
    ;
}

/// Exposes a `Vec<u8>` as a stream: one chunk with all of it, then the end.
pub struct VecByteStream {
    buf: Bytes,
}

impl VecByteStream {
    /// The bytes that are still to be read.
    pub closed spec fn rest(&self) -> Seq<u8> {
        contents(self.buf)
    }

    /// A stream of the bytes of `buf`.
    pub fn new(buf: Vec<u8>) -> (stream: Self)
        ensures
            stream.rest() == buf@,
    {
        Self { buf: buffer::freeze(buf) }
    }
}

impl ByteStream for VecByteStream {
    open spec fn upcoming(&self, i: nat) -> Event {
        if i == 0 {
            Ok(self.rest())
        } else {
            end_of_stream()
        }
    }

    /// Yields all that is left in one chunk.
    fn read(&mut self) -> (result: IoResult<Bytes>)
        ensures
            result matches Ok(chunk) && contents(chunk) == old(self).rest(),
            final(self).rest() == Seq::<u8>::empty(),
    {
        let mut out: Bytes = Bytes::new();
        std::mem::swap(&mut out, &mut self.buf);
        Ok(out)
    }
}

/// The buffer can be read raw, too: as much as is asked for, as long as there is
/// any.
impl RawSource for VecByteStream {
    open spec fn delivery(&self, asked: Seq<nat>, want: nat) -> Event {
        Ok(up_to(raw_rest(self.rest(), asked), want))
    }

    /// Copies the next bytes to the front of `buf`, at most `want` of them.
    fn read_some(&mut self, buf: Vec<u8>, want: usize) -> (done: (IoResult<usize>, Vec<u8>))
        ensures
            delivered(done) == Ok::<Seq<u8>, IoError>(up_to(old(self).rest(), want as nat)),
            final(self).rest() == old(self).rest().skip(
                up_to(old(self).rest(), want as nat).len() as int,
            ),
    {
        let mut buf: Vec<u8> = buf;
        let ghost data = self.rest();
        let len: usize = self.buf.len();
        let n: usize = if want < len { want } else { len };
        buf.clear();
        buf.extend_from_slice(buffer::as_slice(&buffer::slice(&self.buf, 0, n)));
        self.buf = buffer::slice(&self.buf, n, len);
        proof {
            assert(buf@.take(n as int) =~= up_to(data, want as nat));
            assert(self.rest() =~= data.skip(n as int));
            assert forall|asked: Seq<nat>| #[trigger]
                raw_rest(self.rest(), asked) == raw_rest(data, seq![want as nat] + asked) by {
                assert((seq![want as nat] + asked).skip(1) =~= asked);
            }
        }
        (Ok(n), buf)
    }
}

/// Exposes a chunk as a stream: the chunk, then the end.
pub struct BytesByteStream {
    buf: Bytes,
}

impl BytesByteStream {
    /// The bytes that are still to be read.
    pub closed spec fn rest(&self) -> Seq<u8> {
        contents(self.buf)
    }

    /// A stream of the bytes of `buf`.
    pub fn new(buf: Bytes) -> (stream: Self)
        ensures
            stream.rest() == contents(buf),
    {
        Self { buf }
    }
}

impl ByteStream for BytesByteStream {
    open spec fn upcoming(&self, i: nat) -> Event {
        if i == 0 {
            Ok(self.rest())
        } else {
            end_of_stream()
        }
    }

    /// Yields all that is left in one chunk.
    fn read(&mut self) -> (result: IoResult<Bytes>)
        ensures
            result matches Ok(chunk) && contents(chunk) == old(self).rest(),
            final(self).rest() == Seq::<u8>::empty(),
    {
        let mut out: Bytes = Bytes::new();
        std::mem::swap(&mut out, &mut self.buf);
        Ok(out)
    }
}

/// The frames that hold a byte, in order.
pub open spec fn filled(frames: Seq<Bytes>) -> Seq<Bytes>
    decreases frames.len(),
{
    if frames.len() == 0 {
        Seq::empty()
    } else if contents(frames[0]).len() > 0 {
        seq![frames[0]] + filled(frames.skip(1))
    } else {
        filled(frames.skip(1))
    }
}

/// Exposes a rope of chunks as a stream that yields each frame in order. An
/// empty frame holds nothing to yield, and is passed over.
pub struct RopeByteStream {
    frames: VecDeque<Bytes>,
}

impl RopeByteStream {
    /// The frames that are still to be read.
    pub closed spec fn rest(&self) -> Seq<Bytes> {
        self.frames@
    }

    /// A stream of `frames`, the first one first.
    pub fn new(frames: Vec<Bytes>) -> (stream: Self)
        ensures
            stream.rest() == frames@,
    {
        let mut left: Vec<Bytes> = frames;
        let mut queue: VecDeque<Bytes> = VecDeque::with_capacity(left.len());
        while left.len() > 0
            invariant
                left@ + queue@ == frames@,
            decreases left@.len(),
        {
            if let Some(frame) = left.pop() {
                queue.push_front(frame);
            }
        }
        Self { frames: queue }
    }
}

impl ByteStream for RopeByteStream {
    open spec fn upcoming(&self, i: nat) -> Event {
        if i < filled(self.rest()).len() {
            Ok(contents(filled(self.rest())[i as int]))
        } else {
            end_of_stream()
        }
    }

    /// Yields the next frame that holds a byte, or an empty chunk when none is
    /// left.
    fn read(&mut self) -> (result: IoResult<Bytes>)
        ensures
            filled(old(self).rest()).len() > 0 ==> result == Ok::<Bytes, IoError>(
                filled(old(self).rest())[0],
            ) && filled(final(self).rest()) == filled(old(self).rest()).skip(1),
            filled(old(self).rest()).len() == 0 ==> (result matches Ok(chunk) && contents(
                chunk,
            ).len() == 0) && final(self).rest().len() == 0,
    {
        loop
            invariant
                filled(self.rest()) == filled(old(self).rest()),
            decreases self.rest().len(),
        {
            let ghost here = self.rest();
            match self.frames.pop_front() {
                Some(frame) => {
                    assert(self.rest() =~= here.skip(1));
                    if !frame.is_empty() {
                        assert(filled(here).skip(1) =~= filled(self.rest()));
                        return Ok(frame);
                    }
                },
                None => {
                    return Ok(Bytes::new());
                },
            }
        }
    }
}

/// Sink that accumulates writes into a `Vec<u8>`.
pub struct VecByteSink {
    /// The bytes that have been written.
    pub buf: Vec<u8>,
    /// Whether the sink is finished, so that no more writes are accepted.
    pub finished: bool,
}

impl VecByteSink {
    /// An empty sink.
    pub fn new() -> (sink: Self)
        ensures
            sink.buf@ == Seq::<u8>::empty(),
            !sink.finished,
    {
        Self { buf: Vec::new(), finished: false }
    }

    /// An empty sink with room for `cap` bytes. No allocation holds more than
    /// `isize::MAX` bytes.
    pub fn with_capacity(cap: usize) -> (sink: Self)
        requires
            cap <= isize::MAX,
        ensures
            sink.buf@ == Seq::<u8>::empty(),
            !sink.finished,
    {
        Self { buf: Vec::with_capacity(cap), finished: false }
    }

    /// The bytes that have been written.
    pub fn into_inner(self) -> (buf: Vec<u8>)
        ensures
            buf == self.buf,
    {
        self.buf
    }
}

impl Default for VecByteSink {
    fn default() -> (sink: Self)
        ensures
            sink.buf@ == Seq::<u8>::empty(),
            !sink.finished,
    {
        Self::new()
    }
}

impl ByteSink for VecByteSink {
    open spec fn accepted(&self) -> Seq<u8> {
        self.buf@
    }

    open spec fn reply(&self, written: Seq<Seq<u8>>, data: Seq<u8>) -> IoResult<()> {
        if self.finished && data.len() > 0 {
            Err(IoError::Finished)
        } else {
            Ok(())
        }
    }

    open spec fn finish_reply(&self) -> IoResult<()> {
        Ok(())
    }

    /// Appends the bytes of `buf`. Fails only where there are any and the sink
    /// is finished.
    fn write_all(&mut self, buf: Bytes) -> (result: IoResult<()>)
        ensures
            final(self).finished == old(self).finished,
            old(self).finished && contents(buf).len() > 0 ==> result == Err::<(), IoError>(
                IoError::Finished,
            ) && final(self).buf == old(self).buf,
            !(old(self).finished && contents(buf).len() > 0) ==> result is Ok
                && final(self).buf@ == old(self).buf@ + contents(buf),
    {
        if self.finished && !buf.is_empty() {
            return Err(IoError::Finished);
        }
        self.buf.extend_from_slice(buffer::as_slice(&buf));
        Ok(())
    }

    /// Nothing is buffered: only notes that no more writes are accepted, and
    /// never fails.
    fn finish(&mut self) -> (result: IoResult<()>)
        ensures
            result is Ok,
            final(self).buf == old(self).buf,
            final(self).finished,
    {
        self.finished = true;
        Ok(())
    }
}

} // verus!

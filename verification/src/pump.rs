//! Moving an exact number of bytes from a source to a sink.
use bytes::Bytes;
use vstd::prelude::*;
use vstd::string::*;

use crate::buffer;
use crate::buffer::contents;
use crate::error::{IoError, IoResult};
use crate::events::{after, data_run, events_of, is_data, joined, Events};
use crate::stream::{ByteSink, ByteStream};
use crate::text::{decimal, push_decimal};

verus! {

/// The most that one read of a raw source asks for: the size of the transfer
/// buffer, 1 MiB.
pub const STREAM_CHUNK_BYTES: usize = 1_048_576;

/// The message for a source that ended when `moved` of `size` bytes were there.
pub open spec fn ended_at(who: Seq<char>, moved: nat, size: nat) -> Seq<char> {
    who + ": source ended at "@ + decimal(moved) + "/"@ + decimal(size)
}

/// The error for a source that ended early.
fn short_source(who: &str, moved: u64, size: u64) -> (error: IoError)
    ensures
        error matches IoError::UnexpectedEof(message) && message@ == ended_at(
            who@,
            moved as nat,
            size as nat,
        ),
{
    let mut message: String = String::new();
    message.append(who);
    message.append(": source ended at ");
    push_decimal(&mut message, moved);
    message.append("/");
    push_decimal(&mut message, size);
    assert(message@ =~= ended_at(who@, moved as nat, size as nat));
    IoError::UnexpectedEof(message)
}

/// How far a transfer of a given number of bytes has come.
///
/// A caller asks [`Transfer::is_complete`] whether to read on, hands what it
/// read to [`Transfer::chunk_to_write`] or [`Transfer::buffer_to_write`],
/// writes what comes back, and reports the write with [`Transfer::advance`].
pub struct Transfer {
    moved: u64,
    size: u64,
}

impl Transfer {
    /// The number of bytes that have been moved.
    pub closed spec fn moved(&self) -> nat {
        self.moved as nat
    }

    /// The number of bytes to move in all.
    pub closed spec fn size(&self) -> nat {
        self.size as nat
    }

    /// A transfer of `size` bytes that has not begun.
    pub fn new(size: u64) -> (transfer: Self)
        ensures
            transfer.moved() == 0,
            transfer.size() == size,
    {
        Self { moved: 0, size }
    }

    /// Whether all bytes have been moved.
    pub fn is_complete(&self) -> (complete: bool)
        ensures
            complete == (self.moved() >= self.size()),
    {
        self.moved >= self.size
    }

    /// What to write of the next chunk of a stream: the chunk, cut where the
    /// source delivers past the size. An empty chunk means that the source
    /// ended early.
    pub fn chunk_to_write(&self, chunk: Bytes) -> (result: IoResult<Bytes>)
        requires
            self.moved() < self.size(),
        ensures
            contents(chunk).len() == 0 ==> (result matches Err(IoError::UnexpectedEof(message))
                && message@ == ended_at("pump_n"@, self.moved(), self.size())),
            contents(chunk).len() > 0 ==> (result matches Ok(part) && contents(part)
                == up_to(contents(chunk), (self.size() - self.moved()) as nat)),
    {
        if chunk.is_empty() {
            return Err(short_source("pump_n", self.moved, self.size));
        }
        let left: u64 = self.size - self.moved;
        if chunk.len() as u64 > left {
            Ok(buffer::slice(&chunk, 0, left as usize))
        } else {
            assert(contents(chunk) =~= up_to(contents(chunk), left as nat));
            Ok(chunk)
        }
    }

    /// How many bytes to ask a raw source for.
    pub fn read_len(&self) -> (n: usize)
        requires
            self.moved() < self.size(),
        ensures
            n == request_len(self.moved(), self.size()),
    {
        let left: u64 = self.size - self.moved;
        if left < STREAM_CHUNK_BYTES as u64 {
            left as usize
        } else {
            STREAM_CHUNK_BYTES
        }
    }

    /// What to write of a transfer buffer into which a raw source has put `n`
    /// bytes. No byte means that the source ended early.
    pub fn buffer_to_write(&self, buf: Vec<u8>, n: usize) -> (result: IoResult<Bytes>)
        ensures
            n == 0 ==> (result matches Err(IoError::UnexpectedEof(message)) && message@ == ended_at(
                "pump_compio_to_sink"@,
                self.moved(),
                self.size(),
            )),
            n > 0 ==> (result matches Ok(part) && contents(part) == up_to(buf@, n as nat)),
    {
        if n == 0 {
            return Err(short_source("pump_compio_to_sink", self.moved, self.size));
        }
        let mut buf: Vec<u8> = buf;
        buf.truncate(n);
        Ok(buffer::freeze(buf))
    }

    /// Notes that `n` more bytes have been moved.
    pub fn advance(&mut self, n: usize)
        requires
            old(self).moved() + n <= u64::MAX,
        ensures
            final(self).moved() == old(self).moved() + n,
            final(self).size() == old(self).size(),
    {
        self.moved = self.moved + n as u64;
    }
}

/// The first `n` bytes of `data`, or all of it where there are no more.
pub open spec fn up_to(data: Seq<u8>, n: nat) -> Seq<u8> {
    data.take(if n < data.len() { n as int } else { data.len() as int })
}

/// What one read of a raw source asks for: what is left, at most the size of
/// the transfer buffer.
pub open spec fn request_len(moved: nat, size: nat) -> nat {
    let left = (size - moved) as nat;
    if left < STREAM_CHUNK_BYTES {
        left
    } else {
        STREAM_CHUNK_BYTES as nat
    }
}

/// What a sink will answer, by what was written before and what is written.
pub type Replies = spec_fn(Seq<Seq<u8>>, Seq<u8>) -> IoResult<()>;

/// The answers of a sink.
pub open spec fn replies_of<D: ByteSink + ?Sized>(sink: &D) -> Replies {
    |written: Seq<Seq<u8>>, data: Seq<u8>| sink.reply(written, data)
}

/// The answers that are left after `before` was written.
pub open spec fn replies_after(replies: Replies, before: Seq<Seq<u8>>) -> Replies {
    |written: Seq<Seq<u8>>, data: Seq<u8>| replies(before + written, data)
}

/// What a transfer of `size` bytes hands to the sink of the `i`-th chunk: the
/// chunk, cut where it goes past `size`.
pub open spec fn handed_on(up: Events, size: nat, i: nat) -> Seq<u8> {
    up_to(up(i)->Ok_0, (size - joined(up, i).len()) as nat)
}

/// What a transfer of `size` bytes hands to the sink of the first `k` chunks.
pub open spec fn all_handed_on(up: Events, size: nat, k: nat) -> Seq<Seq<u8>> {
    Seq::new(k, |i: int| handed_on(up, size, i as nat))
}

/// What the sink answers to what it is handed of the `i`-th chunk.
pub open spec fn answer_to(up: Events, replies: Replies, size: nat, i: nat) -> IoResult<()> {
    replies(all_handed_on(up, size, i), handed_on(up, size, i))
}

/// A transfer of `size` bytes, from a source with the events `up` to a sink
/// with the answers `replies`, that has moved `k` chunks, ends with `result`.
/// The message about a source that ended early begins with `who`.
pub open spec fn pumps(
    who: Seq<char>,
    up: Events,
    replies: Replies,
    size: nat,
    k: nat,
    result: IoResult<()>,
) -> bool {
    // `k` chunks were read and written, no more than it takes ...
    &&& data_run(up, k)
    &&& forall|i: nat| i < k ==> (#[trigger] answer_to(up, replies, size, i)) is Ok
    &&& k > 0 ==> joined(up, (k - 1) as nat).len() < size
    // ... and they are enough, or the next step failed.
    &&& match result {
        Ok(_) => joined(up, k).len() >= size,
        Err(e) => {
            &&& joined(up, k).len() < size
            &&& match up(k) {
                Err(failure) => e == failure,
                Ok(data) => if data.len() == 0 {
                    e matches IoError::UnexpectedEof(message) && message@ == ended_at(
                        who,
                        joined(up, k).len(),
                        size,
                    )
                } else {
                    answer_to(up, replies, size, k) == Err::<(), IoError>(e)
                },
            }
        },
    }
}

/// Whether a transfer that has moved `k` chunks ended because the sink failed.
pub open spec fn sink_failed(up: Events, k: nat, result: IoResult<()>) -> bool {
    result is Err && is_data(up(k))
}

/// Before the first write all answers are left.
pub(crate) proof fn lemma_no_replies_used(replies: Replies, before: Seq<Seq<u8>>)
    requires
        before.len() == 0,
    ensures
        replies_after(replies, before) == replies,
{
    assert forall|written: Seq<Seq<u8>>, data: Seq<u8>| #[trigger]
        replies_after(replies, before)(written, data) == replies(written, data) by {
        assert(before + written =~= written);
    }
    assert(replies_after(replies, before) =~= replies);
}

/// Handing on one more chunk uses one more answer.
pub(crate) proof fn lemma_replies_used(up: Events, replies: Replies, size: nat, k: nat)
    ensures
        ({
            let here = replies_after(replies, all_handed_on(up, size, k));
            let data = handed_on(up, size, k);
            &&& here(Seq::empty(), data) == answer_to(up, replies, size, k)
            &&& replies_after(here, seq![data]) == replies_after(
                replies,
                all_handed_on(up, size, k + 1),
            )
        }),
{
    let before = all_handed_on(up, size, k);
    let here = replies_after(replies, before);
    let data = handed_on(up, size, k);
    let now = all_handed_on(up, size, k + 1);
    assert(before + Seq::empty() =~= before);
    assert(now =~= before + seq![data]);
    assert forall|written: Seq<Seq<u8>>, next: Seq<u8>| #[trigger]
        replies_after(here, seq![data])(written, next) == replies_after(replies, now)(
            written,
            next,
        ) by {
        assert(before + (seq![data] + written) =~= now + written);
    }
    assert(replies_after(here, seq![data]) =~= replies_after(replies, now));
}

/// Pumps exactly `size` bytes from a stream into a sink. Fails with
/// `UnexpectedEof` on a short source.
///
/// Each chunk is handed to the sink as it comes; only one that goes past
/// `size` is cut.
pub fn pump_n<S: ByteStream + ?Sized, D: ByteSink + ?Sized>(
    src: &mut S,
    dst: &mut D,
    size: u64,
) -> (result: IoResult<()>)
    ensures
        ({
            let up = events_of(&*old(src));
            let replies = replies_of(&*old(dst));
            exists|k: nat|
                {
                    &&& #[trigger] pumps("pump_n"@, up, replies, size as nat, k, result)
                    &&& events_of(&*final(src)) == after(up, if result is Ok { k } else { k + 1 })
                    &&& replies_of(&*final(dst)) == replies_after(
                        replies,
                        all_handed_on(
                            up,
                            size as nat,
                            if sink_failed(up, k, result) { k + 1 } else { k },
                        ),
                    )
                    &&& !sink_failed(up, k, result) ==> final(dst).accepted()
                        == old(dst).accepted() + up_to(joined(up, k), size as nat)
                }
        }),
{
    let ghost up = events_of(&*src);
    let ghost replies = replies_of(&*dst);
    let ghost start = dst.accepted();
    let ghost mut k: nat = 0;
    let mut transfer: Transfer = Transfer::new(size);
    assert(events_of(&*src) =~= after(up, 0));
    proof {
        lemma_no_replies_used(replies, all_handed_on(up, size as nat, 0));
    }
    assert(dst.accepted() =~= start + up_to(joined(up, 0), size as nat));
    while !transfer.is_complete()
        invariant
            up == events_of(&*old(src)),
            replies == replies_of(&*old(dst)),
            start == old(dst).accepted(),
            events_of(&*src) == after(up, k),
            replies_of(&*dst) == replies_after(replies, all_handed_on(up, size as nat, k)),
            data_run(up, k),
            forall|i: nat|
                i < k ==> (#[trigger] answer_to(up, replies, size as nat, i)) is Ok,
            k > 0 ==> joined(up, (k - 1) as nat).len() < size,
            transfer.size() == size,
            transfer.moved() == up_to(joined(up, k), size as nat).len(),
            dst.accepted() == start + up_to(joined(up, k), size as nat),
        decreases transfer.size() - transfer.moved(),
    {
        let ghost here = events_of(&*src);
        let ghost answers = replies_of(&*dst);
        let read = src.read();
        assert(here(0) == up(k));
        assert(events_of(&*src) =~= after(here, 1));
        assert(events_of(&*src) =~= after(up, k + 1));
        let chunk = match read {
            Ok(chunk) => chunk,
            Err(e) => {
                assert(pumps("pump_n"@, up, replies, size as nat, k, Err(e)));
                return Err(e);
            },
        };
        let part = match transfer.chunk_to_write(chunk) {
            Ok(part) => part,
            Err(e) => {
                assert(pumps("pump_n"@, up, replies, size as nat, k, Err(e)));
                return Err(e);
            },
        };
        let ghost data = handed_on(up, size as nat, k);
        assert(contents(part) == data);
        let n: usize = part.len();
        let written = dst.write_all(part);
        assert(written == answers(Seq::empty(), data));
        assert(replies_of(&*dst) =~= replies_after(answers, seq![data]));
        proof {
            lemma_replies_used(up, replies, size as nat, k);
        }
        match written {
            Ok(_) => {},
            Err(e) => {
                assert(pumps("pump_n"@, up, replies, size as nat, k, Err(e)));
                return Err(e);
            },
        }
        transfer.advance(n);
        assert(up_to(joined(up, k + 1), size as nat) =~= up_to(joined(up, k), size as nat)
            + contents(part));
        proof {
            k = k + 1;
        }
    }
    assert(pumps("pump_n"@, up, replies, size as nat, k, Ok(())));
    Ok(())
}

} // verus!

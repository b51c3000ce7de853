//! Filling a caller's buffer from a stream.
use bytes::Bytes;
use vstd::prelude::*;

use crate::buffer;
use crate::buffer::contents;
use crate::error::{IoError, IoResult};
use crate::events::{after, data_run, events_of, is_end, joined, Events};
use crate::pump::up_to;
use crate::stream::ByteStream;

verus! {

/// `dst` with its first bytes replaced by `data`.
pub open spec fn overwritten(dst: Seq<u8>, data: Seq<u8>) -> Seq<u8> {
    data + dst.skip(data.len() as int)
}

/// Copies as much of `chunk` as there is room for into `dst`, of which the
/// first `filled` bytes are taken, and returns how many bytes are taken then.
pub fn place(dst: &mut [u8], filled: usize, chunk: &Bytes) -> (now: usize)
    requires
        filled <= old(dst)@.len(),
    ensures
        now == filled + up_to(contents(*chunk), (old(dst)@.len() - filled) as nat).len(),
        final(dst)@ == old(dst)@.take(filled as int) + up_to(
            contents(*chunk),
            (old(dst)@.len() - filled) as nat,
        ) + old(dst)@.skip(now as int),
{
    let bytes: &[u8] = buffer::as_slice(chunk);
    let total: usize = dst.len();
    let room: usize = total - filled;
    let take: usize = if room < bytes.len() { room } else { bytes.len() };
    let mut i: usize = 0;
    while i < take
        invariant
            i <= take,
            bytes@ == contents(*chunk),
            take <= bytes@.len(),
            filled + take <= total,
            total == dst@.len() == old(dst)@.len(),
            forall|j: int| 0 <= j < filled ==> dst@[j] == old(dst)@[j],
            forall|j: int| 0 <= j < i ==> dst@[filled + j] == bytes@[j],
            forall|j: int| filled + i <= j < dst@.len() ==> dst@[j] == old(dst)@[j],
        decreases take - i,
    {
        dst[filled + i] = bytes[i];
        i = i + 1;
    }
    assert(dst@ =~= old(dst)@.take(filled as int) + up_to(bytes@, room as nat) + old(dst)@.skip(
        filled + take,
    ));
    filled + take
}

/// How far a buffer has been filled from a stream.
///
/// A caller asks [`Fill::wants_more`] whether to read on, hands what it read to
/// [`Fill::take`], and gets the count from [`Fill::filled`].
pub struct Fill {
    filled: usize,
    ended: bool,
}

impl Fill {
    /// The number of bytes of the buffer that are taken.
    pub closed spec fn count(&self) -> nat {
        self.filled as nat
    }

    /// Whether the stream has ended.
    pub closed spec fn has_ended(&self) -> bool {
        self.ended
    }

    /// Nothing has been read yet.
    pub fn new() -> (fill: Self)
        ensures
            fill.count() == 0,
            !fill.has_ended(),
    {
        Self { filled: 0, ended: false }
    }

    /// Whether to read on: there is room in `dst`, and the stream has not ended.
    pub fn wants_more(&self, dst: &[u8]) -> (more: bool)
        ensures
            more == (self.count() < dst@.len() && !self.has_ended()),
    {
        self.filled < dst.len() && !self.ended
    }

    /// Takes the next chunk of the stream: copies as much of it as there is room
    /// for into `dst`. An empty chunk is the end of the stream.
    pub fn take(&mut self, dst: &mut [u8], chunk: &Bytes)
        requires
            old(self).count() <= old(dst)@.len(),
        ensures
            ({
                let at = old(self).count() as int;
                let part = up_to(contents(*chunk), (old(dst)@.len() - at) as nat);
                &&& final(self).count() == at + part.len()
                &&& final(dst)@ == old(dst)@.take(at) + part + old(dst)@.skip(at + part.len())
            }),
            final(self).has_ended() == (old(self).has_ended() || contents(*chunk).len() == 0),
    {
        if chunk.is_empty() {
            self.ended = true;
        }
        self.filled = place(dst, self.filled, chunk);
    }

    /// The number of bytes of the buffer that are taken.
    pub fn filled(&self) -> (n: usize)
        ensures
            n == self.count(),
    {
        self.filled
    }
}

/// Reading `want` bytes from a source with the events `up` takes `k` chunks of
/// data and ends with `result`.
pub open spec fn fills(up: Events, want: nat, k: nat, result: IoResult<usize>) -> bool {
    &&& data_run(up, k)
    &&& k > 0 ==> joined(up, (k - 1) as nat).len() < want
    &&& match result {
        Ok(n) => {
            &&& n == up_to(joined(up, k), want).len()
            &&& n < want ==> is_end(up(k))
        },
        Err(e) => {
            &&& joined(up, k).len() < want
            &&& up(k) == Err::<Seq<u8>, IoError>(e)
        },
    }
}

/// Reads up to `dst.len()` bytes into `dst`, until it is full or the stream
/// ends, and returns the count. What is left over of the last chunk is
/// dropped.
pub fn read_full<S: ByteStream + ?Sized>(s: &mut S, dst: &mut [u8]) -> (result: IoResult<usize>)
    ensures
        ({
            let up = events_of(&*old(s));
            let want = old(dst)@.len();
            exists|k: nat|
                {
                    &&& #[trigger] fills(up, want, k, result)
                    &&& final(dst)@ == overwritten(old(dst)@, up_to(joined(up, k), want))
                    &&& forall|j: int|
                        0 <= j < want ==> #[trigger] final(dst)@[j] == if j < joined(up, k).len() {
                            joined(up, k)[j]
                        } else {
                            old(dst)@[j]
                        }
                    &&& events_of(&*final(s)) == after(
                        up,
                        if joined(up, k).len() >= want { k } else { k + 1 },
                    )
                }
        }),
        final(dst)@.len() == old(dst)@.len(),
        result matches Ok(n) ==> n <= old(dst)@.len() && forall|j: int|
            n <= j < old(dst)@.len() ==> #[trigger] final(dst)@[j] == old(dst)@[j],
{
    let want: usize = dst.len();
    let ghost up = events_of(&*s);
    let ghost start = dst@;
    let ghost mut k: nat = 0;
    let mut fill: Fill = Fill::new();
    assert(events_of(&*s) =~= after(up, 0));
    assert(dst@ =~= overwritten(start, up_to(joined(up, 0), want as nat)));
    while fill.wants_more(dst)
        invariant
            up == events_of(&*old(s)),
            start == old(dst)@,
            want == start.len(),
            events_of(&*s) == after(up, if fill.has_ended() { k + 1 } else { k }),
            fill.has_ended() ==> is_end(up(k)) && joined(up, k).len() < want,
            data_run(up, k),
            k > 0 ==> joined(up, (k - 1) as nat).len() < want,
            fill.count() == up_to(joined(up, k), want as nat).len(),
            dst@ == overwritten(start, up_to(joined(up, k), want as nat)),
        decreases (if fill.has_ended() { 0int } else { 1 + want - fill.count() }),
    {
        let ghost here = events_of(&*s);
        let ghost before = dst@;
        let read = s.read();
        assert(here(0) == up(k));
        assert(events_of(&*s) =~= after(here, 1));
        assert(events_of(&*s) =~= after(up, k + 1));
        let chunk = match read {
            Ok(chunk) => chunk,
            Err(e) => {
                assert(fills(up, want as nat, k, Err(e)));
                return Err(e);
            },
        };
        fill.take(dst, &chunk);
        proof {
            if contents(chunk).len() == 0 {
                assert(dst@ =~= before);
            } else {
                assert(up_to(joined(up, k + 1), want as nat) =~= up_to(joined(up, k), want as nat)
                    + up_to(
                    contents(chunk),
                    (want - up_to(joined(up, k), want as nat).len()) as nat,
                ));
                assert(dst@ =~= overwritten(start, up_to(joined(up, k + 1), want as nat)));
                k = k + 1;
            }
        }
    }
    let filled: usize = fill.filled();
    assert(fills(up, want as nat, k, Ok(filled)));
    Ok(filled)
}

} // verus!

//! A contiguous window of a stream: the first bytes are dropped, a bounded
//! number after them is passed on, and then the stream ends.
use bytes::Bytes;
use vstd::prelude::*;

use crate::buffer;
use crate::buffer::contents;
use crate::error::{IoError, IoResult};
use crate::events::{
    after, bytes_of, data_run, drains_to, events_of, is_data, is_end, joined, lemma_joined_front,
    lemma_received_split, lemma_run_front, received, runs_to, runs_to_at, Events,
};
use crate::stream::{end_of_stream, event_of, ByteStream, Event};

verus! {

/// The window of `data` that leaves out the first `skip` bytes and holds at
/// most `take` bytes after them.
pub open spec fn clip(data: Seq<u8>, skip: nat, take: nat) -> Seq<u8> {
    let rest = data.skip(if skip < data.len() { skip as int } else { data.len() as int });
    rest.take(if take < rest.len() { take as int } else { rest.len() as int })
}

/// How far a window over a stream has come.
pub struct Window {
    to_skip: u64,
    remaining: u64,
}

impl Window {
    /// The number of bytes still to be dropped.
    pub closed spec fn to_skip(&self) -> nat {
        self.to_skip as nat
    }

    /// The number of bytes still to be passed on.
    pub closed spec fn remaining(&self) -> nat {
        self.remaining as nat
    }

    /// A window that leaves out the first `skip` bytes and holds at most `take`
    /// bytes after them.
    pub fn new(skip: u64, take: u64) -> (window: Self)
        ensures
            window.to_skip() == skip,
            window.remaining() == take,
    {
        Self { to_skip: skip, remaining: take }
    }

    /// Whether the window is complete, so that no more chunks are wanted.
    pub fn is_complete(&self) -> (complete: bool)
        ensures
            complete == (self.remaining() == 0),
    {
        self.remaining == 0
    }

    /// Takes the next chunk of the stream. The answer is what to pass on, or
    /// `None` where the whole chunk lies before the window. An empty chunk,
    /// the end of the stream, is passed on as it is.
    pub fn pass(&mut self, chunk: Bytes) -> (kept: Option<Bytes>)
        ensures
            contents(chunk).len() == 0 ==> kept == Some(chunk) && *final(self) == *old(self),
            0 < contents(chunk).len() <= old(self).to_skip() ==> {
                &&& kept is None
                &&& final(self).to_skip() == old(self).to_skip() - contents(chunk).len()
                &&& final(self).remaining() == old(self).remaining()
            },
            contents(chunk).len() > old(self).to_skip() ==> {
                &&& kept matches Some(part) && contents(part) == clip(
                    contents(chunk),
                    old(self).to_skip(),
                    old(self).remaining(),
                )
                &&& final(self).to_skip() == 0
                &&& final(self).remaining() == old(self).remaining() - clip(
                    contents(chunk),
                    old(self).to_skip(),
                    old(self).remaining(),
                ).len()
            },
    {
        if chunk.is_empty() {
            return Some(chunk);
        }
        let len: usize = chunk.len();
        if self.to_skip >= len as u64 {
            self.to_skip = self.to_skip - len as u64;
            return None;
        }
        let begin: usize = self.to_skip as usize;
        self.to_skip = 0;
        let left: usize = len - begin;
        let take: usize = if self.remaining < left as u64 {
            self.remaining as usize
        } else {
            left
        };
        self.remaining = self.remaining - take as u64;
        let part: Bytes = if take == len {
            chunk
        } else {
            buffer::slice(&chunk, begin, begin + take)
        };
        assert(contents(part) =~= clip(contents(chunk), begin as nat, old(self).remaining()));
        Some(part)
    }
}

/// What one read of a windowed stream hands out, and where it leaves the
/// window and the source.
pub struct WindowRead {
    /// What the read hands out.
    pub event: Event,
    /// The number of reads of the source that it takes.
    pub reads: nat,
    /// The number of bytes still to be dropped after it.
    pub to_skip: nat,
    /// The number of bytes still to be passed on after it.
    pub remaining: nat,
}

/// One read of the window over a source with the events `up`: nothing once the
/// window is complete, else the first chunk that reaches into the window, cut
/// to it. The end of the source and a failure are passed on as they are.
pub open spec fn window_read(up: Events, to_skip: nat, remaining: nat) -> WindowRead
    decreases to_skip,
{
    if remaining == 0 {
        WindowRead { event: end_of_stream(), reads: 0, to_skip, remaining }
    } else if !is_data(up(0)) {
        WindowRead { event: up(0), reads: 1, to_skip, remaining }
    } else {
        let data = up(0)->Ok_0;
        if data.len() <= to_skip {
            let later = window_read(after(up, 1), (to_skip - data.len()) as nat, remaining);
            WindowRead { reads: later.reads + 1, ..later }
        } else {
            let part = clip(data, to_skip, remaining);
            WindowRead {
                event: Ok(part),
                reads: 1,
                to_skip: 0,
                remaining: (remaining - part.len()) as nat,
            }
        }
    }
}

/// The events of the window over a source with the events `up`.
pub open spec fn window_event(up: Events, to_skip: nat, remaining: nat, i: nat) -> Event
    decreases i,
{
    let first = window_read(up, to_skip, remaining);
    if i == 0 {
        first.event
    } else {
        window_event(after(up, first.reads), first.to_skip, first.remaining, (i - 1) as nat)
    }
}

/// [`window_event`], as a sequence of events.
pub open spec fn window_events(up: Events, to_skip: nat, remaining: nat) -> Events {
    |i: nat| window_event(up, to_skip, remaining, i)
}

/// Exposes a contiguous byte window of a stream: drops the first `skip` bytes
/// of it, yields at most `take` bytes after that, and then ends.
///
/// A chunk that lies before the window is dropped, one that straddles a border
/// of the window is sliced, and chunks past the window are never asked for.
pub struct SkipTakeStream<S> {
    inner: S,
    window: Window,
}

impl<S: ByteStream> SkipTakeStream<S> {
    /// What the stream behind the window will hand out.
    pub closed spec fn source(&self) -> Events {
        events_of(&self.inner)
    }

    /// The number of bytes still to be dropped.
    pub closed spec fn to_skip(&self) -> nat {
        self.window.to_skip()
    }

    /// The number of bytes still to be passed on.
    pub closed spec fn remaining(&self) -> nat {
        self.window.remaining()
    }

    /// The window of `inner` that leaves out the first `skip` bytes and holds at
    /// most `take` bytes after them.
    pub fn new(inner: S, skip: u64, take: u64) -> (stream: Self)
        ensures
            stream.source() == events_of(&inner),
            stream.to_skip() == skip,
            stream.remaining() == take,
    {
        Self { inner, window: Window::new(skip, take) }
    }
}

impl<S: ByteStream> ByteStream for SkipTakeStream<S> {
    open spec fn upcoming(&self, i: nat) -> Event {
        window_event(self.source(), self.to_skip(), self.remaining(), i)
    }

    /// Yields the next chunk of the window. Once the window is complete, the
    /// stream behind it is not read any more.
    fn read(&mut self) -> (result: IoResult<Bytes>)
        ensures
            ({
                let first = window_read(
                    old(self).source(),
                    old(self).to_skip(),
                    old(self).remaining(),
                );
                &&& event_of(result) == first.event
                &&& final(self).source() == after(old(self).source(), first.reads)
                &&& final(self).to_skip() == first.to_skip
                &&& final(self).remaining() == first.remaining
            }),
            old(self).remaining() == 0 ==> (result matches Ok(chunk) && contents(chunk).len() == 0)
                && final(self).source() == old(self).source(),
    {
        let ghost up = self.source();
        let ghost first = window_read(up, self.to_skip(), self.remaining());
        let ghost mut used: nat = 0;
        assert(self.source() =~= after(up, 0));
        loop
            invariant
                self.source() == after(up, used),
                ({
                    let later = window_read(self.source(), self.to_skip(), self.remaining());
                    first == (WindowRead { reads: later.reads + used, ..later })
                }),
                up == old(self).source(),
                first == window_read(up, old(self).to_skip(), old(self).remaining()),
                old(self).remaining() == self.remaining(),
                self.remaining() == 0 ==> used == 0,
            decreases self.to_skip(),
        {
            if self.window.is_complete() {
                assert(after(up, 0) =~= up);
                proof {
                    lemma_window_stays_ended(self.source(), self.to_skip(), self.remaining());
                }
                return Ok(Bytes::new());
            }
            let ghost here = self.source();
            let chunk = match self.inner.read() {
                Ok(chunk) => chunk,
                Err(e) => {
                    assert(self.source() =~= after(here, 1));
                    assert(self.source() =~= after(up, used + 1));
                    return Err(e);
                },
            };
            assert(self.source() =~= after(here, 1));
            assert(self.source() =~= after(up, used + 1));
            match self.window.pass(chunk) {
                Some(part) => {
                    proof {
                        if contents(part).len() == 0 {
                            lemma_window_stays_ended(
                                self.source(),
                                self.to_skip(),
                                self.remaining(),
                            );
                        }
                    }
                    return Ok(part);
                },
                None => {
                    proof {
                        used = used + 1;
                    }
                },
            }
        }
    }
}

/// A window that is complete, or whose source has ended, hands out nothing but
/// the end.
proof fn lemma_window_stays_ended(up: Events, to_skip: nat, remaining: nat)
    requires
        remaining == 0 || forall|i: nat| #[trigger] up(i) == end_of_stream(),
    ensures
        forall|i: nat| #[trigger] window_event(up, to_skip, remaining, i) == end_of_stream(),
{
    assert forall|i: nat| #[trigger]
        window_event(up, to_skip, remaining, i) == end_of_stream() by {
        lemma_event_after_end(up, to_skip, remaining, i);
    }
}

/// [`lemma_window_stays_ended`], for one read.
proof fn lemma_event_after_end(up: Events, to_skip: nat, remaining: nat, i: nat)
    requires
        remaining == 0 || forall|j: nat| #[trigger] up(j) == end_of_stream(),
    ensures
        window_event(up, to_skip, remaining, i) == end_of_stream(),
    decreases i,
{
    let first = window_read(up, to_skip, remaining);
    assert(remaining == 0 || up(0) == end_of_stream());
    if i > 0 {
        lemma_event_after_end(
            after(up, first.reads),
            first.to_skip,
            first.remaining,
            (i - 1) as nat,
        );
    }
}

/// A chunk that lies before the window makes no difference to what the window
/// hands out, but for the number of bytes that are left to drop.
proof fn lemma_dropped_chunk(up: Events, skip: nat, take: nat)
    requires
        take > 0,
        is_data(up(0)),
        up(0)->Ok_0.len() <= skip,
    ensures
        window_events(up, skip, take) == window_events(
            after(up, 1),
            (skip - up(0)->Ok_0.len()) as nat,
            take,
        ),
{
    let less = (skip - up(0)->Ok_0.len()) as nat;
    let reads = window_read(after(up, 1), less, take).reads;
    assert(after(up, reads + 1) =~= after(after(up, 1), reads));
    assert forall|i: nat| #[trigger] window_event(up, skip, take, i) == window_event(
        after(up, 1),
        less,
        take,
        i,
    ) by {}
    assert(window_events(up, skip, take) =~= window_events(after(up, 1), less, take));
}

/// A chunk that reaches into the window is followed by what the rest of the
/// source has for the rest of the window.
proof fn lemma_kept_chunk(up: Events, skip: nat, take: nat)
    requires
        take > 0,
        is_data(up(0)),
        up(0)->Ok_0.len() > skip,
    ensures
        ({
            let part = clip(up(0)->Ok_0, skip, take);
            &&& part.len() > 0
            &&& window_events(up, skip, take)(0) == Ok::<Seq<u8>, IoError>(part)
            &&& after(window_events(up, skip, take), 1) == window_events(
                after(up, 1),
                0,
                (take - part.len()) as nat,
            )
        }),
{
    let part = clip(up(0)->Ok_0, skip, take);
    assert(after(window_events(up, skip, take), 1) =~= window_events(
        after(up, 1),
        0,
        (take - part.len()) as nat,
    ));
}

/// What the window hands out of the first `n` chunks of a source, where these
/// reach to the end of the window or the source has no more data after them.
proof fn lemma_window_of_chunks(up: Events, n: nat, skip: nat, take: nat)
    requires
        data_run(up, n),
        take == 0 || joined(up, n).len() >= skip + take || !is_data(up(n)),
    ensures
        runs_to(
            window_events(up, skip, take),
            clip(joined(up, n), skip, take),
            window_end(joined(up, n), up(n), skip, take),
        ),
    decreases n,
{
    let data = joined(up, n);
    let shown = window_events(up, skip, take);
    let last = window_end(data, up(n), skip, take);
    if take == 0 || n == 0 {
        assert(clip(data, skip, take) =~= Seq::<u8>::empty());
        assert(up(0) is Ok && up(0)->Ok_0.len() == 0 ==> up(0)->Ok_0 =~= Seq::<u8>::empty());
        assert(shown(0) == last);
        assert(runs_to_at(shown, 0, clip(data, skip, take), last));
    } else {
        let m = (n - 1) as nat;
        let head = up(0)->Ok_0;
        let rest = joined(after(up, 1), m);
        lemma_joined_front(up, m);
        assert(is_data(up(0)));
        assert(after(up, 1)(m) == up(n));
        assert forall|i: nat| i < m implies is_data(#[trigger] after(up, 1)(i)) by {
            assert(is_data(up(i + 1)));
        }
        if head.len() <= skip {
            let less = (skip - head.len()) as nat;
            lemma_dropped_chunk(up, skip, take);
            lemma_window_of_chunks(after(up, 1), m, less, take);
            assert(clip(data, skip, take) =~= clip(rest, less, take));
        } else {
            let part = clip(head, skip, take);
            let more = (take - part.len()) as nat;
            lemma_kept_chunk(up, skip, take);
            lemma_window_of_chunks(after(up, 1), m, 0, more);
            lemma_run_front(shown, clip(rest, 0, more), window_end(rest, up(n), 0, more));
            assert(clip(data, skip, take) =~= part + clip(rest, 0, more));
        }
    }
}

/// The event that ends the window over a source that runs to `data` and then
/// to `last`: the end of the stream where the window is complete, else `last`.
pub open spec fn window_end(data: Seq<u8>, last: Event, skip: nat, take: nat) -> Event {
    if take == 0 || data.len() >= skip + take {
        end_of_stream()
    } else {
        last
    }
}

/// Whatever the chunks of the source, the window hands out the bytes of the
/// source from `skip` on, at most `take` of them, and then ends. Where the
/// source fails before the window is complete, the bytes up to there come
/// first and then the failure.
pub proof fn lemma_window_clips<S: ByteStream>(
    stream: SkipTakeStream<S>,
    data: Seq<u8>,
    last: Event,
)
    requires
        runs_to(stream.source(), data, last),
    ensures
        runs_to(
            events_of(&stream),
            clip(data, stream.to_skip(), stream.remaining()),
            window_end(data, last, stream.to_skip(), stream.remaining()),
        ),
{
    let up = stream.source();
    let n = choose|n: nat| #[trigger] runs_to_at(up, n, data, last);
    lemma_window_of_chunks(up, n, stream.to_skip(), stream.remaining());
    assert(events_of(&stream) =~= window_events(up, stream.to_skip(), stream.remaining()));
}

/// Whatever the chunks of the source, a source that drains to `data` is cut to
/// the window of `data`.
pub proof fn lemma_window_drains<S: ByteStream>(stream: SkipTakeStream<S>, data: Seq<u8>)
    requires
        drains_to(stream.source(), data),
    ensures
        drains_to(events_of(&stream), clip(data, stream.to_skip(), stream.remaining())),
{
    lemma_window_clips(stream, data, end_of_stream());
}

/// The window needs no more of the source than the chunks that reach to the
/// end of it: it then drains to exactly the bytes that it was opened for,
/// whatever the source would hand out next.
pub proof fn lemma_window_stops_in_time<S: ByteStream>(stream: SkipTakeStream<S>, n: nat)
    requires
        data_run(stream.source(), n),
        joined(stream.source(), n).len() >= stream.to_skip() + stream.remaining(),
    ensures
        drains_to(
            events_of(&stream),
            joined(stream.source(), n).subrange(
                stream.to_skip() as int,
                (stream.to_skip() + stream.remaining()) as int,
            ),
        ),
{
    let up = stream.source();
    let data = joined(up, n);
    lemma_window_of_chunks(up, n, stream.to_skip(), stream.remaining());
    assert(events_of(&stream) =~= window_events(up, stream.to_skip(), stream.remaining()));
    assert(clip(data, stream.to_skip(), stream.remaining()) =~= data.subrange(
        stream.to_skip() as int,
        (stream.to_skip() + stream.remaining()) as int,
    ));
}

/// The number of reads of the source that the first `n` reads of the window
/// take.
pub open spec fn source_reads(up: Events, to_skip: nat, remaining: nat, n: nat) -> nat
    decreases n,
{
    if n == 0 {
        0
    } else {
        let first = window_read(up, to_skip, remaining);
        first.reads + source_reads(
            after(up, first.reads),
            first.to_skip,
            first.remaining,
            (n - 1) as nat,
        )
    }
}

/// Failures of the source neither lose nor repeat a byte: after any number of
/// reads, failed ones among them, a reader who goes on has exactly the window
/// of what the source has delivered so far. Where the last of these reads gave
/// the end, the reader has all of the window, or the source itself has ended.
pub proof fn lemma_window_survives_failures<S: ByteStream>(stream: SkipTakeStream<S>, n: nat)
    ensures
        ({
            let made = source_reads(stream.source(), stream.to_skip(), stream.remaining(), n);
            let shown = received(events_of(&stream), n);
            &&& shown == clip(
                received(stream.source(), made),
                stream.to_skip(),
                stream.remaining(),
            )
            &&& n > 0 && is_end(events_of(&stream)((n - 1) as nat)) ==> shown.len()
                == stream.remaining() || made > 0 && is_end(stream.source()((made - 1) as nat))
        }),
{
    let up = stream.source();
    assert(events_of(&stream) =~= window_events(up, stream.to_skip(), stream.remaining()));
    lemma_window_of_reads(up, stream.to_skip(), stream.remaining(), n);
}

/// What `n` reads of the window hand out of the reads of the source.
proof fn lemma_window_of_reads(up: Events, skip: nat, take: nat, n: nat)
    ensures
        ({
            let made = source_reads(up, skip, take, n);
            let shown = received(window_events(up, skip, take), n);
            &&& shown == clip(received(up, made), skip, take)
            &&& n > 0 && is_end(window_event(up, skip, take, (n - 1) as nat)) ==> shown.len()
                == take || made > 0 && is_end(up((made - 1) as nat))
        }),
    decreases n,
{
    let shown = window_events(up, skip, take);
    if n == 0 {
        assert(received(shown, 0) =~= clip(received(up, 0), skip, take));
    } else {
        let first = window_read(up, skip, take);
        let rest = after(up, first.reads);
        let m = (n - 1) as nat;
        let later = source_reads(rest, first.to_skip, first.remaining, m);
        let head = received(up, first.reads);
        let tail = received(rest, later);
        lemma_one_window_read(up, skip, take);
        lemma_window_of_reads(rest, first.to_skip, first.remaining, m);
        lemma_received_split(up, first.reads, later);
        lemma_received_split(shown, 1, m);
        assert(received(shown, 0) == Seq::<u8>::empty());
        assert(received(shown, 1) =~= bytes_of(first.event));
        assert(after(shown, 1) =~= window_events(rest, first.to_skip, first.remaining));
        assert(clip(head + tail, skip, take) =~= clip(head, skip, take) + clip(
            tail,
            first.to_skip,
            first.remaining,
        ));
        if m > 0 && later > 0 {
            assert(rest((later - 1) as nat) == up((first.reads + later - 1) as nat));
        }
    }
}

/// What one read of the window hands out of the reads of the source that it
/// takes, and what it leaves of the window.
proof fn lemma_one_window_read(up: Events, skip: nat, take: nat)
    ensures
        ({
            let first = window_read(up, skip, take);
            let data = received(up, first.reads);
            &&& bytes_of(first.event) == clip(data, skip, take)
            &&& take > 0 ==> first.to_skip == (if data.len() < skip {
                skip - data.len()
            } else {
                0
            })
            &&& first.remaining == take - clip(data, skip, take).len()
            &&& is_end(first.event) ==> take == 0 || first.reads > 0 && is_end(
                up((first.reads - 1) as nat),
            )
        }),
    decreases skip,
{
    let first = window_read(up, skip, take);
    assert(received(up, 0) == Seq::<u8>::empty());
    assert(received(up, 1) =~= bytes_of(up(0)));
    if take == 0 {
        assert(bytes_of(first.event) =~= clip(received(up, first.reads), skip, take));
    } else if !is_data(up(0)) {
        assert(bytes_of(first.event) =~= clip(received(up, 1), skip, take));
    } else if up(0)->Ok_0.len() <= skip {
        let rest = after(up, 1);
        let less = (skip - up(0)->Ok_0.len()) as nat;
        let later = window_read(rest, less, take);
        lemma_one_window_read(rest, less, take);
        lemma_received_split(up, 1, later.reads);
        assert(clip(received(up, first.reads), skip, take) =~= clip(
            received(rest, later.reads),
            less,
            take,
        ));
        if later.reads > 0 {
            assert(rest((later.reads - 1) as nat) == up((first.reads - 1) as nat));
        }
    } else {
        assert(bytes_of(first.event) == clip(received(up, 1), skip, take));
    }
}

/// Chunks past the window are never asked for: a complete window does not read
/// the source at all, and one that is not complete asks only for chunks that
/// begin no later than what is left of the window does.
pub proof fn lemma_window_asks_only_for_its_chunks<S: ByteStream>(stream: SkipTakeStream<S>)
    ensures
        ({
            let first = window_read(stream.source(), stream.to_skip(), stream.remaining());
            &&& stream.remaining() == 0 ==> first.reads == 0
            &&& first.reads > 0 ==> joined(stream.source(), (first.reads - 1) as nat).len()
                <= stream.to_skip()
        }),
{
    lemma_read_begins_in_time(stream.source(), stream.to_skip(), stream.remaining());
}

/// The last chunk that a read of the window asks for begins no later than the
/// window does.
proof fn lemma_read_begins_in_time(up: Events, skip: nat, take: nat)
    ensures
        ({
            let reads = window_read(up, skip, take).reads;
            reads > 0 ==> joined(up, (reads - 1) as nat).len() <= skip
        }),
    decreases skip,
{
    if take > 0 && is_data(up(0)) && up(0)->Ok_0.len() <= skip {
        let less = (skip - up(0)->Ok_0.len()) as nat;
        let later = window_read(after(up, 1), less, take).reads;
        lemma_read_begins_in_time(after(up, 1), less, take);
        if later > 0 {
            lemma_joined_front(up, (later - 1) as nat);
        }
    }
}

} // verus!

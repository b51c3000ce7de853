//! What holds of the streams and the transfers taken together.
use bytes::Bytes;
use vstd::prelude::*;

use crate::buffer::contents;
use crate::error::{IoError, IoResult};
use crate::events::{
    after, data_run, drains_to, events_of, is_data, joined, lemma_joined_prefix, lemma_run_front,
    lemma_run_is_unique, runs_to, runs_to_at, Events,
};
use crate::fill::fills;
use crate::pump::{
    answer_to, ended_at, handed_on, pumps, replies_of, request_len, up_to, Replies,
};
use crate::raw::{deliveries_of, raw_events, raw_pumps, raw_rest, raw_run};
use crate::stream::{
    end_of_stream, filled, ByteStream, BytesByteStream, Event, RopeByteStream, VecByteSink,
    VecByteStream,
};
use crate::window::{clip, lemma_window_drains, SkipTakeStream};

verus! {

/// A `VecByteStream` drains to the buffer that it was made of.
pub proof fn lemma_vec_stream_drains(stream: VecByteStream)
    ensures
        drains_to(events_of(&stream), stream.rest()),
{
    lemma_one_chunk_drains(events_of(&stream), stream.rest());
}

/// A `BytesByteStream` drains to the chunk that it was made of.
pub proof fn lemma_bytes_stream_drains(stream: BytesByteStream)
    ensures
        drains_to(events_of(&stream), stream.rest()),
{
    lemma_one_chunk_drains(events_of(&stream), stream.rest());
}

/// One chunk and then the end drain to the chunk.
proof fn lemma_one_chunk_drains(up: Events, data: Seq<u8>)
    requires
        up(0) == Ok::<Seq<u8>, IoError>(data),
        up(1) == end_of_stream(),
    ensures
        drains_to(up, data),
{
    let last = end_of_stream();
    if data.len() == 0 {
        assert(data =~= Seq::<u8>::empty());
        assert(runs_to_at(up, 0, data, last));
    } else {
        assert(joined(up, 0) == Seq::<u8>::empty());
        assert(joined(up, 1) =~= data);
        assert(runs_to_at(up, 1, data, last));
    }
}

/// The bytes of a rope of chunks, in order.
pub open spec fn rope_bytes(frames: Seq<Bytes>) -> Seq<u8>
    decreases frames.len(),
{
    if frames.len() == 0 {
        Seq::empty()
    } else {
        contents(frames[0]) + rope_bytes(frames.skip(1))
    }
}

/// A rope drains to the bytes of its frames, in order, be some of them empty or
/// not.
pub proof fn lemma_rope_stream_drains(stream: RopeByteStream)
    ensures
        drains_to(events_of(&stream), rope_bytes(stream.rest())),
{
    lemma_filled_frames(stream.rest());
    lemma_rope_drains(events_of(&stream), filled(stream.rest()));
}

/// Passing over empty frames passes over no byte.
proof fn lemma_filled_frames(frames: Seq<Bytes>)
    ensures
        rope_bytes(filled(frames)) == rope_bytes(frames),
        forall|i: int|
            0 <= i < filled(frames).len() ==> contents(#[trigger] filled(frames)[i]).len() > 0,
    decreases frames.len(),
{
    if frames.len() > 0 {
        let rest = frames.skip(1);
        lemma_filled_frames(rest);
        if contents(frames[0]).len() > 0 {
            assert(filled(frames).skip(1) =~= filled(rest));
        } else {
            assert(rope_bytes(frames) =~= rope_bytes(rest));
        }
    }
}

proof fn lemma_rope_drains(up: Events, frames: Seq<Bytes>)
    requires
        forall|i: int| 0 <= i < frames.len() ==> contents(#[trigger] frames[i]).len() > 0,
        forall|i: nat|
            i < frames.len() ==> (#[trigger] up(i)) == Ok::<Seq<u8>, IoError>(
                contents(frames[i as int]),
            ),
        up(frames.len()) == end_of_stream(),
    ensures
        drains_to(up, rope_bytes(frames)),
    decreases frames.len(),
{
    let last = end_of_stream();
    if frames.len() == 0 {
        assert(runs_to_at(up, 0, rope_bytes(frames), last));
    } else {
        let rest = frames.skip(1);
        assert forall|i: nat| i < rest.len() implies (#[trigger] after(up, 1)(i)) == Ok::<
            Seq<u8>,
            IoError,
        >(contents(rest[i as int])) by {
            assert(after(up, 1)(i) == up(i + 1));
        }
        assert(after(up, 1)(rest.len()) == up(frames.len()));
        lemma_rope_drains(after(up, 1), rest);
        assert(up(0) == Ok::<Seq<u8>, IoError>(contents(frames[0])));
        lemma_run_front(up, rope_bytes(rest), last);
    }
}

/// Two windows of the same borders over sources with the same bytes hand out
/// the same bytes, however differently the sources cut them into chunks.
pub proof fn lemma_window_ignores_chunks<S: ByteStream, T: ByteStream>(
    a: SkipTakeStream<S>,
    b: SkipTakeStream<T>,
    data: Seq<u8>,
    shown: Seq<u8>,
)
    requires
        drains_to(a.source(), data),
        drains_to(b.source(), data),
        a.to_skip() == b.to_skip(),
        a.remaining() == b.remaining(),
        drains_to(events_of(&a), shown),
    ensures
        drains_to(events_of(&b), shown),
{
    lemma_window_drains(a, data);
    lemma_window_drains(b, data);
    lemma_run_is_unique(
        events_of(&a),
        shown,
        end_of_stream(),
        clip(data, a.to_skip(), a.remaining()),
        end_of_stream(),
    );
}

/// The chunks of a run of data are a prefix of it, and all of it where the
/// next event is no data.
proof fn lemma_chunks_of_run(up: Events, k: nat, data: Seq<u8>, last: Event)
    requires
        data_run(up, k),
        runs_to(up, data, last),
    ensures
        joined(up, k).len() <= data.len(),
        joined(up, k) == data.take(joined(up, k).len() as int),
        !is_data(up(k)) ==> joined(up, k) == data && up(k) == last,
{
    let n = choose|n: nat| #[trigger] runs_to_at(up, n, data, last);
    if k > n {
        assert(is_data(up(n)));
    }
    lemma_joined_prefix(up, k, n);
    if !is_data(up(k)) && k < n {
        assert(is_data(up(k)));
    }
}

/// How a transfer of `size` bytes, from a source that runs to `data` and then
/// to `last`, ends: what the chunks of the source are makes no difference.
///
/// A sink that takes what it is given gets the first `size` bytes of the
/// source, or all that the source has. The transfer succeeds exactly where the
/// source has enough; else it fails as the source did, or with `UnexpectedEof`
/// where the source just ended.
pub proof fn lemma_pump_outcome(
    who: Seq<char>,
    up: Events,
    replies: Replies,
    size: nat,
    k: nat,
    result: IoResult<()>,
    data: Seq<u8>,
    last: Event,
)
    requires
        runs_to(up, data, last),
        pumps(who, up, replies, size, k, result),
        forall|written: Seq<Seq<u8>>, given: Seq<u8>|
            (#[trigger] replies(written, given)) is Ok,
    ensures
        up_to(joined(up, k), size) == up_to(data, size),
        result is Ok <==> data.len() >= size,
        result matches Err(e) ==> match last {
            Ok(_) => e matches IoError::UnexpectedEof(message) && message@ == ended_at(
                who,
                data.len(),
                size,
            ),
            Err(failure) => e == failure,
        },
{
    lemma_chunks_of_run(up, k, data, last);
    assert(answer_to(up, replies, size, k) is Ok);
    if result is Err {
        assert(!is_data(up(k)));
    }
    assert(up_to(joined(up, k), size) =~= up_to(data, size));
}

/// A transfer that succeeds has handed on exactly `size` bytes, the first ones
/// of the source, whether or not the sink would have failed later.
pub proof fn lemma_pump_moves_exactly(
    who: Seq<char>,
    up: Events,
    replies: Replies,
    size: nat,
    k: nat,
)
    requires
        pumps(who, up, replies, size, k, Ok(())),
    ensures
        up_to(joined(up, k), size).len() == size,
        forall|m: nat| k <= m ==> up_to(joined(up, k), size) == #[trigger] joined(up, m).take(
            size as int,
        ),
{
    assert forall|m: nat| k <= m implies up_to(joined(up, k), size) == #[trigger] joined(
        up,
        m,
    ).take(size as int) by {
        lemma_joined_prefix(up, k, m);
        assert(up_to(joined(up, k), size) =~= joined(up, m).take(size as int));
    }
}

/// A transfer succeeds where the next chunks of the source are enough and the
/// sink takes them, whatever either would do next.
pub proof fn lemma_pump_succeeds(
    who: Seq<char>,
    up: Events,
    replies: Replies,
    size: nat,
    k: nat,
    result: IoResult<()>,
    n: nat,
)
    requires
        pumps(who, up, replies, size, k, result),
        data_run(up, n),
        joined(up, n).len() >= size,
        forall|i: nat| i < n ==> (#[trigger] answer_to(up, replies, size, i)) is Ok,
    ensures
        result is Ok,
        k <= n,
{
    if k > n {
        lemma_joined_prefix(up, n, (k - 1) as nat);
    }
    if result is Err {
        if k == n {
            assert(joined(up, k).len() >= size);
        } else {
            assert(is_data(up(k)));
            assert(answer_to(up, replies, size, k) is Ok);
        }
    }
}

/// Reading `want` bytes succeeds where the next chunks of the source are
/// enough, whatever the source would do next.
pub proof fn lemma_fill_succeeds(up: Events, want: nat, k: nat, result: IoResult<usize>, n: nat)
    requires
        fills(up, want, k, result),
        data_run(up, n),
        joined(up, n).len() >= want,
    ensures
        result matches Ok(count) && count == want,
        k <= n,
{
    if k > n {
        lemma_joined_prefix(up, n, (k - 1) as nat);
    }
    if k < n {
        assert(is_data(up(k)));
    }
}

/// A `VecByteSink` that is not finished never refuses.
pub proof fn lemma_vec_sink_accepts(sink: VecByteSink)
    requires
        !sink.finished,
    ensures
        forall|written: Seq<Seq<u8>>, given: Seq<u8>|
            (#[trigger] replies_of(&sink)(written, given)) is Ok,
{
}

/// Nothing is moved into a sink that accepts no more writes, such as a finished
/// one: a transfer of at least one byte fails at its first step.
pub proof fn lemma_finished_sink_takes_nothing(
    who: Seq<char>,
    up: Events,
    replies: Replies,
    size: nat,
    k: nat,
    result: IoResult<()>,
)
    requires
        pumps(who, up, replies, size, k, result),
        forall|written: Seq<Seq<u8>>, given: Seq<u8>|
            given.len() > 0 ==> (#[trigger] replies(written, given)) is Err,
        size > 0,
    ensures
        result is Err,
        k == 0,
{
    assert(joined(up, 0) == Seq::<u8>::empty());
    if k > 0 {
        assert(is_data(up(0)));
        assert(answer_to(up, replies, size, 0) is Ok);
    }
}

/// How reading `want` bytes, from a source that runs to `data` and then to
/// `last`, ends: what the chunks of the source are makes no difference.
///
/// The buffer gets the first `want` bytes of the source, or all that it has.
/// The count says how many; only a failure of the source before the buffer is
/// full is an error.
pub proof fn lemma_fill_outcome(
    up: Events,
    want: nat,
    k: nat,
    result: IoResult<usize>,
    data: Seq<u8>,
    last: Event,
)
    requires
        runs_to(up, data, last),
        fills(up, want, k, result),
    ensures
        up_to(joined(up, k), want) == up_to(data, want),
        result is Err <==> data.len() < want && last is Err,
        result matches Ok(n) ==> n == up_to(data, want).len(),
        result matches Err(e) ==> last == Err::<Seq<u8>, IoError>(e),
{
    lemma_chunks_of_run(up, k, data, last);
    assert(up_to(joined(up, k), want) =~= up_to(data, want));
}

/// A range of an object: the window of `skip` and `take` over a source that
/// drains to `data`, pumped into a sink that takes what it is given, hands on
/// exactly `data[skip..skip + take]` and succeeds, where the range lies within
/// the data.
pub proof fn lemma_range_transfer<S: ByteStream>(
    who: Seq<char>,
    window: SkipTakeStream<S>,
    data: Seq<u8>,
    replies: Replies,
    k: nat,
    result: IoResult<()>,
)
    requires
        drains_to(window.source(), data),
        window.to_skip() + window.remaining() <= data.len(),
        pumps(who, events_of(&window), replies, window.remaining(), k, result),
        forall|written: Seq<Seq<u8>>, given: Seq<u8>|
            (#[trigger] replies(written, given)) is Ok,
    ensures
        result is Ok,
        up_to(joined(events_of(&window), k), window.remaining()) == data.subrange(
            window.to_skip() as int,
            (window.to_skip() + window.remaining()) as int,
        ),
{
    let shown = clip(data, window.to_skip(), window.remaining());
    let range = data.subrange(
        window.to_skip() as int,
        (window.to_skip() + window.remaining()) as int,
    );
    lemma_window_drains(window, data);
    lemma_pump_outcome(
        who,
        events_of(&window),
        replies,
        window.remaining(),
        k,
        result,
        shown,
        end_of_stream(),
    );
    assert(shown =~= range);
    assert(up_to(shown, window.remaining()) =~= range);
}

/// Asking a buffer for more takes the next bytes off what is left.
proof fn lemma_raw_rest_push(data: Seq<u8>, asked: Seq<nat>, want: nat)
    ensures
        ({
            let rest = raw_rest(data, asked);
            raw_rest(data, asked.push(want)) == rest.skip(up_to(rest, want).len() as int)
        }),
    decreases asked.len(),
{
    let more = asked.push(want);
    if asked.len() == 0 {
        let rest = data.skip(up_to(data, want).len() as int);
        assert(raw_rest(rest, more.skip(1)) == rest);
    } else {
        lemma_raw_rest_push(
            data.skip(up_to(data, asked[0]).len() as int),
            asked.skip(1),
            want,
        );
        assert(more.skip(1) =~= asked.skip(1).push(want));
    }
}

/// The reads of a transfer from a buffer deliver the buffer from its front.
proof fn lemma_raw_reads_of_buffer(stream: VecByteStream, size: nat, k: nat)
    ensures
        ({
            let deliveries = deliveries_of(&stream);
            let run = raw_run(deliveries, size, k);
            &&& run.moved <= stream.rest().len()
            &&& raw_rest(stream.rest(), run.asked) == stream.rest().skip(run.moved as int)
            &&& joined(raw_events(deliveries, size), k) == stream.rest().take(run.moved as int)
        }),
    decreases k,
{
    let data = stream.rest();
    let deliveries = deliveries_of(&stream);
    let up = raw_events(deliveries, size);
    let now = raw_run(deliveries, size, k);
    if k == 0 {
        assert(data.skip(0) =~= data);
        assert(joined(up, 0) =~= data.take(0));
    } else {
        let m = (k - 1) as nat;
        let before = raw_run(deliveries, size, m);
        let want = request_len(before.moved, size);
        lemma_raw_reads_of_buffer(stream, size, m);
        lemma_raw_rest_push(data, before.asked, want);
        assert(up(m) == Ok::<Seq<u8>, IoError>(up_to(data.skip(before.moved as int), want)));
        assert(raw_rest(data, now.asked) =~= data.skip(now.moved as int));
        assert(joined(up, k) =~= data.take(now.moved as int));
    }
}

/// A raw transfer of `size` bytes out of a buffer, to a sink that takes what it
/// is given, hands on the first `size` bytes of the buffer and succeeds, or all
/// of them and says how many there were.
pub proof fn lemma_raw_transfer_of_buffer(
    stream: VecByteStream,
    replies: Replies,
    size: nat,
    k: nat,
    result: IoResult<()>,
)
    requires
        raw_pumps(raw_events(deliveries_of(&stream), size), replies, size, k, result),
        forall|written: Seq<Seq<u8>>, given: Seq<u8>|
            (#[trigger] replies(written, given)) is Ok,
    ensures
        joined(raw_events(deliveries_of(&stream), size), k) == up_to(stream.rest(), size),
        result is Ok <==> stream.rest().len() >= size,
        result matches Err(e) ==> (e matches IoError::UnexpectedEof(message) && message@
            == ended_at("pump_compio_to_sink"@, stream.rest().len(), size)),
{
    let data = stream.rest();
    let deliveries = deliveries_of(&stream);
    let up = raw_events(deliveries, size);
    let run = raw_run(deliveries, size, k);
    lemma_raw_reads_of_buffer(stream, size, k);
    assert(answer_to(up, replies, size, k) is Ok);
    assert(up(k) == Ok::<Seq<u8>, IoError>(
        up_to(data.skip(run.moved as int), request_len(run.moved, size)),
    ));
    assert(joined(up, k) =~= up_to(data, size));
}

/// Each of the first `k` reads of a raw source was made while bytes were missing,
/// and delivered something, but no more than it was asked for.
pub open spec fn as_asked(up: Events, size: nat, k: nat) -> bool {
    &&& data_run(up, k)
    &&& forall|i: nat|
        i < k ==> {
            &&& joined(up, i).len() < size
            &&& (#[trigger] up(i))->Ok_0.len() <= request_len(joined(up, i).len(), size)
        }
}

/// A transfer from a raw source needs no cut and never takes more than `size`
/// bytes off the source: as long as the source delivers no more than it is
/// asked for, all that it delivers is handed on, and the transfer is complete
/// with exactly `size` bytes. Until then every read asks for at least one byte
/// and at most for what is left.
pub proof fn lemma_raw_reads_never_overshoot(up: Events, size: nat, k: nat)
    requires
        as_asked(up, size, k),
    ensures
        joined(up, k).len() <= size,
        forall|i: nat| i < k ==> #[trigger] handed_on(up, size, i) == up(i)->Ok_0,
        joined(up, k).len() < size ==> 0 < request_len(joined(up, k).len(), size) <= size - joined(
            up,
            k,
        ).len(),
{
    if k > 0 {
        assert(up((k - 1) as nat)->Ok_0.len() <= size - joined(up, (k - 1) as nat).len());
    }
    assert forall|i: nat| i < k implies #[trigger] handed_on(up, size, i) == up(i)->Ok_0 by {
        assert(up(i)->Ok_0.len() <= size - joined(up, i).len());
        assert(handed_on(up, size, i) =~= up(i)->Ok_0);
    }
}

} // verus!

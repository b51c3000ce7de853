//! What the streams and the transfers do, byte by byte: which byte of the source
//! stands where, and what was asked for and answered on the way.
use bytes::Bytes;
use vstd::prelude::*;
use vstd::string::*;

use crate::buffer::contents;
use crate::error::{IoError, IoResult};
use crate::events::{
    after, bytes_of, events_of, is_data, is_end, joined, lemma_joined_front,
    lemma_joined_prefix, received, Events,
};
use crate::fill::{fills, overwritten};
use crate::laws::rope_bytes;
use crate::pump::{
    all_handed_on, answer_to, ended_at, handed_on, pumps, replies_after, replies_of, request_len,
    sink_failed, up_to, Replies,
};
use crate::raw::{
    delivered, deliveries_after, deliveries_of, lemma_run_counts, raw_events, raw_pumps, raw_run,
    Deliveries, RawSource,
};
use crate::stream::{
    end_of_stream, event_of, filled, ByteSink, ByteStream, VecByteSink,
};
use crate::text::{decimal, lemma_decimal_reads_back, read_back};
use crate::window::{clip, window_read};

verus! {

/// A read hands out the bytes of its chunk, all of them, or its failure. It is
/// data where the chunk has a byte, the end where it has none, and neither where
/// the read failed.
pub proof fn lemma_read_is_one_event(result: IoResult<Bytes>)
    ensures
        result matches Ok(chunk) ==> {
            &&& event_of(result) == Ok::<Seq<u8>, IoError>(contents(chunk))
            &&& is_data(event_of(result)) == (contents(chunk).len() > 0)
            &&& is_end(event_of(result)) == (contents(chunk).len() == 0)
            &&& bytes_of(event_of(result)) == contents(chunk)
        },
        result matches Err(e) ==> {
            &&& event_of(result) == Err::<Seq<u8>, IoError>(e)
            &&& !is_data(event_of(result))
            &&& !is_end(event_of(result))
            &&& bytes_of(event_of(result)).len() == 0
        },
        end_of_stream() is Ok,
        end_of_stream()->Ok_0.len() == 0,
{
}

/// The events of a stream are what its reads will hand out, one by one, and
/// after `k` reads the first `k` are gone and no other.
pub proof fn lemma_reads_go_one_by_one<S: ByteStream>(stream: S, k: nat, i: nat)
    ensures
        events_of(&stream)(i) == stream.upcoming(i),
        after(events_of(&stream), k)(i) == stream.upcoming(i + k),
{
}

/// The answers of a sink are what it answers to what it is given after what it
/// was given before, all of that and in that order.
pub proof fn lemma_answers_go_by_what_was_written<D: ByteSink>(
    sink: D,
    before: Seq<Seq<u8>>,
    written: Seq<Seq<u8>>,
    data: Seq<u8>,
)
    ensures
        replies_of(&sink)(written, data) == sink.reply(written, data),
        replies_after(replies_of(&sink), before)(written, data) == sink.reply(
            before + written,
            data,
        ),
{
}

/// A `VecByteSink` has accepted what is in its buffer, and refuses exactly a
/// write with bytes in it once it is finished.
pub proof fn lemma_vec_sink_answers(sink: VecByteSink, written: Seq<Seq<u8>>, data: Seq<u8>)
    ensures
        sink.accepted() == sink.buf@,
        sink.finished && data.len() > 0 <==> sink.reply(written, data) is Err,
        sink.reply(written, data) matches Err(e) ==> e == IoError::Finished,
        sink.finish_reply() is Ok,
{
}

/// The chunks of a stream are joined without a gap: each begins where the one
/// before it ends, the first one at the front, and each has its own bytes, one
/// by one.
pub proof fn lemma_joined_byte_by_byte(up: Events, n: nat)
    ensures
        joined(up, 0).len() == 0,
        forall|i: nat|
            i < n ==> (#[trigger] joined(up, i)).len() + up(i)->Ok_0.len() == joined(
                up,
                i + 1,
            ).len() <= joined(up, n).len(),
        forall|i: nat, j: int|
            i < n && 0 <= j < up(i)->Ok_0.len() ==> joined(up, n)[joined(up, i).len() + j]
                == #[trigger] up(i)->Ok_0[j],
{
    assert forall|i: nat| i < n implies (#[trigger] joined(up, i)).len() + up(i)->Ok_0.len()
        == joined(up, i + 1).len() <= joined(up, n).len() by {
        lemma_joined_prefix(up, i + 1, n);
    }
    assert forall|i: nat, j: int| i < n && 0 <= j < up(i)->Ok_0.len() implies joined(up, n)[joined(
        up,
        i,
    ).len() + j] == #[trigger] up(i)->Ok_0[j] by {
        lemma_joined_prefix(up, i + 1, n);
        let part = joined(up, i + 1);
        assert(part[joined(up, i).len() + j] == up(i)->Ok_0[j]);
        assert(joined(up, n).take(part.len() as int)[joined(up, i).len() + j] == up(i)->Ok_0[j]);
    }
}

/// What a reader has who went on after failures: the bytes of each successful
/// read, right behind those of the reads before it, and none of a failed one.
pub proof fn lemma_received_byte_by_byte(up: Events, n: nat)
    ensures
        received(up, 0).len() == 0,
        up(n) matches Ok(data) ==> {
            &&& received(up, n + 1).len() == received(up, n).len() + data.len()
            &&& forall|j: int|
                0 <= j < data.len() ==> received(up, n + 1)[received(up, n).len() + j]
                    == #[trigger] data[j]
        },
        up(n) is Err ==> received(up, n + 1).len() == received(up, n).len(),
        forall|j: int|
            0 <= j < received(up, n).len() ==> received(up, n + 1)[j] == #[trigger] received(
                up,
                n,
            )[j],
{
}

/// The first `n` bytes are all, where there are no more, and else `n`; each is
/// the one that stood at its place.
pub proof fn lemma_up_to_byte_by_byte(data: Seq<u8>, n: nat)
    ensures
        up_to(data, n).len() == if n < data.len() { n } else { data.len() },
        forall|j: int| 0 <= j < up_to(data, n).len() ==> #[trigger] up_to(data, n)[j] == data[j],
{
}

/// A window has as many bytes as it was opened for, or as many as there are
/// behind what it leaves out; the first one is the one that stood right behind
/// that, and so on.
pub proof fn lemma_clip_byte_by_byte(data: Seq<u8>, skip: nat, take: nat)
    ensures
        skip >= data.len() ==> clip(data, skip, take).len() == 0,
        skip < data.len() ==> clip(data, skip, take).len() == if take < data.len() - skip {
            take as int
        } else {
            data.len() - skip
        },
        forall|j: int|
            0 <= j < clip(data, skip, take).len() ==> #[trigger] clip(data, skip, take)[j]
                == data[skip + j],
{
}

/// A read of a raw source delivers what stands at the front of the buffer that
/// comes back, as many bytes as it says.
pub proof fn lemma_delivered_byte_by_byte(done: (IoResult<usize>, Vec<u8>))
    ensures
        done.0 matches Ok(n) ==> {
            &&& delivered(done) is Ok
            &&& n <= done.1@.len() ==> delivered(done)->Ok_0.len() == n && forall|j: int|
                0 <= j < n ==> #[trigger] delivered(done)->Ok_0[j] == done.1@[j]
        },
        done.0 matches Err(e) ==> delivered(done) == Err::<Seq<u8>, IoError>(e),
{
}

/// A raw source is asked for what is left, and for one mebibyte at most.
pub proof fn lemma_request_is_bounded(moved: nat, size: nat)
    requires
        moved <= size,
    ensures
        request_len(moved, size) == if size - moved < 1_048_576 { size - moved } else { 1_048_576 },
{
}

/// The deliveries of a raw source are what it delivers when it is asked for so
/// much after it was asked for other amounts before, all of them and in that
/// order.
pub proof fn lemma_deliveries_go_by_what_was_asked<R: RawSource>(
    source: R,
    before: Seq<nat>,
    asked: Seq<nat>,
    want: nat,
)
    ensures
        deliveries_of(&source)(asked, want) == source.delivery(asked, want),
        deliveries_after(deliveries_of(&source), before)(asked, want) == source.delivery(
            before + asked,
            want,
        ),
{
}

/// Frames without a byte are passed over, and no other: what is handed out of a
/// rope are the frames with a byte, in their order.
pub proof fn lemma_filled_are_those_with_a_byte(frames: Seq<Bytes>)
    ensures
        filled(frames) == frames.filter(|frame: Bytes| contents(frame).len() > 0),
    decreases frames.len(),
{
    let pred = |frame: Bytes| contents(frame).len() > 0;
    reveal(Seq::filter);
    if frames.len() > 0 {
        let rest = frames.skip(1);
        lemma_filled_are_those_with_a_byte(rest);
        assert(frames =~= seq![frames[0]] + rest);
        Seq::filter_distributes_over_add(seq![frames[0]], rest, pred);
        let one = seq![frames[0]];
        assert(one.drop_last() =~= Seq::<Bytes>::empty());
        assert(one.drop_last().filter(pred) =~= Seq::<Bytes>::empty());
        assert(one.filter(pred) =~= if pred(frames[0]) {
            one
        } else {
            Seq::empty()
        });
    } else {
        assert(frames.filter(pred) =~= Seq::<Bytes>::empty());
    }
}

/// The bytes of a rope are those of its frames, one frame after the other.
pub proof fn lemma_rope_bytes_are_joined(frames: Seq<Bytes>)
    ensures
        rope_bytes(frames) == frames.map_values(|frame: Bytes| contents(frame)).flatten(),
    decreases frames.len(),
{
    let parts = frames.map_values(|frame: Bytes| contents(frame));
    if frames.len() > 0 {
        lemma_rope_bytes_are_joined(frames.skip(1));
        assert(parts.drop_first() =~= frames.skip(1).map_values(
            |frame: Bytes| contents(frame),
        ));
    }
}

/// What a transfer hands to the sink: of each chunk in turn the bytes from its
/// front, all of them or as many as are missing, one by one.
pub proof fn lemma_handed_on_byte_by_byte(up: Events, size: nat, k: nat)
    ensures
        all_handed_on(up, size, k).len() == k,
        forall|i: nat|
            i < k && joined(up, i).len() <= size ==> {
                let part = #[trigger] all_handed_on(up, size, k)[i as int];
                let missing = size - joined(up, i).len();
                &&& part.len() == if missing < up(i)->Ok_0.len() {
                    missing
                } else {
                    up(i)->Ok_0.len() as int
                }
                &&& forall|j: int| 0 <= j < part.len() ==> #[trigger] part[j] == up(i)->Ok_0[j]
            },
        forall|i: nat| i < k ==> handed_on(up, size, i) == #[trigger] all_handed_on(
            up,
            size,
            k,
        )[i as int],
{
}

/// The message about a source that ended early begins with the name of the
/// transfer, and has the number of bytes that were moved and the number of bytes
/// to move, with a slash between them. Both read back as they are.
///
/// The law gives the place of the slash.
pub proof fn lemma_early_end_reads_back(who: Seq<char>, moved: nat, size: nat) -> (slash: int)
    ensures
        ({
            let text = ended_at(who, moved, size);
            let begin = (who.len() + ": source ended at "@.len()) as int;
            &&& begin < slash < text.len() - 1
            &&& text.take(begin) == who + ": source ended at "@
            &&& text[slash] == '/'
            &&& read_back(text.subrange(begin, slash)) == moved
            &&& read_back(text.skip(slash + 1)) == size
            &&& forall|i: int|
                begin <= i < text.len() && i != slash ==> '0' as int <= (#[trigger] text[i]) as int
                    <= '9' as int
        }),
{
    let text = ended_at(who, moved, size);
    let begin = (who.len() + ": source ended at "@.len()) as int;
    let a = decimal(moved);
    let b = decimal(size);
    let slash = begin + a.len();
    lemma_decimal_reads_back(moved);
    lemma_decimal_reads_back(size);
    reveal_strlit("/");
    assert(text.take(begin) =~= who + ": source ended at "@);
    assert(text.subrange(begin, slash) =~= a);
    assert(text.skip(slash + 1) =~= b);
    assert forall|i: int| begin <= i < text.len() && i != slash implies '0' as int <= (
    #[trigger] text[i]) as int <= '9' as int by {
        if i < slash {
            assert(text[i] == a[i - begin]);
        } else {
            assert(text[i] == b[i - slash - 1]);
        }
    }
    slash
}

/// What a transfer does, step by step. Each chunk was read while bytes were
/// missing and had at least one; the sink took what it was handed of each, after
/// what it was handed of those before. The bytes that were moved are those of the
/// source, at their places: exactly `size` where the transfer succeeds, and fewer
/// where it fails. It fails as the source did, or says how far it got where the
/// source ended, or as the sink did on what it was handed next.
pub proof fn lemma_transfer_byte_by_byte(
    who: Seq<char>,
    up: Events,
    replies: Replies,
    size: nat,
    k: nat,
    result: IoResult<()>,
)
    requires
        pumps(who, up, replies, size, k, result),
    ensures
        forall|i: nat|
            i < k ==> {
                &&& (#[trigger] up(i)) is Ok
                &&& up(i)->Ok_0.len() > 0
                &&& joined(up, i).len() < size
            },
        forall|i: nat|
            i < k ==> replies(
                all_handed_on(up, size, k).take(i as int),
                #[trigger] all_handed_on(up, size, k)[i as int],
            ) is Ok,
        result is Ok ==> joined(up, k).len() >= size && up_to(joined(up, k), size).len() == size,
        forall|i: nat, j: int|
            i < k && 0 <= j < up(i)->Ok_0.len() && joined(up, i).len() + j < size ==> up_to(
                joined(up, k),
                size,
            )[joined(up, i).len() + j] == #[trigger] up(i)->Ok_0[j],
        result matches Err(e) ==> {
            &&& joined(up, k).len() < size
            &&& up(k) matches Err(failure) ==> e == failure
            &&& up(k) matches Ok(data) ==> if data.len() == 0 {
                e matches IoError::UnexpectedEof(message) && message@ == ended_at(
                    who,
                    joined(up, k).len(),
                    size,
                )
            } else {
                replies(
                    all_handed_on(up, size, k),
                    all_handed_on(up, size, k + 1)[k as int],
                ) == Err::<(), IoError>(e)
            }
        },
        sink_failed(up, k, result) <==> result is Err && up(k) is Ok && up(k)->Ok_0.len() > 0,
{
    lemma_joined_byte_by_byte(up, k);
    assert forall|i: nat| i < k implies {
        &&& (#[trigger] up(i)) is Ok
        &&& up(i)->Ok_0.len() > 0
        &&& joined(up, i).len() < size
    } by {
        assert(is_data(up(i)));
        lemma_joined_prefix(up, i, (k - 1) as nat);
    }
    assert forall|i: nat| i < k implies replies(
        all_handed_on(up, size, k).take(i as int),
        #[trigger] all_handed_on(up, size, k)[i as int],
    ) is Ok by {
        assert(all_handed_on(up, size, k).take(i as int) =~= all_handed_on(up, size, i));
        assert(answer_to(up, replies, size, i) is Ok);
    }
}

/// What a raw source is asked for in the course of a transfer, and what its
/// answers amount to: the `i`-th read asks for what is missing then, one mebibyte
/// at most, and the `i`-th event of the transfer is what that very read delivers.
pub proof fn lemma_raw_reads_are_as_delivered(deliveries: Deliveries, size: nat, i: nat)
    ensures
        ({
            let up = raw_events(deliveries, size);
            let run = raw_run(deliveries, size, i);
            &&& run.asked.len() == i
            &&& run.moved == joined(up, i).len()
            &&& forall|j: nat|
                j < i ==> #[trigger] run.asked[j as int] == request_len(joined(up, j).len(), size)
            &&& up(i) == deliveries(run.asked, request_len(joined(up, i).len(), size))
        }),
    decreases i,
{
    let up = raw_events(deliveries, size);
    let run = raw_run(deliveries, size, i);
    lemma_run_counts(deliveries, size, i);
    if i > 0 {
        lemma_raw_reads_are_as_delivered(deliveries, size, (i - 1) as nat);
    }
}

/// What a transfer from a raw source gives the sink: exactly the deliveries of
/// the source, one right behind the other, however short they are.
///
/// The law gives the places of the deliveries among the bytes that are moved:
/// `places[i]` is how much had been moved before the `i`-th read. That read asks
/// for what is missing then, one mebibyte at most. Where the transfer succeeds,
/// the deliveries have exactly `size` bytes, else fewer.
pub proof fn lemma_raw_transfer_byte_by_byte(
    deliveries: Deliveries,
    replies: Replies,
    size: nat,
    k: nat,
    result: IoResult<()>,
) -> (places: Seq<int>)
    requires
        raw_pumps(raw_events(deliveries, size), replies, size, k, result),
    ensures
        places.len() == k + 1,
        places[0] == 0,
        places[k as int] == joined(raw_events(deliveries, size), k).len(),
        result is Ok ==> places[k as int] == size,
        result is Err ==> places[k as int] < size,
        forall|i: int|
            0 <= i < k ==> {
                let ask = |left: int|
                    if left < 1_048_576 {
                        left as nat
                    } else {
                        1_048_576nat
                    };
                let delivery = deliveries(
                    Seq::new(i as nat, |j: int| ask(size - places[j])),
                    ask(size - places[i]),
                );
                &&& 0 <= #[trigger] places[i] < size
                &&& delivery is Ok
                &&& delivery->Ok_0.len() > 0
                &&& places[i + 1] == places[i] + delivery->Ok_0.len()
                &&& joined(raw_events(deliveries, size), k).subrange(places[i], places[i + 1])
                    == delivery->Ok_0
                &&& all_handed_on(raw_events(deliveries, size), size, k)[i] == delivery->Ok_0
            },
{
    let up = raw_events(deliveries, size);
    let places = Seq::new(k + 1, |i: int| joined(up, i as nat).len() as int);
    lemma_joined_byte_by_byte(up, k);
    assert forall|i: int| 0 <= i < k implies {
        let ask = |left: int|
            if left < 1_048_576 {
                left as nat
            } else {
                1_048_576nat
            };
        let delivery = deliveries(
            Seq::new(i as nat, |j: int| ask(size - places[j])),
            ask(size - places[i]),
        );
        &&& 0 <= #[trigger] places[i] < size
        &&& delivery is Ok
        &&& delivery->Ok_0.len() > 0
        &&& places[i + 1] == places[i] + delivery->Ok_0.len()
        &&& joined(up, k).subrange(places[i], places[i + 1]) == delivery->Ok_0
        &&& all_handed_on(up, size, k)[i] == delivery->Ok_0
    } by {
        let m = i as nat;
        let run = raw_run(deliveries, size, m);
        let ask = |left: int|
            if left < 1_048_576 {
                left as nat
            } else {
                1_048_576nat
            };
        lemma_raw_reads_are_as_delivered(deliveries, size, m);
        lemma_joined_prefix(up, m, (k - 1) as nat);
        lemma_joined_prefix(up, m + 1, k);
        assert forall|j: int| 0 <= j < i implies #[trigger] run.asked[j] == ask(
            size - places[j],
        ) by {
            lemma_joined_prefix(up, j as nat, m);
            assert(run.asked[(j as nat) as int] == request_len(joined(up, j as nat).len(), size));
        }
        assert(run.asked =~= Seq::new(m, |j: int| ask(size - places[j])));
        assert(is_data(up(m)));
        assert(joined(up, m + 1) == joined(up, m) + up(m)->Ok_0);
        assert(joined(up, k).subrange(places[i], places[i + 1]) =~= up(m)->Ok_0);
        assert(all_handed_on(up, size, k)[i] =~= up(m)->Ok_0);
    }
    places
}

/// What filling a buffer does to it: it keeps its length, has the bytes of the
/// stream at its front, one by one, and keeps its old bytes behind them. The
/// count says how many are the stream's; the buffer is full of them, or the
/// stream ended or failed.
pub proof fn lemma_fill_byte_by_byte(
    up: Events,
    dst: Seq<u8>,
    now: Seq<u8>,
    k: nat,
    result: IoResult<usize>,
)
    requires
        fills(up, dst.len(), k, result),
        now == overwritten(dst, up_to(joined(up, k), dst.len())),
    ensures
        now.len() == dst.len(),
        forall|j: int|
            0 <= j < dst.len() ==> #[trigger] now[j] == if j < joined(up, k).len() {
                joined(up, k)[j]
            } else {
                dst[j]
            },
        forall|i: nat, j: int|
            i < k && 0 <= j < up(i)->Ok_0.len() && joined(up, i).len() + j < dst.len() ==> now[joined(
                up,
                i,
            ).len() + j] == #[trigger] up(i)->Ok_0[j],
        forall|i: nat|
            i < k ==> {
                &&& (#[trigger] up(i)) is Ok
                &&& up(i)->Ok_0.len() > 0
                &&& joined(up, i).len() < dst.len()
            },
        result matches Ok(n) ==> {
            &&& n == dst.len() && joined(up, k).len() >= n || n == joined(up, k).len()
            &&& n <= dst.len()
            &&& n < dst.len() ==> up(k) is Ok && up(k)->Ok_0.len() == 0
        },
        result matches Err(e) ==> joined(up, k).len() < dst.len() && up(k) == Err::<
            Seq<u8>,
            IoError,
        >(e),
{
    lemma_joined_byte_by_byte(up, k);
    assert forall|i: nat| i < k implies {
        &&& (#[trigger] up(i)) is Ok
        &&& up(i)->Ok_0.len() > 0
        &&& joined(up, i).len() < dst.len()
    } by {
        assert(is_data(up(i)));
        lemma_joined_prefix(up, i, (k - 1) as nat);
    }
}

/// Writing over the front of a buffer keeps its length and what is behind.
pub proof fn lemma_overwritten_byte_by_byte(dst: Seq<u8>, data: Seq<u8>)
    requires
        data.len() <= dst.len(),
    ensures
        overwritten(dst, data).len() == dst.len(),
        forall|j: int|
            0 <= j < dst.len() ==> #[trigger] overwritten(dst, data)[j] == if j < data.len() {
                data[j]
            } else {
                dst[j]
            },
{
}

/// What one read of a window does. A complete window reads nothing and ends.
/// Else chunks are read and dropped as long as they lie before the window. The
/// next one decides: a failure or the end is passed on, and of a chunk that
/// reaches into the window the bytes in it are handed out, one by one.
pub proof fn lemma_window_read_byte_by_byte(up: Events, skip: nat, take: nat)
    ensures
        ({
            let read = window_read(up, skip, take);
            let last = (read.reads - 1) as nat;
            let dropped = joined(up, last).len();
            &&& take == 0 ==> {
                &&& read.reads == 0
                &&& read.event is Ok
                &&& read.event->Ok_0.len() == 0
                &&& read.to_skip == skip
                &&& read.remaining == 0
            }
            &&& take > 0 ==> {
                &&& read.reads > 0
                &&& forall|i: nat| i < last ==> (#[trigger] up(i)) is Ok && up(i)->Ok_0.len() > 0
                &&& dropped <= skip
                &&& up(last) is Err || up(last)->Ok_0.len() == 0 ==> {
                    &&& read.event == up(last)
                    &&& read.to_skip == skip - dropped
                    &&& read.remaining == take
                }
                &&& up(last) matches Ok(chunk) ==> chunk.len() > 0 ==> {
                    let begin = skip - dropped;
                    &&& begin < chunk.len()
                    &&& read.event is Ok
                    &&& read.event->Ok_0.len() == if take < chunk.len() - begin {
                        take as int
                    } else {
                        chunk.len() - begin
                    }
                    &&& forall|j: int|
                        0 <= j < read.event->Ok_0.len() ==> #[trigger] read.event->Ok_0[j]
                            == chunk[begin + j]
                    &&& read.to_skip == 0
                    &&& read.remaining == take - read.event->Ok_0.len()
                }
            }
        }),
    decreases skip,
{
    if take > 0 && is_data(up(0)) && up(0)->Ok_0.len() <= skip {
        let less = (skip - up(0)->Ok_0.len()) as nat;
        let rest = after(up, 1);
        let later = window_read(rest, less, take);
        let read = window_read(up, skip, take);
        lemma_window_read_byte_by_byte(rest, less, take);
        let m = (later.reads - 1) as nat;
        lemma_joined_front(up, m);
        assert(rest(m) == up(m + 1));
        assert forall|i: nat| i < (read.reads - 1) as nat implies (#[trigger] up(i)) is Ok
            && up(i)->Ok_0.len() > 0 by {
            if i > 0 {
                assert(rest((i - 1) as nat) == up(i));
            }
        }
    } else {
        assert(joined(up, 0).len() == 0);
    }
}

} // verus!

//! Moving an exact number of bytes from a raw source, which fills the buffer
//! that it is handed, to a sink.
use vstd::prelude::*;
use vstd::string::*;

use crate::buffer::contents;
use crate::error::{IoError, IoResult};
use crate::events::{data_run, is_data, joined, lemma_joined_prefix, Events};
use crate::pump::{
    all_handed_on, answer_to, ended_at, handed_on, lemma_no_replies_used, lemma_replies_used,
    pumps, replies_after, replies_of, request_len, sink_failed, up_to, Replies, Transfer,
};
use crate::stream::{ByteSink, Event};

verus! {

/// What a read of a raw source amounts to: the bytes that it put at the front of
/// the buffer, or a failure.
pub open spec fn delivered(done: (IoResult<usize>, Vec<u8>)) -> Event {
    match done.0 {
        Ok(n) => Ok(done.1@.take(n as int)),
        Err(e) => Err(e),
    }
}

/// Source that is told how much to deliver, and delivers into a buffer that it
/// owns for the duration of the read.
///
/// Nothing is known of what a source will deliver, but that it is no more than
/// it is asked for. The contract of `read_some` only gives it a name; an
/// implementation outside this crate is taken at its word.
pub trait RawSource {
    /// What a `read_some` will deliver if it is asked for `want` bytes and the
    /// calls from now up to it are asked for `asked`, one after the other.
    closed spec fn delivery(&self, asked: Seq<nat>, want: nat) -> Event {
        arbitrary()
    }

    /// Puts at most `want` bytes at the front of `buf`, and hands `buf` back
    /// with their number. No byte is the end of the source.
    fn read_some(&mut self, buf: Vec<u8>, want: usize) -> (done: (IoResult<usize>, Vec<u8>))
        ensures
            delivered(done) == old(self).delivery(Seq::empty(), want as nat),
            forall|asked: Seq<nat>, next: nat| #[trigger]
                final(self).delivery(asked, next) == old(self).delivery(
                    seq![want as nat] + asked,
                    next,
                ),
            done.0 matches Ok(n) ==> n <= want && n <= done.1@.len(),
    ;
}

/// What a raw source will deliver, by what it was asked for before and what it
/// is asked for.
pub type Deliveries = spec_fn(Seq<nat>, nat) -> Event;

/// The deliveries of a raw source.
pub open spec fn deliveries_of<R: RawSource + ?Sized>(source: &R) -> Deliveries {
    |asked: Seq<nat>, want: nat| source.delivery(asked, want)
}

/// The deliveries that are left after the source was asked for `before`.
pub open spec fn deliveries_after(deliveries: Deliveries, before: Seq<nat>) -> Deliveries {
    |asked: Seq<nat>, want: nat| deliveries(before + asked, want)
}

/// How far a transfer from a raw source has come.
pub struct RawRun {
    /// What the source was asked for, read by read.
    pub asked: Seq<nat>,
    /// The number of bytes that it has delivered.
    pub moved: nat,
}

/// A transfer of `size` bytes after `k` reads of the source.
pub open spec fn raw_run(deliveries: Deliveries, size: nat, k: nat) -> RawRun
    decreases k,
{
    if k == 0 {
        RawRun { asked: Seq::empty(), moved: 0 }
    } else {
        let before = raw_run(deliveries, size, (k - 1) as nat);
        let want = request_len(before.moved, size);
        RawRun {
            asked: before.asked.push(want),
            moved: before.moved + deliveries(before.asked, want)->Ok_0.len(),
        }
    }
}

/// What the reads of a transfer of `size` bytes deliver: each asks for what is
/// left then, at most for the size of the transfer buffer.
pub open spec fn raw_events(deliveries: Deliveries, size: nat) -> Events {
    |i: nat|
        {
            let before = raw_run(deliveries, size, i);
            deliveries(before.asked, request_len(before.moved, size))
        }
}

/// A transfer of `size` bytes, from a raw source whose reads deliver `up` to a
/// sink with the answers `replies`, that has moved `k` deliveries, ends with
/// `result`: as any transfer does, and without a byte too many taken off the
/// source.
pub open spec fn raw_pumps(
    up: Events,
    replies: Replies,
    size: nat,
    k: nat,
    result: IoResult<()>,
) -> bool {
    &&& pumps("pump_compio_to_sink"@, up, replies, size, k, result)
    &&& joined(up, k).len() <= size
}

/// The count of a run is that of the bytes that its reads deliver.
pub(crate) proof fn lemma_run_counts(deliveries: Deliveries, size: nat, k: nat)
    ensures
        raw_run(deliveries, size, k).moved == joined(raw_events(deliveries, size), k).len(),
    decreases k,
{
    if k > 0 {
        lemma_run_counts(deliveries, size, (k - 1) as nat);
    }
}

/// Before the first read all deliveries are left.
proof fn lemma_no_deliveries_used(deliveries: Deliveries)
    ensures
        deliveries_after(deliveries, Seq::empty()) == deliveries,
{
    assert forall|asked: Seq<nat>, want: nat| #[trigger]
        deliveries_after(deliveries, Seq::empty())(asked, want) == deliveries(asked, want) by {
        assert(Seq::<nat>::empty() + asked =~= asked);
    }
    assert(deliveries_after(deliveries, Seq::empty()) =~= deliveries);
}

/// One more read uses one more delivery.
proof fn lemma_deliveries_used(deliveries: Deliveries, before: Seq<nat>, want: nat)
    ensures
        ({
            let here = deliveries_after(deliveries, before);
            &&& here(Seq::empty(), want) == deliveries(before, want)
            &&& deliveries_after(here, seq![want]) == deliveries_after(
                deliveries,
                before.push(want),
            )
        }),
{
    let here = deliveries_after(deliveries, before);
    let now = before.push(want);
    assert(before + Seq::empty() =~= before);
    assert forall|asked: Seq<nat>, next: nat| #[trigger]
        deliveries_after(here, seq![want])(asked, next) == deliveries_after(deliveries, now)(
            asked,
            next,
        ) by {
        assert(before + (seq![want] + asked) =~= now + asked);
    }
    assert(deliveries_after(here, seq![want]) =~= deliveries_after(deliveries, now));
}

/// Pumps exactly `size` bytes from a raw source into a sink, through a transfer
/// buffer of bounded size. Fails with `UnexpectedEof` on a short source.
///
/// Each buffer is handed to the sink as it is, so that each read needs its own.
/// A read asks for no more than is left, so that nothing is ever cut.
pub fn pump_compio_to_sink<R: RawSource + ?Sized, D: ByteSink + ?Sized>(
    src: &mut R,
    dst: &mut D,
    size: u64,
) -> (result: IoResult<()>)
    ensures
        ({
            let deliveries = deliveries_of(&*old(src));
            let up = raw_events(deliveries, size as nat);
            let replies = replies_of(&*old(dst));
            exists|k: nat|
                {
                    &&& #[trigger] raw_pumps(up, replies, size as nat, k, result)
                    &&& deliveries_of(&*final(src)) == deliveries_after(
                        deliveries,
                        raw_run(
                            deliveries,
                            size as nat,
                            if result is Ok { k } else { k + 1 },
                        ).asked,
                    )
                    &&& replies_of(&*final(dst)) == replies_after(
                        replies,
                        all_handed_on(
                            up,
                            size as nat,
                            if sink_failed(up, k, result) { k + 1 } else { k },
                        ),
                    )
                    &&& !sink_failed(up, k, result) ==> final(dst).accepted()
                        == old(dst).accepted() + joined(up, k)
                }
        }),
{
    let ghost deliveries = deliveries_of(&*src);
    let ghost up = raw_events(deliveries, size as nat);
    let ghost replies = replies_of(&*dst);
    let ghost start = dst.accepted();
    let ghost mut k: nat = 0;
    let mut transfer: Transfer = Transfer::new(size);
    proof {
        lemma_no_deliveries_used(deliveries);
        lemma_no_replies_used(replies, all_handed_on(up, size as nat, 0));
    }
    assert(dst.accepted() =~= start + joined(up, 0));
    while !transfer.is_complete()
        invariant
            deliveries == deliveries_of(&*old(src)),
            up == raw_events(deliveries, size as nat),
            replies == replies_of(&*old(dst)),
            start == old(dst).accepted(),
            deliveries_of(&*src) == deliveries_after(
                deliveries,
                raw_run(deliveries, size as nat, k).asked,
            ),
            replies_of(&*dst) == replies_after(replies, all_handed_on(up, size as nat, k)),
            data_run(up, k),
            forall|i: nat|
                i < k ==> (#[trigger] answer_to(up, replies, size as nat, i)) is Ok,
            k > 0 ==> joined(up, (k - 1) as nat).len() < size,
            joined(up, k).len() <= size,
            transfer.size() == size,
            transfer.moved() == joined(up, k).len(),
            dst.accepted() == start + joined(up, k),
        decreases transfer.size() - transfer.moved(),
    {
        let ghost here = deliveries_of(&*src);
        let ghost answers = replies_of(&*dst);
        let ghost run = raw_run(deliveries, size as nat, k);
        let want: usize = transfer.read_len();
        let buf: Vec<u8> = Vec::with_capacity(want);
        let done = src.read_some(buf, want);
        proof {
            lemma_run_counts(deliveries, size as nat, k);
            lemma_deliveries_used(deliveries, run.asked, want as nat);
            assert(delivered(done) == here(Seq::empty(), want as nat));
            assert(delivered(done) == up(k));
            assert(deliveries_of(&*src) =~= deliveries_after(here, seq![want as nat]));
            assert(raw_run(deliveries, size as nat, k + 1).asked == run.asked.push(want as nat));
        }
        let (read, buf) = done;
        let n: usize = match read {
            Ok(n) => n,
            Err(e) => {
                assert(raw_pumps(up, replies, size as nat, k, Err(e)));
                return Err(e);
            },
        };
        let part = match transfer.buffer_to_write(buf, n) {
            Ok(part) => part,
            Err(e) => {
                assert(raw_pumps(up, replies, size as nat, k, Err(e)));
                return Err(e);
            },
        };
        let ghost data = handed_on(up, size as nat, k);
        assert(contents(part) =~= up(k)->Ok_0);
        assert(contents(part) =~= data);
        let written = dst.write_all(part);
        assert(written == answers(Seq::empty(), data));
        assert(replies_of(&*dst) =~= replies_after(answers, seq![data]));
        proof {
            lemma_replies_used(up, replies, size as nat, k);
        }
        match written {
            Ok(_) => {},
            Err(e) => {
                assert(raw_pumps(up, replies, size as nat, k, Err(e)));
                return Err(e);
            },
        }
        transfer.advance(n);
        assert(start + joined(up, k) + data =~= start + joined(up, k + 1));
        proof {
            k = k + 1;
        }
    }
    assert(raw_pumps(up, replies, size as nat, k, Ok(())));
    Ok(())
}

/// A transfer from a raw source hands on all that the source delivers, uncut.
/// It succeeds with exactly `size` bytes taken off the source; where the source
/// ends early it fails with the number of bytes that were delivered.
pub proof fn lemma_raw_transfer_is_exact(
    up: Events,
    replies: Replies,
    size: nat,
    k: nat,
    result: IoResult<()>,
)
    requires
        raw_pumps(up, replies, size, k, result),
    ensures
        forall|i: nat| i < k ==> #[trigger] handed_on(up, size, i) == up(i)->Ok_0,
        result is Ok ==> joined(up, k).len() == size,
        result is Err ==> joined(up, k).len() < size,
        result is Err && up(k) is Ok && !is_data(up(k)) ==> (result matches Err(
            IoError::UnexpectedEof(message),
        ) && message@ == ended_at(
            "pump_compio_to_sink"@,
            joined(up, k).len(),
            size,
        )),
{
    assert forall|i: nat| i < k implies #[trigger] handed_on(up, size, i) == up(i)->Ok_0 by {
        lemma_joined_prefix(up, i + 1, k);
        assert(handed_on(up, size, i) =~= up(i)->Ok_0);
    }
}

/// What is left of a buffer that is read raw, after it was asked for `asked`.
pub open spec fn raw_rest(data: Seq<u8>, asked: Seq<nat>) -> Seq<u8>
    decreases asked.len(),
{
    if asked.len() == 0 {
        data
    } else {
        raw_rest(data.skip(up_to(data, asked[0]).len() as int), asked.skip(1))
    }
}

} // verus!

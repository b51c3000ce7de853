//! What a stream will hand out, as a sequence of events, and what that
//! sequence amounts to for a reader who takes no interest in chunk boundaries.
use vstd::prelude::*;

use crate::stream::{end_of_stream, ByteStream, Event};

verus! {

/// The events that a stream will hand out, by the number of the read.
pub type Events = spec_fn(nat) -> Event;

/// The events of a stream.
pub open spec fn events_of<S: ByteStream + ?Sized>(stream: &S) -> Events {
    |i: nat| stream.upcoming(i)
}

/// What is left of a sequence after its first `k` items, such as the events of
/// a stream after `k` reads.
pub open spec fn after<T>(up: spec_fn(nat) -> T, k: nat) -> spec_fn(nat) -> T {
    |i: nat| up(i + k)
}

/// A chunk that is not empty.
pub open spec fn is_data(event: Event) -> bool {
    event is Ok && event->Ok_0.len() > 0
}

/// An empty chunk: the end of the stream.
pub open spec fn is_end(event: Event) -> bool {
    event is Ok && event->Ok_0.len() == 0
}

/// The first `n` events are all data.
pub open spec fn data_run(up: Events, n: nat) -> bool {
    forall|i: nat| i < n ==> is_data(#[trigger] up(i))
}

/// The bytes of the first `n` events, one after the other.
pub open spec fn joined(up: Events, n: nat) -> Seq<u8>
    decreases n,
{
    if n == 0 {
        Seq::empty()
    } else {
        joined(up, (n - 1) as nat) + up((n - 1) as nat)->Ok_0
    }
}

/// The bytes of an event: those of the chunk, and none of a failure.
pub open spec fn bytes_of(event: Event) -> Seq<u8> {
    match event {
        Ok(data) => data,
        Err(_) => Seq::empty(),
    }
}

/// The bytes that a reader has who made `n` reads and went on after failures.
pub open spec fn received(up: Events, n: nat) -> Seq<u8>
    decreases n,
{
    if n == 0 {
        Seq::empty()
    } else {
        received(up, (n - 1) as nat) + bytes_of(up((n - 1) as nat))
    }
}

/// A reader who reads on while there is data gets `data`, and then `last`,
/// which is the end of the stream or a failure.
pub open spec fn runs_to(up: Events, data: Seq<u8>, last: Event) -> bool {
    exists|n: nat| #[trigger] runs_to_at(up, n, data, last)
}

/// [`runs_to`], with the number of reads that give data.
pub open spec fn runs_to_at(up: Events, n: nat, data: Seq<u8>, last: Event) -> bool {
    &&& data_run(up, n)
    &&& joined(up, n) == data
    &&& up(n) == last
    &&& !is_data(last)
}

/// A reader who reads on to the end of the stream gets `data`.
pub open spec fn drains_to(up: Events, data: Seq<u8>) -> bool {
    runs_to(up, data, end_of_stream())
}

/// What a stream runs to does not depend on how a reader looks at it: there is
/// one run of data and one event that ends it.
pub proof fn lemma_run_is_unique(up: Events, a: Seq<u8>, end_a: Event, b: Seq<u8>, end_b: Event)
    requires
        runs_to(up, a, end_a),
        runs_to(up, b, end_b),
    ensures
        a == b,
        end_a == end_b,
{
    let n = choose|n: nat| #[trigger] runs_to_at(up, n, a, end_a);
    let m = choose|m: nat| #[trigger] runs_to_at(up, m, b, end_b);
    if n < m {
        assert(is_data(up(n)));
    } else if m < n {
        assert(is_data(up(m)));
    }
}

/// The bytes of `n + 1` events are those of the first, then those of the rest.
pub proof fn lemma_joined_front(up: Events, n: nat)
    ensures
        joined(up, n + 1) == up(0)->Ok_0 + joined(after(up, 1), n),
    decreases n,
{
    if n == 0 {
        assert(joined(up, 0) == Seq::<u8>::empty());
        assert(joined(up, 1) == joined(up, 0) + up(0)->Ok_0);
    } else {
        lemma_joined_front(up, (n - 1) as nat);
        assert(after(up, 1)((n - 1) as nat) == up(n));
    }
}

/// A longer run of events has at least the bytes of a shorter one.
pub proof fn lemma_joined_prefix(up: Events, n: nat, m: nat)
    requires
        n <= m,
    ensures
        joined(up, n).len() <= joined(up, m).len(),
        joined(up, n) == joined(up, m).take(joined(up, n).len() as int),
    decreases m,
{
    if n < m {
        lemma_joined_prefix(up, n, (m - 1) as nat);
        assert(joined(up, n) == joined(up, m).take(joined(up, n).len() as int));
    } else {
        assert(joined(up, n) == joined(up, m).take(joined(up, n).len() as int));
    }
}

/// The bytes of `n + m` reads are those of the first `n`, then those of the rest.
pub proof fn lemma_received_split(up: Events, n: nat, m: nat)
    ensures
        received(up, n + m) == received(up, n) + received(after(up, n), m),
    decreases m,
{
    if m == 0 {
        assert(received(up, n + m) =~= received(up, n) + received(after(up, n), m));
    } else {
        let l = (m - 1) as nat;
        lemma_received_split(up, n, l);
        assert(after(up, n)(l) == up((n + m - 1) as nat));
        assert(received(up, n + m) =~= received(up, n) + received(after(up, n), m));
    }
}

/// A run whose first event is data goes on as the run of the rest.
pub proof fn lemma_run_front(up: Events, data: Seq<u8>, last: Event)
    requires
        is_data(up(0)),
        runs_to(after(up, 1), data, last),
    ensures
        runs_to(up, up(0)->Ok_0 + data, last),
{
    let n = choose|n: nat| #[trigger] runs_to_at(after(up, 1), n, data, last);
    lemma_joined_front(up, n);
    assert(after(up, 1)(n) == up(n + 1));
    assert forall|i: nat| i < n + 1 implies is_data(#[trigger] up(i)) by {
        if i > 0 {
            let j = (i - 1) as nat;
            assert(is_data(after(up, 1)(j)));
        }
    }
    assert(runs_to_at(up, n + 1, up(0)->Ok_0 + data, last));
}

} // verus!

//! Which nodes of a cluster answer.
use vstd::prelude::*;

use crate::nodes::{Address, RpcAddr};

verus! {

/// How a probe of a node ended.
#[derive(Clone, Copy, Debug, PartialEq, Eq, Structural)]
pub enum ProbeOutcome {
    /// The connection was made in time.
    Connected,
    /// The connection failed.
    Refused,
    /// The time was up.
    TimedOut,
}

impl ProbeOutcome {
    /// A node counts as up when the connection was made in time; a timeout and
    /// a connection error both count as down.
    pub fn is_up(&self) -> (up: bool)
        ensures
            up == (*self == ProbeOutcome::Connected),
    {
        matches!(self, ProbeOutcome::Connected)
    }
}

/// What the probes found, by the address of the RPC listener.
pub struct Liveness {
    entries: Vec<(RpcAddr, bool)>,
}

/// Whether `entries[i]` is about the node at `addr`.
spec fn is_about(entries: Seq<(RpcAddr, bool)>, i: int, addr: Address) -> bool {
    0 <= i < entries.len() && entries[i].0@ == addr
}

/// The entries as a map.
spec fn as_map(entries: Seq<(RpcAddr, bool)>) -> Map<Address, bool> {
    Map::new(
        |addr: Address| exists|i: int| is_about(entries, i, addr),
        |addr: Address| entries[choose|i: int| is_about(entries, i, addr)].1,
    )
}

/// No address occurs twice.
spec fn is_distinct(entries: Seq<(RpcAddr, bool)>) -> bool {
    forall|i: int, j: int, addr: Address|
        #[trigger] is_about(entries, i, addr) && #[trigger] is_about(entries, j, addr) ==> i == j
}

/// The map has the values of the entries.
proof fn lemma_entry_in_map(entries: Seq<(RpcAddr, bool)>, i: int, addr: Address)
    requires
        is_distinct(entries),
        is_about(entries, i, addr),
    ensures
        as_map(entries).dom().contains(addr),
        as_map(entries)[addr] == entries[i].1,
{
    let j = choose|j: int| is_about(entries, j, addr);
    assert(is_about(entries, j, addr));
}

/// Replacing the entry about an address changes the map at that address.
proof fn lemma_replaced_entry(entries: Seq<(RpcAddr, bool)>, i: int, addr: RpcAddr, up: bool)
    requires
        is_distinct(entries),
        is_about(entries, i, addr@),
    ensures
        is_distinct(entries.update(i, (addr, up))),
        as_map(entries.update(i, (addr, up))) == as_map(entries).insert(addr@, up),
{
    let now = entries.update(i, (addr, up));
    assert forall|j: int, a: Address| #[trigger] is_about(now, j, a) == is_about(
        entries,
        j,
        a,
    ) by {}
    assert(is_distinct(now)) by {
        assert forall|j: int, k: int, a: Address| #[trigger]
            is_about(now, j, a) && #[trigger] is_about(now, k, a) implies j == k by {
            assert(is_about(entries, j, a) && is_about(entries, k, a));
        }
    }
    assert forall|a: Address| as_map(now).dom().contains(a) == as_map(entries).insert(
        addr@,
        up,
    ).dom().contains(a) by {
        assert(is_about(now, i, addr@));
        if as_map(entries).dom().contains(a) {
            let j = choose|j: int| is_about(entries, j, a);
            assert(is_about(now, j, a));
        }
    }
    assert forall|a: Address| #[trigger] as_map(now).dom().contains(a) implies as_map(now)[a]
        == as_map(entries).insert(addr@, up)[a] by {
        let j = choose|j: int| is_about(now, j, a);
        assert(is_about(entries, j, a));
        lemma_entry_in_map(now, j, a);
        lemma_entry_in_map(entries, j, a);
        if a == addr@ {
            assert(j == i);
        }
    }
    assert(as_map(now) =~= as_map(entries).insert(addr@, up));
}

/// An entry about a new address adds it to the map.
proof fn lemma_added_entry(entries: Seq<(RpcAddr, bool)>, addr: RpcAddr, up: bool)
    requires
        is_distinct(entries),
        !as_map(entries).dom().contains(addr@),
    ensures
        is_distinct(entries.push((addr, up))),
        as_map(entries.push((addr, up))) == as_map(entries).insert(addr@, up),
{
    let now = entries.push((addr, up));
    let end = entries.len() as int;
    assert forall|j: int| !is_about(entries, j, addr@) by {}
    assert forall|j: int, a: Address| #[trigger] is_about(now, j, a) == (is_about(entries, j, a)
        || j == end && a == addr@) by {}
    assert(is_distinct(now)) by {
        assert forall|j: int, k: int, a: Address| #[trigger]
            is_about(now, j, a) && #[trigger] is_about(now, k, a) implies j == k by {}
    }
    assert forall|a: Address| as_map(now).dom().contains(a) == as_map(entries).insert(
        addr@,
        up,
    ).dom().contains(a) by {
        assert(is_about(now, end, addr@));
        if as_map(entries).dom().contains(a) {
            let j = choose|j: int| is_about(entries, j, a);
            assert(is_about(now, j, a));
        }
    }
    assert forall|a: Address| #[trigger] as_map(now).dom().contains(a) implies as_map(now)[a]
        == as_map(entries).insert(addr@, up)[a] by {
        let j = choose|j: int| is_about(now, j, a);
        lemma_entry_in_map(now, j, a);
        if j < end {
            lemma_entry_in_map(entries, j, a);
        }
    }
    assert(as_map(now) =~= as_map(entries).insert(addr@, up));
}

impl View for Liveness {
    type V = Map<Address, bool>;

    /// Whether a node is up, by its address.
    closed spec fn view(&self) -> Map<Address, bool> {
        as_map(self.entries@)
    }
}

impl Liveness {
    /// No address occurs twice.
    #[verifier::type_invariant]
    spec fn distinct(&self) -> bool {
        is_distinct(self.entries@)
    }

    /// Nothing is known yet.
    pub fn new() -> (liveness: Self)
        ensures
            liveness@ == Map::<Address, bool>::empty(),
    {
        let liveness = Self { entries: Vec::new() };
        assert(liveness@ =~= Map::<Address, bool>::empty());
        liveness
    }

    /// The index of the entry about `addr`.
    fn find(&self, addr: &RpcAddr) -> (at: Option<usize>)
        ensures
            match at {
                Some(i) => is_about(self.entries@, i as int, addr@),
                None => !self@.dom().contains(addr@),
            },
    {
        let mut i: usize = 0;
        while i < self.entries.len()
            invariant
                forall|j: int| 0 <= j < i ==> !is_about(self.entries@, j, addr@),
                i <= self.entries.len(),
            decreases self.entries.len() - i,
        {
            if self.entries[i].0.is_same(addr) {
                return Some(i);
            }
            i = i + 1;
        }
        None
    }

    /// Notes whether the node at `addr` is up. A later note about an address
    /// replaces an earlier one.
    pub fn record(&mut self, addr: RpcAddr, up: bool)
        ensures
            final(self)@ == old(self)@.insert(addr@, up),
    {
        proof {
            use_type_invariant(&*self);
        }
        let at = self.find(&addr);
        let mut entries: Vec<(RpcAddr, bool)> = Vec::new();
        std::mem::swap(&mut entries, &mut self.entries);
        match at {
            Some(i) => {
                proof {
                    lemma_replaced_entry(entries@, i as int, addr, up);
                }
                entries.set(i, (addr, up));
            },
            None => {
                proof {
                    lemma_added_entry(entries@, addr, up);
                }
                entries.push((addr, up));
            },
        }
        self.entries = entries;
    }

    /// What is known of the node at `addr`.
    pub fn get(&self, addr: &RpcAddr) -> (up: Option<bool>)
        ensures
            up == if self@.dom().contains(addr@) {
                Some(self@[addr@])
            } else {
                None
            },
    {
        proof {
            use_type_invariant(self);
        }
        match self.find(addr) {
            Some(i) => {
                proof {
                    lemma_entry_in_map(self.entries@, i as int, addr@);
                }
                Some(self.entries[i].1)
            },
            None => None,
        }
    }

    /// What the given probes found. Where an address was probed more than once,
    /// the last result counts.
    pub fn gather(results: &Vec<(RpcAddr, ProbeOutcome)>) -> (liveness: Self)
        ensures
            liveness@ == found(results@),
    {
        let mut liveness: Self = Self::new();
        let mut i: usize = 0;
        assert(results@.take(0) =~= Seq::empty());
        while i < results.len()
            invariant
                i <= results@.len(),
                liveness@ == found(results@.take(i as int)),
            decreases results.len() - i,
        {
            assert(results@.take(i + 1).drop_last() =~= results@.take(i as int));
            liveness.record(results[i].0.clone(), results[i].1.is_up());
            i = i + 1;
        }
        assert(results@.take(i as int) =~= results@);
        liveness
    }
}

/// What a series of probes, each of an address, found.
pub open spec fn found(results: Seq<(RpcAddr, ProbeOutcome)>) -> Map<Address, bool>
    decreases results.len(),
{
    if results.len() == 0 {
        Map::empty()
    } else {
        found(results.drop_last()).insert(
            results.last().0@,
            results.last().1 == ProbeOutcome::Connected,
        )
    }
}

/// An address is known exactly where it was probed.
pub proof fn lemma_known_means_probed(results: Seq<(RpcAddr, ProbeOutcome)>, addr: Address)
    ensures
        found(results).dom().contains(addr) <==> exists|i: int|
            0 <= i < results.len() && (#[trigger] results[i]).0@ == addr,
    decreases results.len(),
{
    if results.len() > 0 {
        let before = results.drop_last();
        lemma_known_means_probed(before, addr);
        if found(before).dom().contains(addr) {
            let i = choose|i: int| 0 <= i < before.len() && (#[trigger] before[i]).0@ == addr;
            assert(results[i].0@ == addr);
        }
        if exists|i: int| 0 <= i < results.len() && (#[trigger] results[i]).0@ == addr {
            let i = choose|i: int| 0 <= i < results.len() && (#[trigger] results[i]).0@ == addr;
            if i < before.len() {
                assert(before[i].0@ == addr);
            }
        }
        if results.last().0@ == addr {
            assert(results[results.len() - 1].0@ == addr);
        }
    }
}

/// The last probe of an address counts: the node is up exactly where that probe
/// made the connection in time.
pub proof fn lemma_last_probe_counts(results: Seq<(RpcAddr, ProbeOutcome)>, i: int)
    requires
        0 <= i < results.len(),
        forall|j: int| i < j < results.len() ==> (#[trigger] results[j]).0@ != results[i].0@,
    ensures
        found(results).dom().contains(results[i].0@),
        found(results)[results[i].0@] == (results[i].1 == ProbeOutcome::Connected),
    decreases results.len(),
{
    let end = results.len() - 1;
    if i < end {
        let before = results.drop_last();
        assert(results[end].0@ != results[i].0@);
        lemma_last_probe_counts(before, i);
    }
}

} // verus!

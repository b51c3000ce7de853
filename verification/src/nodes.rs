//! The nodes that a configuration declares, and their order by id.
use vstd::prelude::*;
use vstd::seq_lib::{to_multiset_contains, to_multiset_insert, to_multiset_len, to_multiset_remove};

verus! {

/// The address of an RPC listener.
///
/// The text of an address tells all of it but the flow information, which an
/// IPv6 address may carry. Two addresses are the same where both agree.
#[derive(Debug)]
pub struct RpcAddr {
    /// The address in its canonical text form.
    pub text: String,
    /// The flow information of an IPv6 address, else zero.
    pub flow_info: u32,
}

/// What an address is.
pub struct Address {
    /// The address in its canonical text form.
    pub text: Seq<char>,
    /// The flow information of an IPv6 address, else zero.
    pub flow_info: u32,
}

impl View for RpcAddr {
    type V = Address;

    open spec fn view(&self) -> Address {
        Address { text: self.text@, flow_info: self.flow_info }
    }
}

impl RpcAddr {
    /// Whether the two are the same address.
    pub fn is_same(&self, other: &RpcAddr) -> (same: bool)
        ensures
            same == (self@ == other@),
    {
        self.flow_info == other.flow_info && self.text == other.text
    }
}

impl Clone for RpcAddr {
    fn clone(&self) -> (copy: Self)
        ensures
            copy@ == self@,
    {
        Self { text: self.text.clone(), flow_info: self.flow_info }
    }
}

/// A node that the configuration declares.
pub struct NodeAddr {
    /// The number by which the cluster knows the node.
    pub id: u16,
    /// The address of the RPC listener.
    pub rpc_addr: RpcAddr,
    /// The number of disks of the node.
    pub disk_count: u16,
}

/// What a node is declared as.
pub struct Declared {
    /// The number by which the cluster knows the node.
    pub id: u16,
    /// The address of the RPC listener.
    pub rpc_addr: Address,
    /// The number of disks of the node.
    pub disk_count: u16,
}

impl View for NodeAddr {
    type V = Declared;

    open spec fn view(&self) -> Declared {
        Declared { id: self.id, rpc_addr: self.rpc_addr@, disk_count: self.disk_count }
    }
}

/// What the nodes are declared as.
pub open spec fn declared(nodes: Seq<NodeAddr>) -> Seq<Declared> {
    nodes.map_values(|node: NodeAddr| node@)
}

/// Whether node `i` is listed before node `j`: nodes go by their id, and those
/// with the same id by the order in which they are declared.
pub open spec fn comes_before(nodes: Seq<Declared>, i: usize, j: usize) -> bool {
    ||| nodes[i as int].id < nodes[j as int].id
    ||| nodes[i as int].id == nodes[j as int].id && i < j
}

/// `order` has the index of every node once, in the order in which the nodes
/// are listed.
pub open spec fn is_id_order(nodes: Seq<Declared>, order: Seq<usize>) -> bool {
    &&& order.len() == nodes.len() <= usize::MAX
    &&& forall|k: int| 0 <= k < order.len() ==> (#[trigger] order[k]) < nodes.len()
    &&& forall|i: usize| i < nodes.len() ==> #[trigger] order.contains(i)
    &&& forall|a: int, b: int|
        0 <= a < b < order.len() ==> comes_before(nodes, #[trigger] order[a], #[trigger] order[b])
}

/// The nodes in the given order.
pub open spec fn listed(nodes: Seq<Declared>, order: Seq<usize>) -> Seq<Declared> {
    Seq::new(order.len(), |k: int| nodes[order[k] as int])
}

/// The indices of the nodes, in the order of their ids.
pub fn id_order(nodes: &[NodeAddr]) -> (order: Vec<usize>)
    ensures
        is_id_order(declared(nodes@), order@),
{
    let mut order: Vec<usize> = Vec::with_capacity(nodes.len());
    let mut next: usize = 0;
    while next < nodes.len()
        invariant
            next <= nodes@.len(),
            is_id_order(declared(nodes@).take(next as int), order@),
        decreases nodes.len() - next,
    {
        let mut at: usize = order.len();
        while at > 0 && nodes[order[at - 1]].id > nodes[next].id
            invariant
                at <= order@.len(),
                next < nodes@.len() <= usize::MAX,
                is_id_order(declared(nodes@).take(next as int), order@),
                forall|k: int|
                    at <= k < order@.len() ==> nodes@[#[trigger] order@[k] as int].id
                        > nodes@[next as int].id,
            decreases at,
        {
            at = at - 1;
        }
        proof {
            lemma_insert_next(declared(nodes@), order@, next, at as int);
        }
        order.insert(at, next);
        next = next + 1;
    }
    assert(declared(nodes@).take(next as int) =~= declared(nodes@));
    order
}

/// Puts the next node in its place.
proof fn lemma_insert_next(nodes: Seq<Declared>, order: Seq<usize>, next: usize, at: int)
    requires
        next < nodes.len() <= usize::MAX,
        0 <= at <= order.len(),
        is_id_order(nodes.take(next as int), order),
        forall|k: int|
            at <= k < order.len() ==> nodes[#[trigger] order[k] as int].id > nodes[next as int].id,
        at > 0 ==> nodes[order[at - 1] as int].id <= nodes[next as int].id,
    ensures
        is_id_order(nodes.take(next + 1), order.insert(at, next)),
{
    let old_nodes = nodes.take(next as int);
    let new_nodes = nodes.take(next + 1);
    let now = order.insert(at, next);
    assert forall|k: int| 0 <= k < now.len() implies (#[trigger] now[k]) < new_nodes.len() by {
        if k < at {
            assert(now[k] == order[k]);
        } else if k > at {
            assert(now[k] == order[k - 1]);
        }
    }
    assert forall|i: usize| i < new_nodes.len() implies #[trigger] now.contains(i) by {
        if i == next {
            assert(now[at] == i);
        } else {
            assert(order.contains(i));
            let k = choose|k: int| 0 <= k < order.len() && order[k] == i;
            if k < at {
                assert(now[k] == i);
            } else {
                assert(now[k + 1] == i);
            }
        }
    }
    assert forall|a: int, b: int| 0 <= a < b < now.len() implies comes_before(
        new_nodes,
        #[trigger] now[a],
        #[trigger] now[b],
    ) by {
        let x = if a < at {
            a
        } else {
            a - 1
        };
        let y = if b < at {
            b
        } else {
            b - 1
        };
        if a != at {
            assert(now[a] == order[x]);
            assert(order[x] < next);
        }
        if b != at {
            assert(now[b] == order[y]);
            assert(order[y] < next);
        }
        if a != at && b != at {
            assert(comes_before(old_nodes, order[x], order[y]));
        } else if b == at {
            if a < at - 1 {
                assert(comes_before(old_nodes, order[a], order[at - 1]));
            }
            assert(nodes[order[a] as int].id <= nodes[next as int].id);
        } else {
            assert(nodes[order[y] as int].id > nodes[next as int].id);
        }
    }
}

/// There is one order of the nodes by id: the listing is determined by what the
/// configuration declares.
pub proof fn lemma_id_order_is_unique(nodes: Seq<Declared>, a: Seq<usize>, b: Seq<usize>)
    requires
        is_id_order(nodes, a),
        is_id_order(nodes, b),
    ensures
        a == b,
{
    lemma_orders_agree(nodes, a, b, nodes.len());
    assert(a =~= b);
}

/// Two orders of the nodes by id agree on the first `n` places.
proof fn lemma_orders_agree(nodes: Seq<Declared>, a: Seq<usize>, b: Seq<usize>, n: nat)
    requires
        is_id_order(nodes, a),
        is_id_order(nodes, b),
        n <= nodes.len(),
    ensures
        forall|k: int| 0 <= k < n ==> a[k] == b[k],
    decreases n,
{
    if n > 0 {
        let k = n - 1;
        lemma_orders_agree(nodes, a, b, k as nat);
        if a[k] != b[k] {
            assert(b.contains(a[k]));
            assert(a.contains(b[k]));
            let in_b = choose|j: int| 0 <= j < b.len() && b[j] == a[k];
            let in_a = choose|j: int| 0 <= j < a.len() && a[j] == b[k];
            if in_b < k {
                assert(a[in_b] == a[k]);
                assert(comes_before(nodes, a[in_b], a[k]));
            } else {
                assert(comes_before(nodes, b[k], b[in_b]));
            }
            if in_a < k {
                assert(b[in_a] == b[k]);
                assert(comes_before(nodes, b[in_a], b[k]));
            } else {
                assert(comes_before(nodes, a[k], a[in_a]));
            }
        }
    }
}

/// The listing has the nodes of the configuration, each as often as it is
/// declared.
pub proof fn lemma_listing_is_complete(nodes: Seq<Declared>, order: Seq<usize>)
    requires
        is_id_order(nodes, order),
    ensures
        listed(nodes, order).to_multiset() == nodes.to_multiset(),
{
    lemma_arrangement(nodes, order);
}

/// Rearranging a sequence keeps its items.
proof fn lemma_arrangement(nodes: Seq<Declared>, order: Seq<usize>)
    requires
        order.len() == nodes.len() <= usize::MAX,
        forall|k: int| 0 <= k < order.len() ==> (#[trigger] order[k]) < nodes.len(),
        forall|i: usize| i < nodes.len() ==> #[trigger] order.contains(i),
        forall|a: int, b: int|
            0 <= a < b < order.len() ==> #[trigger] order[a] != #[trigger] order[b],
    ensures
        listed(nodes, order).to_multiset() == nodes.to_multiset(),
    decreases nodes.len(),
{
    if nodes.len() == 0 {
        assert(listed(nodes, order) =~= nodes);
    } else {
        assert(order[0] < nodes.len());
        let last = (nodes.len() - 1) as usize;
        assert(order.contains(last));
        let at = choose|k: int| 0 <= k < order.len() && order[k] == last;
        let fewer = nodes.drop_last();
        let rest = order.remove(at);
        assert forall|k: int| 0 <= k < rest.len() implies (#[trigger] rest[k]) < fewer.len() by {
            let from = if k < at {
                k
            } else {
                k + 1
            };
            assert(rest[k] == order[from]);
            assert(order[from] != order[at]);
        }
        assert forall|i: usize| i < fewer.len() implies #[trigger] rest.contains(i) by {
            assert(order.contains(i));
            let k = choose|k: int| 0 <= k < order.len() && order[k] == i;
            if k < at {
                assert(rest[k] == i);
            } else {
                assert(rest[k - 1] == i);
            }
        }
        lemma_arrangement(fewer, rest);
        assert(listed(nodes, order) =~= listed(fewer, rest).insert(at, nodes.last()));
        to_multiset_insert(listed(fewer, rest), at, nodes.last());
        assert(nodes =~= fewer.insert(fewer.len() as int, nodes.last()));
        to_multiset_insert(fewer, fewer.len() as int, nodes.last());
    }
}

/// The sum of a weight over the nodes.
pub open spec fn sum(nodes: Seq<Declared>, weight: spec_fn(Declared) -> nat) -> nat
    decreases nodes.len(),
{
    if nodes.len() == 0 {
        0
    } else {
        sum(nodes.drop_last(), weight) + weight(nodes.last())
    }
}

/// A sum is that of all nodes but one, and the one.
proof fn lemma_sum_remove(nodes: Seq<Declared>, weight: spec_fn(Declared) -> nat, at: int)
    requires
        0 <= at < nodes.len(),
    ensures
        sum(nodes, weight) == sum(nodes.remove(at), weight) + weight(nodes[at]),
    decreases nodes.len(),
{
    if at == nodes.len() - 1 {
        assert(nodes.remove(at) =~= nodes.drop_last());
    } else {
        lemma_sum_remove(nodes.drop_last(), weight, at);
        assert(nodes.remove(at).drop_last() =~= nodes.drop_last().remove(at));
        assert(nodes.remove(at).last() == nodes.last());
    }
}

/// A sum does not depend on the order of the nodes.
pub proof fn lemma_sum_of_permutation(
    a: Seq<Declared>,
    b: Seq<Declared>,
    weight: spec_fn(Declared) -> nat,
)
    requires
        a.to_multiset() == b.to_multiset(),
    ensures
        sum(a, weight) == sum(b, weight),
    decreases a.len(),
{
    to_multiset_len(a);
    to_multiset_len(b);
    if a.len() > 0 {
        let node = a.last();
        to_multiset_contains(a, node);
        to_multiset_contains(b, node);
        assert(a.contains(node));
        let at = choose|k: int| 0 <= k < b.len() && b[k] == node;
        to_multiset_remove(a, a.len() - 1);
        to_multiset_remove(b, at);
        assert(a.remove(a.len() - 1) =~= a.drop_last());
        lemma_sum_of_permutation(a.drop_last(), b.remove(at), weight);
        lemma_sum_remove(b, weight, at);
    }
}

/// Whether more than one node is declared with this id.
pub open spec fn is_repeated(nodes: Seq<Declared>, id: u16) -> bool {
    exists|i: int, j: int|
        0 <= i < j < nodes.len() && (#[trigger] nodes[i]).id == id && (#[trigger] nodes[j]).id
            == id
}

/// `ids` has every id that is declared more than once, once and in ascending
/// order, and no other.
pub open spec fn are_repeated_ids(nodes: Seq<Declared>, ids: Seq<u16>) -> bool {
    &&& forall|a: int, b: int| 0 <= a < b < ids.len() ==> ids[a] < ids[b]
    &&& forall|id: u16| #[trigger] ids.contains(id) <==> is_repeated(nodes, id)
}

/// Whether two neighbours among the first `n` nodes of a listing have this id.
spec fn has_neighbours(rows: Seq<Declared>, n: int, id: u16) -> bool {
    exists|k: int| 0 < k < n && (#[trigger] rows[k]).id == id && rows[k - 1].id == id
}

/// The ids that are declared more than once, each once and in ascending order.
/// `order` is the order of the nodes by id.
pub(crate) fn repeated_ids(nodes: &[NodeAddr], order: &Vec<usize>) -> (ids: Vec<u16>)
    requires
        is_id_order(declared(nodes@), order@),
    ensures
        are_repeated_ids(declared(nodes@), ids@),
{
    let ghost rows = listed(declared(nodes@), order@);
    let mut ids: Vec<u16> = Vec::new();
    let mut k: usize = 1;
    while k < order.len()
        invariant
            is_id_order(declared(nodes@), order@),
            rows == listed(declared(nodes@), order@),
            1 <= k,
            forall|a: int, b: int| 0 <= a < b < ids@.len() ==> ids@[a] < ids@[b],
            forall|a: int| 0 <= a < ids@.len() && k <= rows.len() ==> ids@[a] <= rows[k - 1].id,
            forall|id: u16| #[trigger] ids@.contains(id) <==> has_neighbours(rows, k as int, id),
            ids@.len() > 0 ==> k <= rows.len(),
            k <= rows.len() || rows.len() == 0,
        decreases order.len() - k,
    {
        let id: u16 = nodes[order[k]].id;
        let before: u16 = nodes[order[k - 1]].id;
        assert(comes_before(declared(nodes@), order@[k - 1], order@[k as int]));
        let ghost old_ids = ids@;
        if id == before && (ids.len() == 0 || ids[ids.len() - 1] != id) {
            ids.push(id);
        }
        assert forall|x: u16| #[trigger] ids@.contains(x) <==> has_neighbours(
            rows,
            k + 1,
            x,
        ) by {
            if ids@.contains(x) {
                if old_ids.contains(x) {
                    let j = choose|j: int|
                        0 < j < k && (#[trigger] rows[j]).id == x && rows[j - 1].id == x;
                    assert(has_neighbours(rows, k + 1, x));
                } else {
                    assert(rows[k as int].id == x);
                    assert(has_neighbours(rows, k + 1, x));
                }
            }
            if has_neighbours(rows, k + 1, x) {
                let j = choose|j: int|
                    0 < j < k + 1 && (#[trigger] rows[j]).id == x && rows[j - 1].id == x;
                if j < k {
                    assert(has_neighbours(rows, k as int, x));
                    assert(old_ids.contains(x));
                    let p = choose|p: int| 0 <= p < old_ids.len() && old_ids[p] == x;
                    assert(ids@[p] == x);
                } else {
                    assert(ids@[ids@.len() - 1] == x);
                }
            }
        }
        k = k + 1;
    }
    proof {
        assert forall|id: u16| #[trigger] ids@.contains(id) <==> is_repeated(declared(nodes@), id) by {
            lemma_neighbours_are_repeated(declared(nodes@), order@, id);
        }
    }
    ids
}

/// An id is declared more than once exactly where two neighbours in the
/// listing have it.
proof fn lemma_neighbours_are_repeated(nodes: Seq<Declared>, order: Seq<usize>, id: u16)
    requires
        is_id_order(nodes, order),
    ensures
        is_repeated(nodes, id) <==> has_neighbours(
            listed(nodes, order),
            nodes.len() as int,
            id,
        ),
{
    let rows = listed(nodes, order);
    if is_repeated(nodes, id) {
        let (i, j) = choose|i: int, j: int|
            0 <= i < j < nodes.len() && (#[trigger] nodes[i]).id == id && (#[trigger] nodes[j]).id
                == id;
        assert(order.contains(i as usize));
        assert(order.contains(j as usize));
        let p = choose|p: int| 0 <= p < order.len() && order[p] == i as usize;
        let q = choose|q: int| 0 <= q < order.len() && order[q] == j as usize;
        if q < p {
            assert(comes_before(nodes, order[q], order[p]));
        }
        assert(p < q);
        assert(comes_before(nodes, order[p], order[p + 1]));
        if p + 1 < q {
            assert(comes_before(nodes, order[p + 1], order[q]));
        }
        assert(rows[p + 1].id == id && rows[p].id == id);
    }
    if has_neighbours(rows, nodes.len() as int, id) {
        let k = choose|k: int|
            0 < k < nodes.len() && (#[trigger] rows[k]).id == id && rows[k - 1].id == id;
        assert(comes_before(nodes, order[k - 1], order[k]));
        assert(nodes[order[k - 1] as int].id == id);
        assert(nodes[order[k] as int].id == id);
    }
}

/// There is one list of the repeated ids.
pub proof fn lemma_repeated_ids_are_unique(nodes: Seq<Declared>, a: Seq<u16>, b: Seq<u16>)
    requires
        are_repeated_ids(nodes, a),
        are_repeated_ids(nodes, b),
    ensures
        a == b,
{
    assert forall|id: u16| #[trigger] a.contains(id) == b.contains(id) by {
        assert(is_repeated(nodes, id) == is_repeated(nodes, id));
    }
    lemma_ascending_is_unique(a, b);
}

/// An ascending sequence is determined by its items.
proof fn lemma_ascending_is_unique(a: Seq<u16>, b: Seq<u16>)
    requires
        forall|i: int, j: int| 0 <= i < j < a.len() ==> a[i] < a[j],
        forall|i: int, j: int| 0 <= i < j < b.len() ==> b[i] < b[j],
        forall|id: u16| #[trigger] a.contains(id) == b.contains(id),
    ensures
        a == b,
    decreases a.len() + b.len(),
{
    if a.len() == 0 || b.len() == 0 {
        if a.len() > 0 {
            assert(a.contains(a[0]));
        }
        if b.len() > 0 {
            assert(b.contains(b[0]));
            assert(a.contains(b[0]));
        }
        assert(a =~= b);
    } else {
        let x = a.last();
        let y = b.last();
        assert(a.contains(x) && b.contains(y));
        assert(b.contains(x) && a.contains(y));
        let p = choose|p: int| 0 <= p < b.len() && b[p] == x;
        let q = choose|q: int| 0 <= q < a.len() && a[q] == y;
        assert(x == y);
        let c = a.drop_last();
        let d = b.drop_last();
        assert forall|id: u16| #[trigger] c.contains(id) == d.contains(id) by {
            if c.contains(id) {
                let k = choose|k: int| 0 <= k < c.len() && c[k] == id;
                assert(a[k] == id);
                assert(a.contains(id));
                let m = choose|m: int| 0 <= m < b.len() && b[m] == id;
                assert(d[m] == id);
            }
            if d.contains(id) {
                let k = choose|k: int| 0 <= k < d.len() && d[k] == id;
                assert(b[k] == id);
                assert(b.contains(id));
                assert(a.contains(id));
                let m = choose|m: int| 0 <= m < a.len() && a[m] == id;
                assert(c[m] == id);
            }
        }
        lemma_ascending_is_unique(c, d);
        assert(a =~= c.push(x));
        assert(b =~= d.push(y));
    }
}

/// No two nodes are declared with the same id.
pub open spec fn have_distinct_ids(nodes: Seq<Declared>) -> bool {
    forall|i: int, j: int|
        0 <= i < j < nodes.len() ==> (#[trigger] nodes[i]).id != (#[trigger] nodes[j]).id
}

/// No id is repeated exactly where all ids are distinct.
pub proof fn lemma_no_repeated_id_means_distinct(nodes: Seq<Declared>, ids: Seq<u16>)
    requires
        are_repeated_ids(nodes, ids),
    ensures
        ids.len() == 0 <==> have_distinct_ids(nodes),
{
    if ids.len() > 0 {
        assert(ids.contains(ids[0]));
    } else {
        assert forall|i: int, j: int| 0 <= i < j < nodes.len() implies (#[trigger] nodes[i]).id != (
        #[trigger] nodes[j]).id by {
            if nodes[i].id == nodes[j].id {
                assert(is_repeated(nodes, nodes[i].id));
                assert(ids.contains(nodes[i].id));
            }
        }
    }
}

/// Declaring the nodes in another order keeps their ids distinct.
pub proof fn lemma_distinct_ids_of_permutation(a: Seq<Declared>, b: Seq<Declared>)
    requires
        a.to_multiset() == b.to_multiset(),
        have_distinct_ids(a),
    ensures
        have_distinct_ids(b),
    decreases a.len(),
{
    to_multiset_len(a);
    to_multiset_len(b);
    if b.len() > 0 {
        let end = b.len() - 1;
        let node = b[end];
        to_multiset_contains(b, node);
        to_multiset_contains(a, node);
        assert(b.contains(node));
        let at = choose|k: int| 0 <= k < a.len() && a[k] == node;
        let fewer = a.remove(at);
        to_multiset_remove(a, at);
        to_multiset_remove(b, end);
        assert(b.remove(end) =~= b.drop_last());
        assert forall|k: int| 0 <= k < fewer.len() implies #[trigger] fewer[k] == a[if k < at {
            k
        } else {
            k + 1
        }] by {}
        lemma_distinct_ids_of_permutation(fewer, b.drop_last());
        assert forall|i: int, j: int| 0 <= i < j < b.len() implies (#[trigger] b[i]).id != (
        #[trigger] b[j]).id by {
            if j < end {
                assert(b.drop_last()[i].id != b.drop_last()[j].id);
            } else {
                let other = b.drop_last()[i];
                to_multiset_contains(b.drop_last(), other);
                to_multiset_contains(fewer, other);
                assert(b.drop_last().contains(other));
                let k = choose|k: int| 0 <= k < fewer.len() && fewer[k] == other;
                assert(fewer[k] == a[if k < at {
                    k
                } else {
                    k + 1
                }]);
            }
        }
    }
}

/// Where the ids are distinct, the order in which the nodes are declared makes
/// no difference to the listing.
pub proof fn lemma_listing_ignores_declared_order(
    a: Seq<Declared>,
    order_a: Seq<usize>,
    b: Seq<Declared>,
    order_b: Seq<usize>,
)
    requires
        is_id_order(a, order_a),
        is_id_order(b, order_b),
        a.to_multiset() == b.to_multiset(),
        have_distinct_ids(a),
    ensures
        listed(a, order_a) == listed(b, order_b),
{
    let rows_a = listed(a, order_a);
    let rows_b = listed(b, order_b);
    lemma_listing_is_complete(a, order_a);
    lemma_listing_is_complete(b, order_b);
    assert forall|i: int, j: int| 0 <= i < j < rows_a.len() implies (#[trigger] rows_a[i]).id < (
    #[trigger] rows_a[j]).id by {
        assert(comes_before(a, order_a[i], order_a[j]));
        assert(order_a[i] != order_a[j]);
        assert(a[order_a[i] as int].id != a[order_a[j] as int].id);
    }
    assert forall|i: int, j: int| 0 <= i < j < rows_b.len() implies (#[trigger] rows_b[i]).id <= (
    #[trigger] rows_b[j]).id by {
        assert(comes_before(b, order_b[i], order_b[j]));
    }
    lemma_sorted_permutation_is_unique(rows_a, rows_b);
}

/// A listing with distinct ids is the only one of its nodes.
proof fn lemma_sorted_permutation_is_unique(a: Seq<Declared>, b: Seq<Declared>)
    requires
        a.to_multiset() == b.to_multiset(),
        forall|i: int, j: int|
            0 <= i < j < a.len() ==> (#[trigger] a[i]).id < (#[trigger] a[j]).id,
        forall|i: int, j: int|
            0 <= i < j < b.len() ==> (#[trigger] b[i]).id <= (#[trigger] b[j]).id,
    ensures
        a == b,
    decreases a.len(),
{
    to_multiset_len(a);
    to_multiset_len(b);
    if a.len() == 0 {
        assert(a =~= b);
    } else {
        let end = a.len() - 1;
        to_multiset_contains(a, a[end]);
        to_multiset_contains(b, a[end]);
        to_multiset_contains(a, b[end]);
        to_multiset_contains(b, b[end]);
        assert(a.contains(a[end]) && b.contains(b[end]));
        assert(b.contains(a[end]) && a.contains(b[end]));
        let p = choose|p: int| 0 <= p < b.len() && b[p] == a[end];
        let q = choose|q: int| 0 <= q < a.len() && a[q] == b[end];
        assert(b[p].id <= b[end].id);
        assert(a[q].id <= a[end].id);
        assert(q == end);
        to_multiset_remove(a, end);
        to_multiset_remove(b, end);
        assert(a.remove(end) =~= a.drop_last());
        assert(b.remove(end) =~= b.drop_last());
        lemma_sorted_permutation_is_unique(a.drop_last(), b.drop_last());
        assert(a =~= a.drop_last().push(a[end]));
        assert(b =~= b.drop_last().push(b[end]));
    }
}

} // verus!

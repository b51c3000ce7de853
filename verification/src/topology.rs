//! The layout of a cluster, as text.
use vstd::prelude::*;
use vstd::seq_lib::to_multiset_len;
use vstd::string::*;

use crate::liveness::Liveness;
use crate::nodes::{
    are_repeated_ids, declared, have_distinct_ids, id_order, is_id_order,
    lemma_distinct_ids_of_permutation, lemma_id_order_is_unique,
    lemma_listing_ignores_declared_order, lemma_listing_is_complete,
    lemma_no_repeated_id_means_distinct, lemma_sum_of_permutation, listed, repeated_ids, sum,
    Address, Declared, NodeAddr,
};
use crate::text::{
    decimal, decimal_text, left_aligned, push_decimal, push_left_aligned, push_right_aligned,
    right_aligned,
};

verus! {

/// `std::path::PathBuf`, as an opaque type: it is carried, never looked into.
#[verifier::external_type_specification]
#[verifier::external_body]
pub struct ExPathBuf(std::path::PathBuf);

/// Default per node probe timeout, used when none is given.
pub const DEFAULT_PROBE_TIMEOUT_SECS: u64 = 2;

/// Cap on probes in flight at once, so that a large cluster cannot open an
/// unbounded number of sockets simultaneously.
pub const MAX_CONCURRENT_PROBES: usize = 64;

/// What to report on.
pub struct TopologyArgs {
    /// The configuration file, the same one that the server reads.
    pub config: std::path::PathBuf,
    /// Probe each node's RPC listener and annotate the layout with live state.
    pub probe: bool,
    /// Per node probe timeout in seconds. Says nothing without `probe`.
    pub probe_timeout_secs: Option<u64>,
}

impl TopologyArgs {
    /// The timeout with which to probe the nodes, in seconds, or `None` where
    /// the network is not to be touched.
    pub fn probe_timeout(&self) -> (secs: Option<u64>)
        ensures
            !self.probe ==> secs is None,
            self.probe ==> secs == Some(
                match self.probe_timeout_secs {
                    Some(given) => given,
                    None => DEFAULT_PROBE_TIMEOUT_SECS,
                },
            ),
    {
        if !self.probe {
            return None;
        }
        match self.probe_timeout_secs {
            Some(given) => Some(given),
            None => Some(DEFAULT_PROBE_TIMEOUT_SECS),
        }
    }
}

/// Which nodes are up, by address, or nothing where they were not probed.
pub type Probed = Option<Map<Address, bool>>;

/// What the report says of the state of the node at `addr`.
pub open spec fn state_text(found: Map<Address, bool>, addr: Address) -> Seq<char> {
    if !found.dom().contains(addr) {
        "?"@
    } else if found[addr] {
        "up"@
    } else {
        "DOWN"@
    }
}

/// The head of the table, with a column for the state or without.
pub open spec fn header(with_state: bool) -> Seq<char> {
    if with_state {
        "  node    disks    state    rpc address\n"@
            + "  ----    -----    -----    -----------\n"@
    } else {
        "  node    disks    rpc address\n"@ + "  ----    -----    -----------\n"@
    }
}

/// The row of the table for one node.
pub open spec fn row(node: Declared, probed: Probed) -> Seq<char> {
    let columns = "  "@ + right_aligned(decimal(node.id as nat), 4) + "    "@ + right_aligned(
        decimal(node.disk_count as nat),
        5,
    ) + "    "@;
    let state = match probed {
        Some(found) => left_aligned(state_text(found, node.rpc_addr), 5) + "    "@,
        None => Seq::empty(),
    };
    columns + state + node.rpc_addr.text + "\n"@
}

/// The rows of the table.
pub open spec fn rows(nodes: Seq<Declared>, probed: Probed) -> Seq<char>
    decreases nodes.len(),
{
    if nodes.len() == 0 {
        Seq::empty()
    } else {
        rows(nodes.drop_last(), probed) + row(nodes.last(), probed)
    }
}

/// The number of disks of a node.
pub open spec fn disks() -> spec_fn(Declared) -> nat {
    |node: Declared| node.disk_count as nat
}

/// The number of disks of all nodes.
pub open spec fn total_disks(nodes: Seq<Declared>) -> nat {
    sum(nodes, disks())
}

/// One for a node that was found up, else zero.
pub open spec fn is_up(found: Map<Address, bool>) -> spec_fn(Declared) -> nat {
    |node: Declared|
        if found.dom().contains(node.rpc_addr) && found[node.rpc_addr] {
            1
        } else {
            0
        }
}

/// The number of nodes that were found up.
pub open spec fn alive_count(nodes: Seq<Declared>, found: Map<Address, bool>) -> nat {
    sum(nodes, is_up(found))
}

/// The ending of a noun that counts `n` things.
pub open spec fn plural(n: nat) -> Seq<char> {
    if n == 1 {
        ""@
    } else {
        "s"@
    }
}

/// The line that counts the declared nodes and disks.
pub open spec fn declared_line(nodes: nat, disks: nat) -> Seq<char> {
    decimal(nodes) + " node"@ + plural(nodes) + " configured, "@ + decimal(disks) + " disk"@
        + plural(disks) + " total.\n"@
}

/// The line that counts the nodes that are up.
pub open spec fn alive_line(alive: nat, nodes: nat) -> Seq<char> {
    decimal(alive) + " / "@ + decimal(nodes) + " node"@ + plural(nodes) + " alive.\n"@
}

/// The lines below the table.
pub open spec fn summary(nodes: Seq<Declared>, probed: Probed) -> Seq<char> {
    let counts = declared_line(nodes.len(), total_disks(nodes));
    match probed {
        Some(found) => counts + alive_line(alive_count(nodes, found), nodes.len()),
        None => counts,
    }
}

/// The report on nodes that are listed in this order.
pub open spec fn report(nodes: Seq<Declared>, probed: Probed) -> Seq<char> {
    header(probed is Some) + rows(nodes, probed) + "\n"@ + summary(nodes, probed)
}

/// The warning about an id that is declared more than once.
pub open spec fn warning(id: u16) -> Seq<char> {
    "warning: node id "@ + decimal(id as nat) + " declared more than once."@
}

/// What is known of the nodes.
pub open spec fn probed_by(liveness: Option<&Liveness>) -> Probed {
    match liveness {
        Some(found) => Some(found@),
        None => None,
    }
}

/// A sum over the first nodes is at most that over all.
proof fn lemma_sum_grows(nodes: Seq<Declared>, weight: spec_fn(Declared) -> nat, n: int)
    requires
        0 <= n <= nodes.len(),
    ensures
        sum(nodes.take(n), weight) <= sum(nodes, weight),
    decreases nodes.len(),
{
    if n == nodes.len() {
        assert(nodes.take(n) =~= nodes);
    } else {
        lemma_sum_grows(nodes.drop_last(), weight, n);
        assert(nodes.drop_last().take(n) =~= nodes.take(n));
    }
}

/// The number of disks of all nodes, or `None` where it does not fit.
pub fn disk_total(nodes: &[NodeAddr]) -> (total: Option<u32>)
    ensures
        match total {
            Some(n) => n == total_disks(declared(nodes@)),
            None => total_disks(declared(nodes@)) > u32::MAX,
        },
{
    let mut total: u32 = 0;
    let mut i: usize = 0;
    while i < nodes.len()
        invariant
            i <= nodes@.len(),
            total == total_disks(declared(nodes@).take(i as int)),
        decreases nodes.len() - i,
    {
        let count: u32 = nodes[i].disk_count as u32;
        assert(declared(nodes@).take(i + 1).drop_last() =~= declared(nodes@).take(i as int));
        if total > u32::MAX - count {
            proof {
                lemma_sum_grows(declared(nodes@), disks(), i + 1);
            }
            return None;
        }
        total = total + count;
        i = i + 1;
    }
    assert(declared(nodes@).take(i as int) =~= declared(nodes@));
    Some(total)
}

/// The number of nodes that were found up.
fn count_alive(nodes: &[NodeAddr], liveness: &Liveness) -> (alive: usize)
    ensures
        alive == alive_count(declared(nodes@), liveness@),
{
    let mut alive: usize = 0;
    let mut i: usize = 0;
    while i < nodes.len()
        invariant
            alive <= i <= nodes@.len(),
            alive == alive_count(declared(nodes@).take(i as int), liveness@),
        decreases nodes.len() - i,
    {
        assert(declared(nodes@).take(i + 1).drop_last() =~= declared(nodes@).take(i as int));
        if let Some(true) = liveness.get(&nodes[i].rpc_addr) {
            alive = alive + 1;
        }
        i = i + 1;
    }
    assert(declared(nodes@).take(i as int) =~= declared(nodes@));
    alive
}

/// Appends the row of the table for one node.
fn push_row(out: &mut String, node: &NodeAddr, liveness: Option<&Liveness>)
    ensures
        final(out)@ == old(out)@ + row(node@, probed_by(liveness)),
{
    out.append("  ");
    push_right_aligned(out, decimal_text(node.id as u64).as_str(), 4);
    out.append("    ");
    push_right_aligned(out, decimal_text(node.disk_count as u64).as_str(), 5);
    out.append("    ");
    if let Some(found) = liveness {
        let state: &str = match found.get(&node.rpc_addr) {
            Some(true) => "up",
            Some(false) => "DOWN",
            None => "?",
        };
        push_left_aligned(out, state, 5);
        out.append("    ");
    }
    out.append(node.rpc_addr.text.as_str());
    out.append("\n");
    assert(out@ =~= old(out)@ + row(node@, probed_by(liveness)));
}

/// The ending of a noun that counts `n` things.
fn plural_text(n: u64) -> (text: &'static str)
    ensures
        text@ == plural(n as nat),
{
    if n == 1 {
        ""
    } else {
        "s"
    }
}

/// The warning about an id that is declared more than once.
fn warning_text(id: u16) -> (text: String)
    ensures
        text@ == warning(id),
{
    let mut text: String = String::from_str("warning: node id ");
    push_decimal(&mut text, id as u64);
    text.append(" declared more than once.");
    text
}

/// The head of the table, with a column for the state or without.
fn header_text(with_state: bool) -> (text: String)
    ensures
        text@ == header(with_state),
{
    if with_state {
        let mut text: String = String::from_str("  node    disks    state    rpc address\n");
        text.append("  ----    -----    -----    -----------\n");
        text
    } else {
        let mut text: String = String::from_str("  node    disks    rpc address\n");
        text.append("  ----    -----    -----------\n");
        text
    }
}

/// The line that counts the declared nodes and disks.
fn declared_line_text(nodes: u64, disks: u64) -> (line: String)
    ensures
        line@ == declared_line(nodes as nat, disks as nat),
{
    let mut line: String = decimal_text(nodes);
    line.append(" node");
    line.append(plural_text(nodes));
    line.append(" configured, ");
    push_decimal(&mut line, disks);
    line.append(" disk");
    line.append(plural_text(disks));
    line.append(" total.\n");
    line
}

/// The line that counts the nodes that are up.
fn alive_line_text(alive: u64, nodes: u64) -> (line: String)
    ensures
        line@ == alive_line(alive as nat, nodes as nat),
{
    let mut line: String = decimal_text(alive);
    line.append(" / ");
    push_decimal(&mut line, nodes);
    line.append(" node");
    line.append(plural_text(nodes));
    line.append(" alive.\n");
    line
}

/// The lines below the table.
fn summary_text(nodes: &[NodeAddr], liveness: Option<&Liveness>) -> (text: String)
    requires
        total_disks(declared(nodes@)) <= u32::MAX,
    ensures
        text@ == summary(declared(nodes@), probed_by(liveness)),
{
    let count: u64 = nodes.len() as u64;
    let total: u32 = disk_total(nodes).unwrap();
    let mut text: String = declared_line_text(count, total as u64);
    if let Some(found) = liveness {
        let alive: usize = count_alive(nodes, found);
        text.append(alive_line_text(alive as u64, count).as_str());
    }
    text
}

/// `text` is the layout of the declared nodes, listed by id, and `warnings` are
/// the warnings about them.
pub open spec fn is_rendering(
    nodes: Seq<Declared>,
    probed: Probed,
    text: Seq<char>,
    warnings: Seq<String>,
) -> bool {
    &&& nodes.len() == 0 ==> text == "config declares zero nodes, nothing to lay out.\n"@
    &&& nodes.len() > 0 ==> exists|order: Seq<usize>| #[trigger]
        is_id_order(nodes, order) && text == report(listed(nodes, order), probed)
    &&& exists|ids: Seq<u16>|
        {
            &&& #[trigger] are_repeated_ids(nodes, ids)
            &&& warnings.len() == ids.len()
            &&& forall|i: int| 0 <= i < ids.len() ==> (#[trigger] warnings[i])@ == warning(ids[i])
        }
}

/// Renders the declared cluster layout, sorted by node id, and the warnings
/// about it.
///
/// When `liveness` is given, a `state` column and an alive count are added from
/// what the probes found; else the layout is reported exactly as declared,
/// without any network state.
pub fn render(nodes: &[NodeAddr], liveness: Option<&Liveness>) -> (out: (String, Vec<String>))
    requires
        total_disks(declared(nodes@)) <= u32::MAX,
    ensures
        is_rendering(declared(nodes@), probed_by(liveness), out.0@, out.1@),
{
    if nodes.is_empty() {
        let none: Vec<String> = Vec::new();
        proof {
            assert forall|id: u16| !(#[trigger] Seq::<u16>::empty().contains(id)) by {}
            assert(are_repeated_ids(declared(nodes@), Seq::<u16>::empty()));
        }
        return (String::from_str("config declares zero nodes, nothing to lay out.\n"), none);
    }
    let order: Vec<usize> = id_order(nodes);
    let ghost sorted = listed(declared(nodes@), order@);
    let ghost probed = probed_by(liveness);
    proof {
        lemma_listing_is_complete(declared(nodes@), order@);
    }
    let mut out: String = header_text(liveness.is_some());
    assert(out@ =~= header(probed is Some) + rows(sorted.take(0), probed));
    let mut k: usize = 0;
    while k < order.len()
        invariant
            k <= order@.len(),
            is_id_order(declared(nodes@), order@),
            sorted == listed(declared(nodes@), order@),
            probed == probed_by(liveness),
            out@ == header(probed is Some) + rows(sorted.take(k as int), probed),
        decreases order.len() - k,
    {
        push_row(&mut out, &nodes[order[k]], liveness);
        assert(sorted.take(k + 1).drop_last() =~= sorted.take(k as int));
        k = k + 1;
        assert(out@ =~= header(probed is Some) + rows(sorted.take(k as int), probed));
    }
    assert(sorted.take(k as int) =~= sorted);
    out.append("\n");
    out.append(summary_text(nodes, liveness).as_str());
    proof {
        lemma_summary_of_permutation(sorted, declared(nodes@), probed);
    }
    assert(out@ =~= report(sorted, probed));

    let ids: Vec<u16> = repeated_ids(nodes, &order);
    let mut warnings: Vec<String> = Vec::new();
    let mut i: usize = 0;
    while i < ids.len()
        invariant
            i <= ids@.len(),
            warnings@.len() == i,
            forall|j: int| 0 <= j < i ==> (#[trigger] warnings@[j])@ == warning(ids@[j]),
        decreases ids.len() - i,
    {
        warnings.push(warning_text(ids[i]));
        i = i + 1;
    }
    (out, warnings)
}

/// The head line of the command's output.
pub open spec fn heading(config: Seq<char>) -> Seq<char> {
    "openlake cluster topology: "@ + config + "\n\n"@
}

/// The head line of the command's output, which names the configuration file.
pub fn heading_text(config: &str) -> (text: String)
    ensures
        text@ == heading(config@),
{
    let mut text: String = String::from_str("openlake cluster topology: ");
    text.append(config);
    text.append("\n\n");
    text
}

/// The lines below the table do not depend on the order of the nodes: the
/// totals of a listing are those of the declared nodes.
pub proof fn lemma_summary_of_permutation(a: Seq<Declared>, b: Seq<Declared>, probed: Probed)
    requires
        a.to_multiset() == b.to_multiset(),
    ensures
        summary(a, probed) == summary(b, probed),
        total_disks(a) == total_disks(b),
        probed matches Some(found) ==> alive_count(a, found) == alive_count(b, found),
{
    to_multiset_len(a);
    to_multiset_len(b);
    lemma_sum_of_permutation(a, b, disks());
    if let Some(found) = probed {
        lemma_sum_of_permutation(a, b, is_up(found));
    }
}

/// The report is determined by the declared nodes and what the probes found.
pub proof fn lemma_report_is_determined(
    nodes: Seq<Declared>,
    order_a: Seq<usize>,
    order_b: Seq<usize>,
    probed: Probed,
)
    requires
        is_id_order(nodes, order_a),
        is_id_order(nodes, order_b),
    ensures
        report(listed(nodes, order_a), probed) == report(listed(nodes, order_b), probed),
{
    lemma_id_order_is_unique(nodes, order_a, order_b);
}

/// Where the ids are distinct, the report does not depend on the order in which
/// the nodes are declared.
pub proof fn lemma_report_ignores_declared_order(
    a: Seq<Declared>,
    order_a: Seq<usize>,
    b: Seq<Declared>,
    order_b: Seq<usize>,
    probed: Probed,
)
    requires
        is_id_order(a, order_a),
        is_id_order(b, order_b),
        a.to_multiset() == b.to_multiset(),
        have_distinct_ids(a),
    ensures
        report(listed(a, order_a), probed) == report(listed(b, order_b), probed),
{
    lemma_listing_ignores_declared_order(a, order_a, b, order_b);
}

/// Both or neither were probed, and where they were, the same is known of the
/// address of every node.
pub open spec fn agree_on(nodes: Seq<Declared>, a: Probed, b: Probed) -> bool {
    match (a, b) {
        (Some(x), Some(y)) => forall|i: int|
            0 <= i < nodes.len() ==> {
                let addr = (#[trigger] nodes[i]).rpc_addr;
                &&& x.dom().contains(addr) == y.dom().contains(addr)
                &&& x.dom().contains(addr) ==> x[addr] == y[addr]
            },
        (None, None) => true,
        _ => false,
    }
}

/// What is known of other addresses than those of the nodes does not show in
/// the report.
pub proof fn lemma_report_ignores_other_addresses(nodes: Seq<Declared>, a: Probed, b: Probed)
    requires
        agree_on(nodes, a, b),
    ensures
        report(nodes, a) == report(nodes, b),
        rows(nodes, a) == rows(nodes, b),
        summary(nodes, a) == summary(nodes, b),
{
    lemma_rows_agree(nodes, a, b);
}

/// The rows and the alive count show no other addresses.
proof fn lemma_rows_agree(nodes: Seq<Declared>, a: Probed, b: Probed)
    requires
        agree_on(nodes, a, b),
    ensures
        rows(nodes, a) == rows(nodes, b),
        a matches Some(x) ==> b matches Some(y) ==> alive_count(nodes, x) == alive_count(nodes, y),
    decreases nodes.len(),
{
    if nodes.len() > 0 {
        let before = nodes.drop_last();
        assert(agree_on(before, a, b)) by {
            assert forall|i: int| 0 <= i < before.len() implies #[trigger] before[i]
                == nodes[i] by {}
        }
        lemma_rows_agree(before, a, b);
        assert(nodes.last() == nodes[nodes.len() - 1]);
        assert(row(nodes.last(), a) == row(nodes.last(), b));
    }
}

/// Where the ids are distinct, neither the order in which the nodes are declared
/// nor what is known of other addresses shows in the result: the layout is the
/// same, and there is no warning.
pub proof fn lemma_rendering_shows_only_the_nodes(
    a: Seq<Declared>,
    probed_a: Probed,
    text_a: Seq<char>,
    warnings_a: Seq<String>,
    b: Seq<Declared>,
    probed_b: Probed,
    text_b: Seq<char>,
    warnings_b: Seq<String>,
)
    requires
        is_rendering(a, probed_a, text_a, warnings_a),
        is_rendering(b, probed_b, text_b, warnings_b),
        a.to_multiset() == b.to_multiset(),
        have_distinct_ids(a),
        agree_on(a, probed_a, probed_b),
    ensures
        text_a == text_b,
        warnings_a.len() == 0,
        warnings_b.len() == 0,
{
    to_multiset_len(a);
    to_multiset_len(b);
    lemma_distinct_ids_of_permutation(a, b);
    let ids_a = choose|ids: Seq<u16>| #[trigger]
        are_repeated_ids(a, ids) && warnings_a.len() == ids.len();
    let ids_b = choose|ids: Seq<u16>| #[trigger]
        are_repeated_ids(b, ids) && warnings_b.len() == ids.len();
    lemma_no_repeated_id_means_distinct(a, ids_a);
    lemma_no_repeated_id_means_distinct(b, ids_b);
    if a.len() > 0 {
        let order_a = choose|order: Seq<usize>| #[trigger]
            is_id_order(a, order) && text_a == report(listed(a, order), probed_a);
        let order_b = choose|order: Seq<usize>| #[trigger]
            is_id_order(b, order) && text_b == report(listed(b, order), probed_b);
        let nodes = listed(a, order_a);
        assert(agree_on(nodes, probed_a, probed_b)) by {
            assert forall|k: int| 0 <= k < nodes.len() implies #[trigger] nodes[k]
                == a[order_a[k] as int] && order_a[k] < a.len() by {}
        }
        lemma_report_ignores_other_addresses(nodes, probed_a, probed_b);
        lemma_report_ignores_declared_order(a, order_a, b, order_b, probed_b);
    }
}

/// No more nodes are alive than there are.
pub proof fn lemma_alive_at_most_all(nodes: Seq<Declared>, found: Map<Address, bool>)
    ensures
        alive_count(nodes, found) <= nodes.len(),
    decreases nodes.len(),
{
    if nodes.len() > 0 {
        lemma_alive_at_most_all(nodes.drop_last(), found);
    }
}

} // verus!

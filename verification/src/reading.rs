//! What a reader finds in the report: which node stands where, and what the
//! numbers in it say of the declared nodes.
use vstd::prelude::*;
use vstd::string::*;

use crate::liveness::Liveness;
use crate::nodes::{
    are_repeated_ids, comes_before, declared, is_id_order, is_repeated, lemma_listing_is_complete,
    listed, Address, Declared, NodeAddr, RpcAddr,
};
use crate::text::{decimal, left_aligned, lemma_decimal_reads_back, read_back, right_aligned};
use crate::topology::{
    alive_count, alive_line, declared_line, header, heading, is_rendering,
    lemma_summary_of_permutation, probed_by, report, row, rows, summary, total_disks, warning,
    Probed,
};

verus! {

/// An address is told by its text and its flow information, and by all of both.
pub proof fn lemma_addresses_are_told_apart(a: RpcAddr, b: RpcAddr)
    ensures
        a@ == b@ <==> a.text@ == b.text@ && a.flow_info == b.flow_info,
        a@.text == a.text@,
        a@.flow_info == a.flow_info,
{
}

/// The order of the nodes has each of them once, a lower id before a higher one,
/// and nodes with the same id as they are declared.
pub proof fn lemma_order_ascends(nodes: Seq<NodeAddr>, order: Seq<usize>)
    requires
        is_id_order(declared(nodes), order),
    ensures
        order.len() == nodes.len(),
        forall|i: usize| i < nodes.len() ==> #[trigger] order.contains(i),
        forall|k: int| 0 <= k < order.len() ==> (#[trigger] order[k]) < nodes.len(),
        forall|a: int, b: int|
            0 <= a < b < order.len() ==> {
                let x = #[trigger] order[a];
                let y = #[trigger] order[b];
                nodes[x as int].id < nodes[y as int].id || nodes[x as int].id
                    == nodes[y as int].id && x < y
            },
{
    assert forall|a: int, b: int| 0 <= a < b < order.len() implies {
        let x = #[trigger] order[a];
        let y = #[trigger] order[b];
        nodes[x as int].id < nodes[y as int].id || nodes[x as int].id == nodes[y as int].id && x
            < y
    } by {
        assert(comes_before(declared(nodes), order[a], order[b]));
    }
}

/// The number of disks of all nodes is what their disk counts add up to.
pub proof fn lemma_disks_add_up(nodes: Seq<NodeAddr>)
    ensures
        total_disks(declared(nodes)) == nodes.map_values(
            |node: NodeAddr| node.disk_count as int,
        ).fold_left(0int, |total: int, count: int| total + count),
    decreases nodes.len(),
{
    let counts = nodes.map_values(|node: NodeAddr| node.disk_count as int);
    if nodes.len() > 0 {
        let before = nodes.drop_last();
        lemma_disks_add_up(before);
        assert(declared(nodes).drop_last() =~= declared(before));
        assert(counts.drop_last() =~= before.map_values(
            |node: NodeAddr| node.disk_count as int,
        ));
    }
}

/// The number of nodes that are up is that of the declared nodes whose address
/// is known as up.
pub proof fn lemma_alive_are_counted(nodes: Seq<NodeAddr>, found: Map<Address, bool>)
    ensures
        alive_count(declared(nodes), found) == nodes.filter(
            |node: NodeAddr|
                {
                    let addr = (Address {
                        text: node.rpc_addr.text@,
                        flow_info: node.rpc_addr.flow_info,
                    });
                    found.dom().contains(addr) && found[addr]
                },
        ).len(),
    decreases nodes.len(),
{
    reveal(Seq::filter);
    if nodes.len() > 0 {
        let before = nodes.drop_last();
        lemma_alive_are_counted(before, found);
        assert(declared(nodes).drop_last() =~= declared(before));
    }
}

/// The rows of the first nodes are at the front of the rows of all.
proof fn lemma_first_rows(nodes: Seq<Declared>, probed: Probed, m: int)
    requires
        0 <= m <= nodes.len(),
    ensures
        rows(nodes.take(m), probed).len() <= rows(nodes, probed).len(),
        rows(nodes, probed).take(rows(nodes.take(m), probed).len() as int) == rows(
            nodes.take(m),
            probed,
        ),
    decreases nodes.len(),
{
    let part = rows(nodes.take(m), probed);
    if m == nodes.len() {
        assert(nodes.take(m) =~= nodes);
        assert(part.take(part.len() as int) =~= part);
    } else {
        let before = nodes.drop_last();
        lemma_first_rows(before, probed, m);
        assert(before.take(m) =~= nodes.take(m));
        assert(rows(nodes, probed).take(part.len() as int) =~= rows(before, probed).take(
            part.len() as int,
        ));
    }
}

/// The row of a node stands right behind the rows of those before it.
proof fn lemma_row_stands(nodes: Seq<Declared>, probed: Probed, k: int)
    requires
        0 <= k < nodes.len(),
    ensures
        ({
            let from = rows(nodes.take(k), probed).len();
            let to = rows(nodes.take(k + 1), probed).len();
            &&& from <= to <= rows(nodes, probed).len()
            &&& rows(nodes, probed).subrange(from as int, to as int) == row(nodes[k], probed)
        }),
{
    let upto = nodes.take(k + 1);
    let from = rows(nodes.take(k), probed).len() as int;
    let to = rows(upto, probed).len() as int;
    lemma_first_rows(nodes, probed, k + 1);
    assert(upto.drop_last() =~= nodes.take(k));
    assert(upto.last() == nodes[k]);
    assert(rows(nodes, probed).subrange(from, to) =~= rows(nodes, probed).take(to).skip(from));
    assert(rows(upto, probed).skip(from) =~= row(nodes[k], probed));
}

/// `text` has `part` from `from` up to, not including, `to`.
pub open spec fn stands_at(text: Seq<char>, from: int, to: int, part: Seq<char>) -> bool {
    &&& 0 <= from <= to <= text.len()
    &&& text.subrange(from, to) == part
}

/// Where a part stands, the text has its characters, one by one.
pub proof fn lemma_part_is_there(text: Seq<char>, from: int, to: int, part: Seq<char>)
    requires
        stands_at(text, from, to, part),
    ensures
        0 <= from,
        to == from + part.len() <= text.len(),
        forall|i: int| 0 <= i < part.len() ==> text[from + i] == #[trigger] part[i],
{
    assert forall|i: int| 0 <= i < part.len() implies text[from + i] == #[trigger] part[i] by {
        assert(text.subrange(from, to)[i] == part[i]);
    }
}

/// Where the rows of a table stand.
proof fn lemma_rows_stand(
    nodes: Seq<Declared>,
    probed: Probed,
    head: Seq<char>,
    tail: Seq<char>,
) -> (starts: Seq<int>)
    ensures
        starts.len() == nodes.len() + 1,
        starts[0] == head.len(),
        starts[nodes.len() as int] == head.len() + rows(nodes, probed).len(),
        forall|k: int|
            0 <= k < nodes.len() ==> stands_at(
                head + rows(nodes, probed) + tail,
                starts[k],
                starts[k + 1],
                row(#[trigger] nodes[k], probed),
            ),
{
    let starts = Seq::new(
        nodes.len() + 1,
        |k: int| (head.len() + rows(nodes.take(k), probed).len()) as int,
    );
    let body = rows(nodes, probed);
    assert(nodes.take(nodes.len() as int) =~= nodes);
    assert(rows(nodes.take(0), probed) =~= Seq::<char>::empty());
    assert forall|k: int| 0 <= k < nodes.len() implies stands_at(
        head + body + tail,
        starts[k],
        starts[k + 1],
        row(#[trigger] nodes[k], probed),
    ) by {
        lemma_row_stands(nodes, probed, k);
        let from = rows(nodes.take(k), probed).len() as int;
        let to = rows(nodes.take(k + 1), probed).len() as int;
        assert((head + body + tail).subrange(starts[k], starts[k + 1]) =~= body.subrange(from, to));
    }
    starts
}

/// What the lines below the table say, in terms of the declared nodes: how many
/// there are, what their disk counts add up to, and, where they were probed, how
/// many of them are known as up.
pub proof fn lemma_totals_are_those_of_the_nodes(
    nodes: Seq<NodeAddr>,
    liveness: Option<&Liveness>,
)
    ensures
        ({
            let n = nodes.len();
            let total = nodes.map_values(|node: NodeAddr| node.disk_count as int).fold_left(
                0int,
                |total: int, count: int| total + count,
            );
            let alive = |found: &Liveness|
                nodes.filter(
                    |node: NodeAddr|
                        {
                            let addr = (Address {
                                text: node.rpc_addr.text@,
                                flow_info: node.rpc_addr.flow_info,
                            });
                            found@.dom().contains(addr) && found@[addr]
                        },
                ).len();
            let counts = decimal(n) + " node"@ + (if n == 1 {
                Seq::empty()
            } else {
                "s"@
            }) + " configured, "@ + decimal(total as nat) + " disk"@ + (if total == 1 {
                Seq::empty()
            } else {
                "s"@
            }) + " total.\n"@;
            summary(declared(nodes), probed_by(liveness)) == match liveness {
                Some(found) => counts + (decimal(alive(found)) + " / "@ + decimal(n) + " node"@ + (
                if n == 1 {
                    Seq::empty()
                } else {
                    "s"@
                }) + " alive.\n"@),
                None => counts,
            }
        }),
{
    lemma_disks_add_up(nodes);
    if let Some(found) = liveness {
        lemma_alive_are_counted(nodes, found@);
    }
    reveal_strlit("");
    assert(""@ =~= Seq::<char>::empty());
}

/// The row of a node says its id, its number of disks, its state where it was
/// probed, and its address.
pub proof fn lemma_row_says_all_of_the_node(node: NodeAddr, liveness: Option<&Liveness>)
    ensures
        ({
            let addr = (Address {
                text: node.rpc_addr.text@,
                flow_info: node.rpc_addr.flow_info,
            });
            let state = match liveness {
                Some(found) => left_aligned(
                    if !found@.dom().contains(addr) {
                        "?"@
                    } else if found@[addr] {
                        "up"@
                    } else {
                        "DOWN"@
                    },
                    5,
                ) + "    "@,
                None => Seq::empty(),
            };
            row(node@, probed_by(liveness)) == "  "@ + right_aligned(decimal(node.id as nat), 4)
                + "    "@ + right_aligned(decimal(node.disk_count as nat), 5) + "    "@ + state
                + node.rpc_addr.text@ + "\n"@
        }),
{
}

/// The layout is a head, one row for each declared node in ascending order of
/// the ids, an empty line, and the totals; nothing else.
///
/// The law gives the places: `places.0` has the index of the node of each row,
/// and `places.1` has where each row begins and, at its end, where the last one
/// ends. Each node has one row, a lower id stands before a higher one, and nodes
/// with the same id stand as they are declared.
pub proof fn lemma_layout_goes_by_id(
    nodes: Seq<NodeAddr>,
    liveness: Option<&Liveness>,
    text: Seq<char>,
    warnings: Seq<String>,
) -> (places: (Seq<int>, Seq<int>))
    requires
        nodes.len() > 0,
        is_rendering(declared(nodes), probed_by(liveness), text, warnings),
    ensures
        places.0.len() == nodes.len(),
        places.1.len() == nodes.len() + 1,
        forall|i: int| 0 <= i < nodes.len() ==> #[trigger] places.0.contains(i),
        forall|k: int| 0 <= k < nodes.len() ==> 0 <= #[trigger] places.0[k] < nodes.len(),
        forall|a: int, b: int|
            0 <= a < b < nodes.len() ==> {
                let x = #[trigger] places.0[a];
                let y = #[trigger] places.0[b];
                nodes[x].id < nodes[y].id || nodes[x].id == nodes[y].id && x < y
            },
        text.take(places.1[0]) == match liveness {
            Some(_) => "  node    disks    state    rpc address\n"@
                + "  ----    -----    -----    -----------\n"@,
            None => "  node    disks    rpc address\n"@ + "  ----    -----    -----------\n"@,
        },
        forall|k: int|
            0 <= k < nodes.len() ==> stands_at(
                text,
                places.1[k],
                places.1[k + 1],
                row(nodes[#[trigger] places.0[k]]@, probed_by(liveness)),
            ),
        0 <= places.1[nodes.len() as int] <= text.len(),
        text.skip(places.1[nodes.len() as int]) == "\n"@ + summary(
            declared(nodes),
            probed_by(liveness),
        ),
{
    let all = declared(nodes);
    let probed = probed_by(liveness);
    let chosen = choose|order: Seq<usize>| #[trigger]
        is_id_order(all, order) && text == report(listed(all, order), probed);
    let shown = listed(all, chosen);
    let head = header(probed is Some);
    let tail = "\n"@ + summary(shown, probed);
    let order = Seq::new(nodes.len(), |k: int| chosen[k] as int);
    let starts = lemma_rows_stand(shown, probed, head, tail);
    let n = nodes.len() as int;
    assert(text =~= head + rows(shown, probed) + tail);
    assert forall|i: int| 0 <= i < n implies #[trigger] order.contains(i) by {
        assert(chosen.contains(i as usize));
        let k = choose|k: int| 0 <= k < chosen.len() && chosen[k] == i as usize;
        assert(order[k] == i);
    }
    assert forall|a: int, b: int| 0 <= a < b < n implies {
        let x = #[trigger] order[a];
        let y = #[trigger] order[b];
        nodes[x].id < nodes[y].id || nodes[x].id == nodes[y].id && x < y
    } by {
        assert(comes_before(all, chosen[a], chosen[b]));
    }
    assert forall|k: int| 0 <= k < n implies #[trigger] shown[k] == nodes[order[k]]@ by {}
    assert(text.take(starts[0]) =~= head);
    lemma_listing_is_complete(all, chosen);
    lemma_summary_of_permutation(shown, all, probed);
    assert(text.skip(starts[n]) =~= tail);
    let places = (order, starts);
    assert forall|k: int| 0 <= k < n implies stands_at(
        text,
        places.1[k],
        places.1[k + 1],
        row(nodes[#[trigger] places.0[k]]@, probed),
    ) by {
        assert(shown[k] == nodes[order[k]]@);
    }
    places
}

/// Where no node is declared, the report says so and warns of nothing.
pub proof fn lemma_no_nodes_no_layout(
    liveness: Option<&Liveness>,
    text: Seq<char>,
    warnings: Seq<String>,
)
    requires
        is_rendering(declared(Seq::empty()), probed_by(liveness), text, warnings),
    ensures
        text == "config declares zero nodes, nothing to lay out.\n"@,
        warnings.len() == 0,
{
    let none = declared(Seq::empty());
    let ids = choose|ids: Seq<u16>| #[trigger]
        are_repeated_ids(none, ids) && warnings.len() == ids.len();
    if ids.len() > 0 {
        assert(ids.contains(ids[0]));
        assert(is_repeated(none, ids[0]));
    }
}

/// The line about the nodes that are up begins with a number that reads back as
/// how many of the declared nodes are known as up.
///
/// The law gives the place of the number in the report. It is the first thing on
/// the last line.
pub proof fn lemma_alive_number_reads_back(
    nodes: Seq<NodeAddr>,
    found: &Liveness,
    text: Seq<char>,
    warnings: Seq<String>,
) -> (place: (int, int))
    requires
        nodes.len() > 0,
        is_rendering(declared(nodes), probed_by(Some(found)), text, warnings),
    ensures
        0 < place.0 < place.1 < text.len(),
        text[place.0 - 1] == '\n',
        forall|i: int|
            place.0 <= i < place.1 ==> '0' as int <= (#[trigger] text[i]) as int <= '9' as int,
        read_back(text.subrange(place.0, place.1)) == nodes.filter(
            |node: NodeAddr|
                {
                    let addr = (Address {
                        text: node.rpc_addr.text@,
                        flow_info: node.rpc_addr.flow_info,
                    });
                    found@.dom().contains(addr) && found@[addr]
                },
        ).len(),
        text.skip(place.1) == " / "@ + decimal(nodes.len()) + " node"@ + (if nodes.len() == 1 {
            Seq::empty()
        } else {
            "s"@
        }) + " alive.\n"@,
{
    let alive = alive_count(declared(nodes), found@);
    let number = decimal(alive);
    let rest = " / "@ + decimal(nodes.len()) + " node"@ + (if nodes.len() == 1 {
        Seq::empty()
    } else {
        "s"@
    }) + " alive.\n"@;
    let places = lemma_layout_goes_by_id(nodes, Some(found), text, warnings);
    lemma_alive_are_counted(nodes, found@);
    lemma_decimal_reads_back(alive);
    reveal_strlit("");
    reveal_strlit("\n");
    reveal_strlit(" / ");
    reveal_strlit(" total.\n");
    assert(""@ =~= Seq::<char>::empty());
    let line = alive_line(alive, nodes.len());
    assert(line =~= number + rest);
    let counts = declared_line(nodes.len(), total_disks(declared(nodes)));
    assert(counts.last() == '\n');
    assert(summary(declared(nodes), probed_by(Some(found))) == counts + line);
    let end = places.1[nodes.len() as int];
    assert("\n"@ + (counts + line) =~= ("\n"@ + counts) + line);
    lemma_last_line(text, end, "\n"@ + counts, line);
    let from = text.len() - line.len();
    let to = from + number.len();
    assert forall|i: int| from <= i < text.len() implies #[trigger] text[i] == line[i - from] by {
        assert(text.skip(from)[i - from] == line[i - from]);
    }
    assert(text.subrange(from, to) =~= number);
    assert forall|i: int| from <= i < to implies '0' as int <= (#[trigger] text[i]) as int
        <= '9' as int by {
        assert(text[i] == number[i - from]);
    }
    assert(text.skip(to) =~= rest);
    (from, to)
}

/// What ends with a line has the line at its end, right behind the rest.
proof fn lemma_last_line(text: Seq<char>, cut: int, before: Seq<char>, line: Seq<char>)
    requires
        0 <= cut <= text.len(),
        text.skip(cut) == before + line,
        before.len() > 0,
    ensures
        cut + before.len() + line.len() == text.len(),
        text.skip(text.len() - line.len()) == line,
        text[text.len() - line.len() - 1] == before.last(),
{
    let tail = text.skip(cut);
    let from = text.len() - line.len();
    assert(tail.len() == text.len() - cut);
    assert(text.skip(from) =~= tail.skip(before.len() as int));
    assert(tail.skip(before.len() as int) =~= line);
    assert(text[from - 1] == tail[before.len() - 1]);
}

/// Reports on as many nodes, of which not as many are up, have different lines
/// about the nodes that are up.
pub proof fn lemma_alive_lines_differ(a: nat, b: nat, nodes: nat)
    requires
        a != b,
    ensures
        alive_line(a, nodes) != alive_line(b, nodes),
{
    lemma_decimal_reads_back(a);
    lemma_decimal_reads_back(b);
    let x = alive_line(a, nodes);
    let y = alive_line(b, nodes);
    assert(x.take(decimal(a).len() as int) =~= decimal(a));
    assert(y.take(decimal(b).len() as int) =~= decimal(b));
}

/// Which warnings there are: one for each id that more than one node is declared
/// with, in ascending order of the ids, and no other.
///
/// The law gives the ids. Each warning has the id as a number that reads back as
/// it.
pub proof fn lemma_warnings_name_the_repeated_ids(
    nodes: Seq<NodeAddr>,
    liveness: Option<&Liveness>,
    text: Seq<char>,
    warnings: Seq<String>,
) -> (ids: Seq<u16>)
    requires
        is_rendering(declared(nodes), probed_by(liveness), text, warnings),
    ensures
        warnings.len() == ids.len(),
        forall|a: int, b: int| 0 <= a < b < ids.len() ==> ids[a] < ids[b],
        forall|id: u16| #[trigger]
            ids.contains(id) <==> exists|i: int, j: int|
                0 <= i < j < nodes.len() && (#[trigger] nodes[i]).id == id && (
                #[trigger] nodes[j]).id == id,
        forall|k: int|
            0 <= k < ids.len() ==> {
                let line = (#[trigger] warnings[k])@;
                let end = line.len() - " declared more than once."@.len();
                &&& "warning: node id "@.len() < end
                &&& line.take("warning: node id "@.len() as int) == "warning: node id "@
                &&& read_back(line.subrange("warning: node id "@.len() as int, end)) == ids[k]
                &&& forall|i: int|
                    "warning: node id "@.len() <= i < end ==> '0' as int <= (
                    #[trigger] line[i]) as int <= '9' as int
                &&& line.skip(end) == " declared more than once."@
            },
{
    let all = declared(nodes);
    let ids = choose|ids: Seq<u16>|
        {
            &&& #[trigger] are_repeated_ids(all, ids)
            &&& warnings.len() == ids.len()
            &&& forall|i: int| 0 <= i < ids.len() ==> (#[trigger] warnings[i])@ == warning(ids[i])
        };
    assert forall|id: u16| #[trigger]
        ids.contains(id) <==> exists|i: int, j: int|
            0 <= i < j < nodes.len() && (#[trigger] nodes[i]).id == id && (#[trigger] nodes[j]).id
                == id by {
        if ids.contains(id) {
            assert(is_repeated(all, id));
            let (i, j) = choose|i: int, j: int|
                0 <= i < j < all.len() && (#[trigger] all[i]).id == id && (#[trigger] all[j]).id
                    == id;
            assert(nodes[i].id == id && nodes[j].id == id);
        }
        if exists|i: int, j: int|
            0 <= i < j < nodes.len() && (#[trigger] nodes[i]).id == id && (#[trigger] nodes[j]).id
                == id {
            let (i, j) = choose|i: int, j: int|
                0 <= i < j < nodes.len() && (#[trigger] nodes[i]).id == id && (
                #[trigger] nodes[j]).id == id;
            assert(all[i].id == id && all[j].id == id);
            assert(is_repeated(all, id));
        }
    }
    assert forall|k: int| 0 <= k < ids.len() implies {
        let line = (#[trigger] warnings[k])@;
        let end = line.len() - " declared more than once."@.len();
        &&& "warning: node id "@.len() < end
        &&& line.take("warning: node id "@.len() as int) == "warning: node id "@
        &&& read_back(line.subrange("warning: node id "@.len() as int, end)) == ids[k]
        &&& forall|i: int|
            "warning: node id "@.len() <= i < end ==> '0' as int <= (#[trigger] line[i]) as int
                <= '9' as int
        &&& line.skip(end) == " declared more than once."@
    } by {
        lemma_warning_reads_back(ids[k]);
    }
    ids
}

/// A warning has the id as a number that reads back as it.
proof fn lemma_warning_reads_back(id: u16)
    ensures
        ({
            let line = warning(id);
            let end = line.len() - " declared more than once."@.len();
            &&& "warning: node id "@.len() < end
            &&& line.take("warning: node id "@.len() as int) == "warning: node id "@
            &&& read_back(line.subrange("warning: node id "@.len() as int, end)) == id
            &&& forall|i: int|
                "warning: node id "@.len() <= i < end ==> '0' as int <= (#[trigger] line[i]) as int
                    <= '9' as int
            &&& line.skip(end) == " declared more than once."@
        }),
{
    let number = decimal(id as nat);
    let line = warning(id);
    let begin = "warning: node id "@.len() as int;
    let end = line.len() - " declared more than once."@.len();
    lemma_decimal_reads_back(id as nat);
    assert(line.take(begin) =~= "warning: node id "@);
    assert(line.subrange(begin, end) =~= number);
    assert(line.skip(end) =~= " declared more than once."@);
    assert forall|i: int| begin <= i < end implies '0' as int <= (#[trigger] line[i]) as int
        <= '9' as int by {
        assert(line[i] == number[i - begin]);
    }
}

/// Warnings about different ids are different.
pub proof fn lemma_warnings_differ(a: u16, b: u16)
    requires
        a != b,
    ensures
        warning(a) != warning(b),
{
    lemma_warning_reads_back(a);
    lemma_warning_reads_back(b);
}

/// The head line names the configuration file, whole and as it is.
pub proof fn lemma_heading_names_the_config(config: Seq<char>)
    ensures
        ({
            let line = heading(config);
            let begin = "openlake cluster topology: "@.len() as int;
            let end = begin + config.len();
            &&& line.take(begin) == "openlake cluster topology: "@
            &&& line.subrange(begin, end) == config
            &&& line.skip(end) == "\n\n"@
        }),
{
    let line = heading(config);
    let begin = "openlake cluster topology: "@.len() as int;
    let end = begin + config.len();
    assert(line.take(begin) =~= "openlake cluster topology: "@);
    assert(line.subrange(begin, end) =~= config);
    assert(line.skip(end) =~= "\n\n"@);
}

} // verus!

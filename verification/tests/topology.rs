use std::path::PathBuf;

use openlake::liveness::{Liveness, ProbeOutcome};
use openlake::nodes::{id_order, NodeAddr, RpcAddr};
use openlake::topology::{
    disk_total, heading_text, render, TopologyArgs, DEFAULT_PROBE_TIMEOUT_SECS,
    MAX_CONCURRENT_PROBES,
};

fn addr(text: &str) -> RpcAddr {
    RpcAddr {
        text: text.to_string(),
        flow_info: 0,
    }
}

fn node(id: u16, rpc_addr: &str, disk_count: u16) -> NodeAddr {
    NodeAddr {
        id,
        rpc_addr: addr(rpc_addr),
        disk_count,
    }
}

fn liveness(entries: &[(&str, bool)]) -> Liveness {
    let mut found = Liveness::new();
    for (text, up) in entries {
        found.record(addr(text), *up);
    }
    found
}

#[test]
fn empty_config_reports_no_nodes() {
    let (report, warnings) = render(&[], None);
    assert!(report.contains("zero nodes"));
    assert!(warnings.is_empty());
}

#[test]
fn nodes_are_sorted_by_id() {
    let nodes = vec![
        node(2, "127.0.0.1:9002", 1),
        node(0, "127.0.0.1:9000", 1),
        node(1, "127.0.0.1:9001", 1),
    ];
    let (report, warnings) = render(&nodes, None);
    let p0 = report.find("127.0.0.1:9000").unwrap();
    let p1 = report.find("127.0.0.1:9001").unwrap();
    let p2 = report.find("127.0.0.1:9002").unwrap();
    assert!(p0 < p1 && p1 < p2, "nodes should be ordered by id");
    assert!(report.contains("3 nodes configured"));
    assert!(warnings.is_empty());
}

#[test]
fn single_node_uses_singular() {
    let (report, _) = render(&[node(0, "127.0.0.1:9000", 1)], None);
    assert!(report.contains("1 node configured"));
    assert!(report.contains("1 disk total"));
}

#[test]
fn duplicate_ids_are_flagged() {
    let nodes = vec![node(0, "127.0.0.1:9000", 1), node(0, "10.0.0.1:9000", 2)];
    let (_, warnings) = render(&nodes, None);
    assert_eq!(warnings.len(), 1);
    assert!(warnings[0].contains("node id 0 declared more than once."));
}

#[test]
fn disk_count_appears_in_render() {
    let (report, _) = render(
        &[node(0, "127.0.0.1:9000", 4), node(1, "127.0.0.1:9001", 4)],
        None,
    );
    assert!(report.contains("8 disks total"));
}

#[test]
fn default_layout_has_no_state_column() {
    let (report, _) = render(&[node(0, "127.0.0.1:9000", 1)], None);
    assert!(!report.contains("state"));
    assert!(!report.contains("alive"));
}

#[test]
fn probed_layout_shows_state_and_alive_count() {
    let nodes = vec![node(0, "127.0.0.1:9000", 1), node(1, "127.0.0.1:9001", 1)];
    let liveness = liveness(&[("127.0.0.1:9000", true), ("127.0.0.1:9001", false)]);
    let (report, _) = render(&nodes, Some(&liveness));
    assert!(report.contains("state"));
    assert!(report.contains("up"));
    assert!(report.contains("DOWN"));
    assert!(report.contains("1 / 2 nodes alive."));
}

#[test]
fn empty_report_is_one_line_even_when_probed() {
    let found = liveness(&[("127.0.0.1:9000", true)]);
    let (report, warnings) = render(&[], Some(&found));
    assert_eq!(report, "config declares zero nodes, nothing to lay out.\n");
    assert!(warnings.is_empty());
}

#[test]
fn declared_report_is_exact() {
    let nodes = vec![node(12, "10.0.0.2:9000", 24), node(3, "10.0.0.1:9000", 8)];
    let (report, warnings) = render(&nodes, None);
    assert_eq!(
        report,
        format!(
            "{}{}{}{}{}{}",
            "  node    disks    rpc address\n",
            "  ----    -----    -----------\n",
            "     3        8    10.0.0.1:9000\n",
            "    12       24    10.0.0.2:9000\n",
            "\n",
            "2 nodes configured, 32 disks total.\n",
        )
    );
    assert!(warnings.is_empty());
}

#[test]
fn probed_report_is_exact() {
    let nodes = vec![
        node(1, "10.0.0.1:9000", 1),
        node(65535, "10.0.0.2:9000", 65535),
        node(7, "[::1]:9000", 0),
    ];
    let found = liveness(&[("10.0.0.1:9000", true), ("10.0.0.2:9000", false)]);
    let (report, warnings) = render(&nodes, Some(&found));
    assert_eq!(
        report,
        format!(
            "{}{}{}{}{}{}{}{}",
            "  node    disks    state    rpc address\n",
            "  ----    -----    -----    -----------\n",
            "     1        1    up       10.0.0.1:9000\n",
            "     7        0    ?        [::1]:9000\n",
            "  65535    65535    DOWN     10.0.0.2:9000\n",
            "\n",
            "3 nodes configured, 65536 disks total.\n",
            "1 / 3 nodes alive.\n",
        )
    );
    assert!(warnings.is_empty());
}

#[test]
fn single_probed_node_uses_singular() {
    let found = liveness(&[("10.0.0.1:9000", true)]);
    let (report, _) = render(&[node(1, "10.0.0.1:9000", 1)], Some(&found));
    assert!(report.ends_with("1 node configured, 1 disk total.\n1 / 1 node alive.\n"));
}

#[test]
fn no_disks_use_the_plural() {
    let (report, _) = render(&[node(1, "10.0.0.1:9000", 0)], None);
    assert!(report.ends_with("1 node configured, 0 disks total.\n"));
}

#[test]
fn same_ids_stay_in_declared_order() {
    let nodes = vec![
        node(5, "e:1", 1),
        node(2, "b:1", 1),
        node(5, "e:2", 1),
        node(2, "b:2", 1),
    ];
    assert_eq!(id_order(&nodes), vec![1, 3, 0, 2]);
}

#[test]
fn each_repeated_id_is_flagged_once_in_ascending_order() {
    let nodes = vec![
        node(9, "a:1", 1),
        node(4, "a:2", 1),
        node(9, "a:3", 1),
        node(4, "a:4", 1),
        node(1, "a:5", 1),
        node(9, "a:6", 1),
    ];
    let (_, warnings) = render(&nodes, None);
    assert_eq!(
        warnings,
        vec![
            "warning: node id 4 declared more than once.".to_string(),
            "warning: node id 9 declared more than once.".to_string(),
        ]
    );
}

#[test]
fn distinct_ids_give_the_same_report_in_any_declared_order() {
    let a = vec![node(3, "c:1", 5), node(1, "a:1", 2), node(2, "b:1", 4)];
    let b = vec![node(2, "b:1", 4), node(3, "c:1", 5), node(1, "a:1", 2)];
    let found = liveness(&[("a:1", true), ("b:1", false), ("c:1", true)]);
    assert_eq!(render(&a, Some(&found)), render(&b, Some(&found)));
    assert_eq!(render(&a, None), render(&b, None));
}

#[test]
fn undeclared_addresses_do_not_show() {
    let a = vec![node(1, "b:1", 2), node(0, "a:1", 3), node(2, "c:1", 4)];
    let b = vec![node(2, "c:1", 4), node(1, "b:1", 2), node(0, "a:1", 3)];
    let known = liveness(&[("a:1", true), ("b:1", false)]);
    let more = liveness(&[("z:9", true), ("b:1", false), ("y:9", false), ("a:1", true)]);
    assert_eq!(render(&a, Some(&known)), render(&b, Some(&more)));
    assert!(render(&b, Some(&more)).0.contains("1 / 3 nodes alive."));
}

#[test]
fn disk_total_says_when_it_does_not_fit() {
    assert_eq!(disk_total(&[]), Some(0));
    let many: Vec<NodeAddr> = (0..65537).map(|_| node(1, "a:1", 65535)).collect();
    assert_eq!(disk_total(&many), Some(u32::MAX));
    let more: Vec<NodeAddr> = (0..65538).map(|_| node(1, "a:1", 65535)).collect();
    assert_eq!(disk_total(&more), None);
}

#[test]
fn later_note_about_an_address_replaces_the_earlier_one() {
    let mut found = Liveness::new();
    assert_eq!(found.get(&addr("a:1")), None);
    found.record(addr("a:1"), true);
    found.record(addr("b:1"), true);
    assert_eq!(found.get(&addr("a:1")), Some(true));
    found.record(addr("a:1"), false);
    assert_eq!(found.get(&addr("a:1")), Some(false));
    assert_eq!(found.get(&addr("b:1")), Some(true));
}

#[test]
fn flow_information_tells_addresses_apart() {
    let plain = addr("[::1]:9000");
    let flow = RpcAddr {
        text: "[::1]:9000".to_string(),
        flow_info: 7,
    };
    assert!(plain.is_same(&plain.clone()) && flow.is_same(&flow.clone()));
    assert!(!plain.is_same(&flow));
    assert!(!plain.is_same(&addr("[::1]:9001")));
    let mut found = Liveness::new();
    found.record(plain.clone(), true);
    assert_eq!(found.get(&flow), None);
    found.record(flow.clone(), false);
    assert_eq!(found.get(&plain), Some(true));
    assert_eq!(found.get(&flow), Some(false));
    let nodes = vec![
        NodeAddr {
            id: 0,
            rpc_addr: plain,
            disk_count: 1,
        },
        NodeAddr {
            id: 1,
            rpc_addr: flow,
            disk_count: 1,
        },
    ];
    let (report, _) = render(&nodes, Some(&found));
    assert!(report.contains("     0        1    up       [::1]:9000\n"));
    assert!(report.contains("     1        1    DOWN     [::1]:9000\n"));
    assert!(report.ends_with("1 / 2 nodes alive.\n"));
}

#[test]
fn only_a_connection_in_time_counts_as_up() {
    assert!(ProbeOutcome::Connected.is_up());
    assert!(!ProbeOutcome::Refused.is_up());
    assert!(!ProbeOutcome::TimedOut.is_up());
}

#[test]
fn last_probe_of_an_address_counts() {
    let found = Liveness::gather(&vec![
        (addr("a:1"), ProbeOutcome::Connected),
        (addr("b:1"), ProbeOutcome::Refused),
        (addr("c:1"), ProbeOutcome::TimedOut),
        (addr("a:1"), ProbeOutcome::TimedOut),
        (addr("b:1"), ProbeOutcome::Connected),
    ]);
    assert_eq!(found.get(&addr("a:1")), Some(false));
    assert_eq!(found.get(&addr("b:1")), Some(true));
    assert_eq!(found.get(&addr("c:1")), Some(false));
    assert_eq!(found.get(&addr("d:1")), None);
}

#[test]
fn probing_is_opt_in_and_has_a_default_timeout() {
    let mut args = TopologyArgs {
        config: PathBuf::from("openlake.toml"),
        probe: false,
        probe_timeout_secs: Some(9),
    };
    assert_eq!(args.probe_timeout(), None);
    args.probe = true;
    assert_eq!(args.probe_timeout(), Some(9));
    args.probe_timeout_secs = None;
    assert_eq!(args.probe_timeout(), Some(DEFAULT_PROBE_TIMEOUT_SECS));
    assert_eq!(DEFAULT_PROBE_TIMEOUT_SECS, 2);
    assert_eq!(MAX_CONCURRENT_PROBES, 64);
}

#[test]
fn heading_names_the_config() {
    assert_eq!(
        heading_text("/etc/openlake.toml"),
        "openlake cluster topology: /etc/openlake.toml\n\n"
    );
}

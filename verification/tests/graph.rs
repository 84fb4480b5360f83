use loghound::analytics::all_time;
use loghound::builder::GraphBuilder;
use loghound::correlator::Correlator;
use loghound::edge::{Edge, EdgeType};
use loghound::event::class;
use loghound::event::Event;
use loghound::identity::{basename, executable_key, file_key, host_key, process_key, session_key, user_key};
use loghound::ids::NodeId;
use loghound::index::proximity::FAR;
use loghound::index::{CsrSnapshot, Dir, EdgeTypeMask, TraversalOpts};
use loghound::node::{Node, NodeKind};
use loghound::query::{context_bounds, limit_or, neighbor_opts, parse_dir, parse_etypes, path_count, path_opts, time_window, timeline_params, OPEN_HI, OPEN_LO};
use loghound::time::Timestamp;

// ---------------------------------------------------------------------------
// Identity keys
// ---------------------------------------------------------------------------

#[test]
fn user_key_prefers_sid() {
    assert_eq!(user_key("alice", Some("CORP"), Some("S-1-5-21-1")), "s-1-5-21-1");
    assert_eq!(user_key("Alice", Some("CORP"), None), "corp\\alice");
    assert_eq!(user_key("alice", None, Some("-")), "alice");
    assert_eq!(user_key("alice", Some("-"), None), "alice");
}

#[test]
fn process_key_distinguishes_pid_reuse() {
    // Same host+pid, different start => different identity.
    assert_ne!(process_key("H", 200, 1000), process_key("H", 200, 5000));
}

#[test]
fn basename_handles_windows_and_unix() {
    assert_eq!(basename("C:\\Windows\\System32\\cmd.exe"), "cmd.exe");
    assert_eq!(basename("/usr/bin/bash"), "bash");
    assert_eq!(basename("plain.exe"), "plain.exe");
}

#[test]
fn identity_keys_are_canonical() {
    assert_eq!(host_key("  DC01.Corp.Local "), "dc01.corp.local");
    assert_eq!(process_key(" Host-A ", -7, 1000), "host-a:-7:1000");
    assert_eq!(executable_key(" C:\\Windows\\CMD.EXE "), "c:\\windows\\cmd.exe");
    assert_eq!(session_key("DC01", " 0x3e7 "), "dc01:0x3e7");
    assert_eq!(file_key("FS01", " C:\\Data\\Log.txt "), "fs01:c:\\data\\log.txt");
    assert_eq!(user_key(" Bob ", Some(" Corp "), Some("  ")), "corp\\bob");
    assert_eq!(basename("dir/"), "");
}

// ---------------------------------------------------------------------------
// The builder
// ---------------------------------------------------------------------------

#[test]
fn repeated_node_folds_validity() {
    let mut b = GraphBuilder::new();
    let a = b.node(NodeKind::Host, "dc01", "DC01", Timestamp(100));
    let a2 = b.node(NodeKind::Host, "dc01", "DC01", Timestamp(300));
    assert_eq!(a, a2);
    assert_eq!(b.node_count(), 1);
    let (nodes, _) = b.into_parts();
    assert_eq!(nodes[0].validity.first_seen, Timestamp(100));
    assert_eq!(nodes[0].validity.last_seen, Timestamp(300));
    assert_eq!(nodes[0].validity.event_count, 2);
}

#[test]
fn repeated_edge_folds() {
    let mut b = GraphBuilder::new();
    let u = b.node(NodeKind::User, "alice", "alice", Timestamp(1));
    let h = b.node(NodeKind::Host, "dc01", "DC01", Timestamp(1));
    b.edge(u, h, EdgeType::LoggedInTo, Timestamp(10));
    b.edge(u, h, EdgeType::LoggedInTo, Timestamp(20));
    assert_eq!(b.edge_count(), 1);
    let (_, edges) = b.into_parts();
    assert_eq!(edges[0].validity.event_count, 2);
    assert_eq!(edges[0].validity.last_seen, Timestamp(20));
}

#[test]
fn builder_keeps_first_label_and_sets_props() {
    let mut b = GraphBuilder::new();
    let h = b.node(NodeKind::Host, "dc01", "DC01", Timestamp(5));
    b.node(NodeKind::Host, "dc01", "other", Timestamp(1));
    b.set_node_prop(h, "os", "windows");
    b.set_node_prop(NodeId(12345), "os", "linux"); // unknown: ignored
    let (nodes, edges) = b.into_parts();
    assert_eq!(nodes.len(), 1);
    assert!(edges.is_empty());
    assert_eq!(nodes[0].label, "DC01");
    assert_eq!(nodes[0].validity.first_seen, Timestamp(1));
    assert_eq!(nodes[0].props.get("os").map(String::as_str), Some("windows"));
}

// ---------------------------------------------------------------------------
// The correlator
// ---------------------------------------------------------------------------

fn proc_ev(host: &str, pid: i64, name: &str, ppid: Option<i64>, ts: i64) -> Event {
    let mut e = Event::new(class::PROCESS_ACTIVITY, Timestamp(ts));
    e.host = Some(host.into());
    e.process_pid = Some(pid);
    e.process_name = Some(name.into());
    e.parent_pid = ppid;
    e.activity_id = Some(1);
    e
}

fn net_ev(host: &str, own_ip: &str, pid: i64, dst: &str, ts: i64) -> Event {
    let mut e = Event::new(class::NETWORK_ACTIVITY, Timestamp(ts));
    e.host = Some(host.into());
    e.process_pid = Some(pid);
    e.dst_ip = Some(dst.into());
    e.extra.insert("env.source_ip".into(), own_ip.into());
    e
}

fn auth_ev(host: &str, user: &str, code: i32, src_ip: &str, ts: i64) -> Event {
    let mut e = Event::new(class::AUTHENTICATION, Timestamp(ts));
    e.host = Some(host.into());
    e.user_name = Some(user.into());
    e.event_code = Some(code);
    e.src_ip = Some(src_ip.into());
    e
}

fn node_id(nodes: &[Node], kind: NodeKind, label: &str) -> Option<NodeId> {
    nodes.iter().find(|n| n.kind == kind && n.label == label).map(|n| n.id)
}

fn has_edge(edges: &[Edge], src: NodeId, dst: NodeId, etype: EdgeType) -> bool {
    edges.iter().any(|e| e.src == src && e.dst == dst && e.etype == etype)
}

#[test]
fn reconstructs_process_tree() {
    let mut c = Correlator::new();
    c.correlate_batch(&[
        proc_ev("H", 100, "explorer.exe", None, 10),
        proc_ev("H", 200, "cmd.exe", Some(100), 20),
        proc_ev("H", 300, "powershell.exe", Some(200), 30),
    ]);
    let (nodes, edges) = c.finish();
    let explorer = node_id(&nodes, NodeKind::Process, "explorer.exe").unwrap();
    let cmd = node_id(&nodes, NodeKind::Process, "cmd.exe").unwrap();
    let ps = node_id(&nodes, NodeKind::Process, "powershell.exe").unwrap();
    assert!(has_edge(&edges, explorer, cmd, EdgeType::Spawned));
    assert!(has_edge(&edges, cmd, ps, EdgeType::Spawned));
}

#[test]
fn pid_reuse_yields_distinct_process_nodes() {
    let mut c = Correlator::new();
    c.correlate_batch(&[
        proc_ev("H", 200, "cmd.exe", None, 10),
        proc_ev("H", 200, "evil.exe", None, 1000), // same pid, later => new instance
        proc_ev("H", 400, "child.exe", Some(200), 1001), // links to the live (evil) one
    ]);
    let (nodes, edges) = c.finish();
    // Two distinct process nodes share pid 200.
    let cmd = node_id(&nodes, NodeKind::Process, "cmd.exe").unwrap();
    let evil = node_id(&nodes, NodeKind::Process, "evil.exe").unwrap();
    let child = node_id(&nodes, NodeKind::Process, "child.exe").unwrap();
    assert_ne!(cmd, evil);
    assert!(has_edge(&edges, evil, child, EdgeType::Spawned));
    assert!(!has_edge(&edges, cmd, child, EdgeType::Spawned)); // NOT the retired one
}

#[test]
fn missing_parent_gets_synthetic_placeholder() {
    let mut c = Correlator::new();
    c.correlate_batch(&[proc_ev("H", 500, "orphan.exe", Some(999), 10)]);
    let (nodes, edges) = c.finish();
    let orphan = node_id(&nodes, NodeKind::Process, "orphan.exe").unwrap();
    // A placeholder parent node exists and spawned the orphan.
    let placeholder = nodes
        .iter()
        .find(|n| n.kind == NodeKind::Process && n.identity_key.ends_with(":999:?"))
        .expect("synthetic parent");
    assert!(has_edge(&edges, placeholder.id, orphan, EdgeType::Spawned));
}

#[test]
fn attributes_network_to_owning_process() {
    let mut c = Correlator::new();
    c.correlate_batch(&[
        proc_ev("H", 300, "powershell.exe", None, 10),
        net_ev("H", "10.0.0.1", 300, "8.8.8.8", 20),
    ]);
    let (nodes, edges) = c.finish();
    let ps = node_id(&nodes, NodeKind::Process, "powershell.exe").unwrap();
    let ip = node_id(&nodes, NodeKind::IpAddress, "8.8.8.8").unwrap();
    assert!(has_edge(&edges, ps, ip, EdgeType::ConnectedTo));
}

#[test]
fn network_without_new_process_still_attributes_to_a_process() {
    // The real sample has a NETWORK for svchost pid 3232 with no NEW_PROCESS.
    let mut c = Correlator::new();
    c.correlate_batch(&[net_ev("H", "10.0.0.1", 3232, "1.2.3.4", 5)]);
    let (nodes, edges) = c.finish();
    let svc = nodes.iter().find(|n| n.kind == NodeKind::Process).unwrap().id;
    let ip = node_id(&nodes, NodeKind::IpAddress, "1.2.3.4").unwrap();
    assert!(has_edge(&edges, svc, ip, EdgeType::ConnectedTo));
}

#[test]
fn auth_success_and_failure_edges() {
    let mut c = Correlator::new();
    c.correlate_batch(&[
        auth_ev("DC", "alice", 4624, "10.0.0.9", 10),
        auth_ev("DC", "bob", 4625, "10.0.0.9", 20),
    ]);
    let (nodes, edges) = c.finish();
    let dc = node_id(&nodes, NodeKind::Host, "DC").unwrap();
    let alice = node_id(&nodes, NodeKind::User, "alice").unwrap();
    let bob = node_id(&nodes, NodeKind::User, "bob").unwrap();
    assert!(has_edge(&edges, alice, dc, EdgeType::LoggedInTo));
    assert!(has_edge(&edges, bob, dc, EdgeType::Authenticated));
}

#[test]
fn cross_host_lateral_movement() {
    // HOST-A (10.0.0.1) is active; then a network logon lands on HOST-B
    // sourced from 10.0.0.1 => LATERAL_MOVEMENT A -> B.
    let mut c = Correlator::new();
    c.correlate_batch(&[
        net_ev("HOST-A", "10.0.0.1", 900, "10.0.0.2", 5), // teaches host_addr[10.0.0.1]=host-a
        auth_ev("HOST-B", "svc", 4624, "10.0.0.1", 50),
    ]);
    let (nodes, edges) = c.finish();
    let a = node_id(&nodes, NodeKind::Host, "HOST-A")
        .or_else(|| {
            nodes
                .iter()
                .find(|n| n.kind == NodeKind::Host && n.identity_key == "host-a")
                .map(|n| n.id)
        })
        .expect("host-a");
    let b = node_id(&nodes, NodeKind::Host, "HOST-B").unwrap();
    assert!(has_edge(&edges, a, b, EdgeType::LateralMovement));
}

#[test]
fn file_integrity_creates_host_file_edge_with_hash() {
    let mut c = Correlator::new();
    let mut e = Event::new(class::FILE_ACTIVITY, Timestamp(10));
    e.host = Some("FS01".into());
    e.set_field("file.path", "C:\\data\\log.txt");
    e.set_field("activity_name", "MODIFIED");
    e.set_field("file.hash_md5", "abc123");
    c.correlate(&e);
    let (nodes, edges) = c.finish();
    let fs = node_id(&nodes, NodeKind::Host, "FS01").unwrap();
    let file = node_id(&nodes, NodeKind::File, "log.txt").unwrap();
    assert!(has_edge(&edges, fs, file, EdgeType::Modified));
    let file_node = nodes.iter().find(|n| n.id == file).unwrap();
    assert_eq!(file_node.props.get("hash_md5").map(String::as_str), Some("abc123"));
}

#[test]
fn generic_privilege_event_links_acquired_privilege() {
    // Models the real 4673 sample: john.doe uses SeTcbPrivilege via msedge.
    let mut e = Event::new(0, Timestamp(10)); // class 0 => generic
    e.host = Some("DB01".into());
    e.actor_user = Some("john.doe".into());
    e.process_pid = Some(12904);
    e.process_name = Some("msedge.exe".into());
    e.set_field("PrivilegeList", "SeTcbPrivilege");
    let mut c = Correlator::new();
    c.correlate(&e);
    let (nodes, edges) = c.finish();
    let user = node_id(&nodes, NodeKind::User, "john.doe").unwrap();
    let priv_id = node_id(&nodes, NodeKind::Privilege, "SeTcbPrivilege").unwrap();
    assert!(has_edge(&edges, user, priv_id, EdgeType::AcquiredPrivilege));
    // And the process/executable were reconstructed too.
    assert!(node_id(&nodes, NodeKind::Process, "msedge.exe").is_some());
}

#[test]
fn correlated_graph_has_one_node_per_id() {
    let mut c = Correlator::new();
    c.correlate_batch(&[
        auth_ev("DC", "alice", 4624, "10.0.0.9", 10),
        auth_ev("DC", "alice", 4624, "10.0.0.9", 20),
        auth_ev("dc", "ALICE", 4624, "10.0.0.9", 30),
    ]);
    let (nodes, edges) = c.finish();
    for (i, a) in nodes.iter().enumerate() {
        assert!(nodes[i + 1..].iter().all(|b| b.id != a.id));
    }
    for (i, a) in edges.iter().enumerate() {
        assert!(edges[i + 1..].iter().all(|b| b.id != a.id));
    }
    let users: Vec<_> = nodes.iter().filter(|n| n.kind == NodeKind::User).collect();
    assert_eq!(users.len(), 1);
    assert_eq!(users[0].validity.event_count, 3);
}

// ---------------------------------------------------------------------------
// The CSR index
// ---------------------------------------------------------------------------

// Build: alice --LOGGED_IN_TO--> dc01 --SPAWNED--> proc, with distinct times.
fn fixture() -> (Vec<Node>, Vec<Edge>) {
    let alice = Node::new(NodeKind::User, "alice", "alice", Timestamp(100));
    let dc01 = Node::new(NodeKind::Host, "dc01", "DC01", Timestamp(100));
    let proc = Node::new(NodeKind::Process, "dc01:900:200", "cmd.exe", Timestamp(200));

    let mut e1 = Edge::new(alice.id, dc01.id, EdgeType::LoggedInTo, Timestamp(100));
    e1.validity.last_seen = Timestamp(150);
    let mut e2 = Edge::new(dc01.id, proc.id, EdgeType::Spawned, Timestamp(200));
    e2.validity.last_seen = Timestamp(250);

    (vec![alice, dc01, proc], vec![e1, e2])
}

#[test]
fn builds_with_correct_counts() {
    let (nodes, edges) = fixture();
    let snap = CsrSnapshot::build(&nodes, &edges);
    assert_eq!(snap.node_count(), 3);
    assert_eq!(snap.edge_count(), 2);
}

#[test]
fn dangling_edges_are_dropped() {
    let (nodes, _) = fixture();
    let ghost = Edge::new(NodeId(999), nodes[0].id, EdgeType::Spawned, Timestamp(1));
    let snap = CsrSnapshot::build(&nodes, &[ghost]);
    assert_eq!(snap.edge_count(), 0);
}

#[test]
fn one_hop_neighbors_both_directions() {
    let (nodes, edges) = fixture();
    let snap = CsrSnapshot::build(&nodes, &edges);
    let dc01 = nodes[1].id;
    let sub = snap.neighbors(dc01, &TraversalOpts::default());
    // dc01 connects to alice (incoming) and proc (outgoing) => 3 nodes, 2 edges.
    assert_eq!(sub.nodes.len(), 3);
    assert_eq!(sub.edges.len(), 2);
}

#[test]
fn direction_filter_restricts_neighbors() {
    let (nodes, edges) = fixture();
    let snap = CsrSnapshot::build(&nodes, &edges);
    let dc01 = nodes[1].id;
    let out = snap.neighbors(dc01, &TraversalOpts { direction: Dir::Out, ..Default::default() });
    // Out only: dc01 -> proc.
    assert_eq!(out.edges.len(), 1);
    assert_eq!(out.edges[0].etype, EdgeType::Spawned);
}

#[test]
fn edge_type_filter_applies() {
    let (nodes, edges) = fixture();
    let snap = CsrSnapshot::build(&nodes, &edges);
    let dc01 = nodes[1].id;
    let sub = snap.neighbors(
        dc01,
        &TraversalOpts { etypes: Some(EdgeTypeMask::of(&[EdgeType::LoggedInTo])), ..Default::default() },
    );
    assert_eq!(sub.edges.len(), 1);
    assert_eq!(sub.edges[0].etype, EdgeType::LoggedInTo);
}

#[test]
fn time_window_rewind_filters_edges() {
    let (nodes, edges) = fixture();
    let snap = CsrSnapshot::build(&nodes, &edges);
    let dc01 = nodes[1].id;
    // Window [0,160] overlaps only the LOGGED_IN_TO edge ([100,150]), not SPAWNED ([200,250]).
    let sub = snap.neighbors(
        dc01,
        &TraversalOpts { time: Some((Timestamp(0), Timestamp(160))), ..Default::default() },
    );
    assert_eq!(sub.edges.len(), 1);
    assert_eq!(sub.edges[0].etype, EdgeType::LoggedInTo);
}

#[test]
fn two_hop_reaches_process_from_alice() {
    let (nodes, edges) = fixture();
    let snap = CsrSnapshot::build(&nodes, &edges);
    let alice = nodes[0].id;
    let proc = nodes[2].id;
    let sub = snap.k_hop(alice, 2, &TraversalOpts::default());
    assert!(sub.nodes.iter().any(|v| v.id == proc), "2-hop reaches process");
    let one = snap.k_hop(alice, 1, &TraversalOpts::default());
    assert!(!one.nodes.iter().any(|v| v.id == proc), "1-hop does not");
}

#[test]
fn shortest_path_reconstructs_route() {
    let (nodes, edges) = fixture();
    let snap = CsrSnapshot::build(&nodes, &edges);
    let alice = nodes[0].id;
    let proc = nodes[2].id;
    let path = snap.shortest_path(alice, proc, &TraversalOpts::default()).expect("path exists");
    // alice -> dc01 -> proc: 3 nodes, 2 edges, endpoints correct.
    assert_eq!(path.nodes.len(), 3);
    assert_eq!(path.edges.len(), 2);
    assert_eq!(path.nodes.first().unwrap().id, alice);
    assert_eq!(path.nodes.last().unwrap().id, proc);

    // No path once the time filter excludes the second hop.
    let none = snap.shortest_path(
        alice,
        proc,
        &TraversalOpts { time: Some((Timestamp(0), Timestamp(160))), ..Default::default() },
    );
    assert!(none.is_none());
}

#[test]
fn traversals_from_unknown_nodes_are_empty() {
    let (nodes, edges) = fixture();
    let snap = CsrSnapshot::build(&nodes, &edges);
    let sub = snap.neighbors(NodeId(4242), &TraversalOpts::default());
    assert!(sub.nodes.is_empty() && sub.edges.is_empty());
    assert!(snap.degree(NodeId(4242)).is_none());
    assert!(snap.shortest_path(NodeId(4242), nodes[0].id, &all_time()).is_none());
    let same = snap.shortest_path(nodes[0].id, nodes[0].id, &all_time()).expect("trivial path");
    assert_eq!(same.nodes.len(), 1);
    assert!(same.edges.is_empty());
    assert_eq!(CsrSnapshot::empty().node_count(), 0);
}

#[test]
fn reachable_follows_the_traversal_filters() {
    let (nodes, edges) = fixture();
    let snap = CsrSnapshot::build(&nodes, &edges);
    let mut all = snap.reachable(nodes[0].id, &all_time());
    all.sort();
    let mut want = vec![nodes[0].id, nodes[1].id, nodes[2].id];
    want.sort();
    assert_eq!(all, want);
    let back = snap.reachable(nodes[0].id, &TraversalOpts { direction: Dir::In, ..all_time() });
    assert_eq!(back, vec![nodes[0].id]);
}

// user alice -LOGGED_IN_TO-> host DC01 -SPAWNED-> proc -CONNECTED_TO-> ip,
// and an Alert triggered by the host.
fn analytics_fixture() -> (Vec<Node>, Vec<Edge>) {
    let alice = Node::new(NodeKind::User, "alice", "alice", Timestamp(100));
    let dc01 = Node::new(NodeKind::Host, "dc01", "DC01", Timestamp(100));
    let proc = Node::new(NodeKind::Process, "dc01:9:2", "cmd.exe", Timestamp(200));
    let ip = Node::new(NodeKind::IpAddress, "1.2.3.4", "1.2.3.4", Timestamp(300));
    let alert = Node::new(NodeKind::Alert, "AB:dc01:400", "Lateral Movement", Timestamp(400));

    let e1 = Edge::new(alice.id, dc01.id, EdgeType::LoggedInTo, Timestamp(100));
    let e2 = Edge::new(dc01.id, proc.id, EdgeType::Spawned, Timestamp(200));
    let e3 = Edge::new(proc.id, ip.id, EdgeType::ConnectedTo, Timestamp(300));
    let e4 = Edge::new(dc01.id, alert.id, EdgeType::Triggered, Timestamp(400));

    (vec![alice, dc01, proc, ip, alert], vec![e1, e2, e3, e4])
}

#[test]
fn degree_counts() {
    let (nodes, edges) = analytics_fixture();
    let snap = CsrSnapshot::build(&nodes, &edges);
    let dc = snap.degree(nodes[1].id).unwrap();
    assert_eq!(dc.in_degree, 1); // alice -> dc01
    assert_eq!(dc.out_degree, 2); // dc01 -> proc, dc01 -> alert
    assert_eq!(dc.total(), 3);
}

#[test]
fn components_group_the_connected_graph() {
    let (nodes, edges) = analytics_fixture();
    let snap = CsrSnapshot::build(&nodes, &edges);
    let comps = snap.connected_components(&all_time());
    assert_eq!(comps.len(), 1);
    assert_eq!(comps[0].len(), nodes.len());
}

#[test]
fn components_split_under_a_time_window_largest_first() {
    let (nodes, edges) = analytics_fixture();
    let snap = CsrSnapshot::build(&nodes, &edges);
    // Only the edges first seen by 250 ms pass: alice-dc01-proc stay joined;
    // the ip and the alert stand alone.
    let window = TraversalOpts { time: Some((Timestamp(0), Timestamp(250))), ..all_time() };
    let comps = snap.connected_components(&window);
    assert_eq!(comps.len(), 3);
    assert_eq!(comps[0].len(), 3);
    assert_eq!(comps[1].len(), 1);
    assert_eq!(comps[2].len(), 1);
    for id in [nodes[0].id, nodes[1].id, nodes[2].id] {
        assert!(comps[0].contains(&id));
    }
    // The direction of a traversal does not matter to components.
    let outward = TraversalOpts { direction: Dir::Out, ..window };
    assert_eq!(snap.connected_components(&outward).len(), 3);
    // An edge-type filter that lets nothing through isolates every node.
    let none = TraversalOpts { etypes: Some(EdgeTypeMask::of(&[])), ..all_time() };
    assert_eq!(snap.connected_components(&none).len(), nodes.len());
    assert!(CsrSnapshot::empty().connected_components(&all_time()).is_empty());
}

#[test]
fn query_parameters_become_traversal_options() {
    use_query_helpers();
}

fn use_query_helpers() {
    assert_eq!(parse_dir(Some("out")), Dir::Out);
    assert_eq!(parse_dir(Some("in")), Dir::In);
    assert_eq!(parse_dir(Some("sideways")), Dir::Both);
    assert_eq!(parse_dir(None), Dir::Both);

    let m = parse_etypes(Some("SPAWNED, bogus ,LOGGED_IN_TO")).expect("two named types");
    assert!(m.contains(EdgeType::Spawned));
    assert!(m.contains(EdgeType::LoggedInTo));
    assert!(!m.contains(EdgeType::Triggered));
    assert!(parse_etypes(Some("bogus,,")).is_none());
    assert!(parse_etypes(None).is_none());

    assert_eq!(time_window(None, None), None);
    assert_eq!(time_window(Some(5), None), Some((Timestamp(5), Timestamp(OPEN_HI))));
    assert_eq!(time_window(None, Some(9)), Some((Timestamp(OPEN_LO), Timestamp(9))));
    assert_eq!(OPEN_LO, i64::MIN / 2);
    assert_eq!(OPEN_HI, i64::MAX / 2);

    let o = neighbor_opts(Some(9), Some("SPAWNED"), Some("out"), Some(1), Some(2));
    assert_eq!(o.max_hops, 5);
    assert_eq!(o.direction, Dir::Out);
    assert_eq!(o.time, Some((Timestamp(1), Timestamp(2))));
    assert!(o.etypes.unwrap().contains(EdgeType::Spawned));
    assert_eq!(neighbor_opts(Some(0), None, None, None, None).max_hops, 1);
    assert_eq!(neighbor_opts(None, None, None, None, None).max_hops, 1);
    let p = path_opts(Some("in"), None, Some(3));
    assert_eq!(p.max_hops, 0);
    assert!(p.etypes.is_none());
    assert_eq!(p.direction, Dir::In);

    assert_eq!(limit_or(None, 50, 500), 50);
    assert_eq!(limit_or(Some(10_000), 50, 500), 500);
    assert_eq!(limit_or(Some(7), 50, 500), 7);
    assert_eq!(timeline_params(None, Some(10), Some(0)), (OPEN_LO, 10, 1));
    assert_eq!(timeline_params(Some(3), None, None), (3, OPEN_HI, 3_600_000));
    assert_eq!(context_bounds(1_000_000, None), (700_000, 1_300_000));
    assert_eq!(context_bounds(10, Some(5)), (5, 15));
    assert_eq!(path_count(None), 3);
    assert_eq!(path_count(Some(0)), 1);
    assert_eq!(path_count(Some(40)), 10);
    assert_eq!(path_count(Some(4)), 4);
}

#[test]
fn edge_type_mask_bits_are_the_codes_of_its_types() {
    assert_eq!(EdgeTypeMask::none().0, 0);
    assert_eq!(EdgeTypeMask::of(&[]), EdgeTypeMask::none());
    let m = EdgeTypeMask::of(&[EdgeType::Spawned, EdgeType::LoggedInTo, EdgeType::Spawned]);
    assert_eq!(m.0, (1 << 3) | 1);
    assert_eq!(m, EdgeTypeMask::of(&[EdgeType::LoggedInTo, EdgeType::Spawned]));
    assert!(m.contains(EdgeType::Spawned));
    assert!(!m.contains(EdgeType::Triggered));
    assert!(EdgeTypeMask::of(&[EdgeType::Triggered]).0 < (1 << 22));
}

#[test]
fn snapshot_accessors_expose_rows_and_reverse_entries() {
    let (nodes, edges) = analytics_fixture();
    let snap = CsrSnapshot::build(&nodes, &edges);
    let dc = snap.dense(nodes[1].id).unwrap();
    assert_eq!(snap.node_view(dc).id, nodes[1].id);
    let (lo, hi) = snap.out_slots(dc);
    assert_eq!(hi - lo, 2);
    for slot in lo..hi {
        assert_eq!(snap.slot_src(slot), dc);
        assert_eq!(snap.edge_view(slot).src, nodes[1].id);
        assert!(snap.slot_passes(slot, &all_time()));
    }
    let (ilo, ihi) = snap.in_slots(dc);
    assert_eq!(ihi - ilo, 1);
    let e = snap.in_slot(dc, ilo);
    assert_eq!(snap.slot_dst(e), dc);
    assert_eq!(snap.node_view(snap.slot_src(e)).id, nodes[0].id);
    assert!(snap.dense(NodeId(12345)).is_none() || nodes.iter().any(|n| n.id == NodeId(12345)));
}

#[test]
fn alert_depths_count_hops_to_the_nearest_alert() {
    let (nodes, edges) = analytics_fixture();
    let snap = CsrSnapshot::build(&nodes, &edges);
    let depth = snap.alert_depths(3);
    let at = |i: usize| depth[snap.dense(nodes[i].id).unwrap()];
    assert_eq!(at(4), 0); // the alert itself
    assert_eq!(at(1), 1); // dc01 triggered it
    assert_eq!(at(0), 2); // alice -> dc01
    assert_eq!(at(2), 2); // dc01 -> proc
    assert_eq!(at(3), 3); // proc -> ip
    let shallow = snap.alert_depths(1);
    assert_eq!(shallow[snap.dense(nodes[3].id).unwrap()], FAR);
    assert_eq!(shallow[snap.dense(nodes[1].id).unwrap()], 1);
}

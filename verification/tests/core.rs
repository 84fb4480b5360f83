use loghound::edge::{Edge, EdgeType};
use loghound::event::class;
use loghound::event::Event;
use loghound::ids::{EdgeId, NodeId};
use loghound::node::{Node, NodeKind};
use loghound::time::{Timestamp, Validity};

#[test]
fn discriminant_roundtrips_for_all_types() {
    for v in 0u8..=21 {
        let e = EdgeType::from_u8(v).expect("known type");
        assert_eq!(e.as_u8(), v);
    }
    assert_eq!(EdgeType::from_u8(22), None);
}

#[test]
fn edge_id_stable_per_triple_and_directional() {
    let u = NodeId::of(NodeKind::User, "alice");
    let h = NodeId::of(NodeKind::Host, "dc01");
    let e1 = Edge::new(u, h, EdgeType::LoggedInTo, Timestamp(1));
    let e2 = Edge::new(u, h, EdgeType::LoggedInTo, Timestamp(50));
    assert_eq!(e1.id, e2.id, "same (src,dst,etype) => same edge id");

    // Direction matters, and edge type matters.
    assert_ne!(e1.id, Edge::new(h, u, EdgeType::LoggedInTo, Timestamp(1)).id);
    assert_ne!(e1.id, Edge::new(u, h, EdgeType::Authenticated, Timestamp(1)).id);
}

#[test]
fn get_prefers_typed_then_fields_then_extra() {
    let mut e = Event::new(class::PROCESS_ACTIVITY, Timestamp(1000));
    e.process_name = Some("powershell.exe".into());
    e.set_field("process.cmd_line", "powershell -enc AAA");
    e.extra.insert("Provider_Name".into(), "Sysmon".into());

    assert_eq!(e.get("process.name").as_deref(), Some("powershell.exe")); // typed
    assert_eq!(e.get("process.cmd_line").as_deref(), Some("powershell -enc AAA")); // fields
    assert_eq!(e.get("Provider_Name").as_deref(), Some("Sysmon")); // extra
    assert_eq!(e.get("time").as_deref(), Some("1000"));
    assert_eq!(e.get("nonexistent"), None);
}

#[test]
fn node_id_is_deterministic() {
    let a = NodeId::of(NodeKind::User, "CORP\\alice");
    let b = NodeId::of(NodeKind::User, "CORP\\alice");
    assert_eq!(a, b);
}

#[test]
fn node_id_separator_prevents_kind_key_collision() {
    // Without the separator byte, a crafted key could merge with the kind
    // byte. Confirm two distinct (kind, key) pairs do not collide.
    let a = NodeId::of(NodeKind::from_u8(1).unwrap(), "x"); // kind=1, "x"
    let b = NodeId::of(NodeKind::from_u8(0).unwrap(), "\u{1}x"); // kind=0, key starts 0x01
    assert_ne!(a, b);
}

#[test]
fn edge_id_is_deterministic_and_directional() {
    let s = NodeId(10);
    let d = NodeId(20);
    assert_eq!(EdgeId::of(s, d, EdgeType::Spawned), EdgeId::of(s, d, EdgeType::Spawned));
    assert_ne!(EdgeId::of(s, d, EdgeType::Spawned), EdgeId::of(d, s, EdgeType::Spawned));
}

#[test]
fn discriminant_roundtrips_for_all_kinds() {
    for v in 0u8..=19 {
        let k = NodeKind::from_u8(v).expect("known kind");
        assert_eq!(k.as_u8(), v);
    }
    assert_eq!(NodeKind::from_u8(20), None);
}

#[test]
fn same_identity_key_yields_same_id() {
    let a = Node::new(NodeKind::Host, "dc01.corp.local", "DC01", Timestamp(1));
    let b = Node::new(NodeKind::Host, "dc01.corp.local", "DC01", Timestamp(999));
    assert_eq!(a.id, b.id, "dedup key must be stable across observations");
}

#[test]
fn different_kind_same_key_yields_different_id() {
    let host = Node::new(NodeKind::Host, "x", "x", Timestamp(1));
    let user = Node::new(NodeKind::User, "x", "x", Timestamp(1));
    assert_ne!(host.id, user.id);
}

#[test]
fn observe_widens_interval_and_counts() {
    let mut v = Validity::at(Timestamp(100));
    assert_eq!(v.event_count, 1);
    v.observe(Timestamp(200)); // later
    v.observe(Timestamp(50)); // earlier (out of order)
    assert_eq!(v.first_seen, Timestamp(50));
    assert_eq!(v.last_seen, Timestamp(200));
    assert_eq!(v.event_count, 3);
}

#[test]
fn merge_unions_intervals_and_adds_counts() {
    let mut a = Validity::at(Timestamp(100));
    let b = Validity { first_seen: Timestamp(40), last_seen: Timestamp(300), event_count: 5 };
    a.merge(&b);
    assert_eq!(a.first_seen, Timestamp(40));
    assert_eq!(a.last_seen, Timestamp(300));
    assert_eq!(a.event_count, 6);
}

#[test]
fn live_at_is_inclusive() {
    let v = Validity { first_seen: Timestamp(100), last_seen: Timestamp(200), event_count: 1 };
    assert!(!v.live_at(Timestamp(99)));
    assert!(v.live_at(Timestamp(100))); // inclusive lower
    assert!(v.live_at(Timestamp(150)));
    assert!(v.live_at(Timestamp(200))); // inclusive upper
    assert!(!v.live_at(Timestamp(201)));
}

#[test]
fn live_in_detects_overlap() {
    let v = Validity { first_seen: Timestamp(100), last_seen: Timestamp(200), event_count: 1 };
    assert!(v.live_in(Timestamp(0), Timestamp(100))); // touches lower edge
    assert!(v.live_in(Timestamp(150), Timestamp(160))); // inside
    assert!(v.live_in(Timestamp(200), Timestamp(999))); // touches upper edge
    assert!(v.live_in(Timestamp(0), Timestamp(9999))); // superset
    assert!(!v.live_in(Timestamp(0), Timestamp(99))); // fully before
    assert!(!v.live_in(Timestamp(201), Timestamp(999))); // fully after
}

// ---------------------------------------------------------------------------
// Further checks of the core types
// ---------------------------------------------------------------------------

#[test]
fn observing_folds_out_of_order_observations_like_merging_singles() {
    let mut a = Validity::at(Timestamp(10));
    a.observe(Timestamp(30));
    a.observe(Timestamp(20));
    let mut b = Validity::at(Timestamp(10));
    b.merge(&Validity::at(Timestamp(20)));
    b.merge(&Validity::at(Timestamp(30)));
    assert_eq!(a, b);
}

#[test]
fn node_and_edge_names_round_trip() {
    for v in 0u8..=19 {
        let k = NodeKind::from_u8(v).unwrap();
        assert_eq!(NodeKind::from_name(k.name()), Some(k));
    }
    for v in 0u8..=21 {
        let e = EdgeType::from_u8(v).unwrap();
        assert_eq!(EdgeType::from_name(e.name()), Some(e));
    }
    assert_eq!(NodeKind::from_name("nope"), None);
    assert_eq!(EdgeType::from_name("nope"), None);
}

#[test]
fn node_id_is_the_seeded_xxh64_of_kind_separator_and_key() {
    // A change of key or of kind changes the id; the same pair keeps it.
    let a = NodeId::of(NodeKind::Process, "h|42|1000");
    assert_ne!(a, NodeId::of(NodeKind::Process, "h|42|1001"));
    assert_ne!(a, NodeId::of(NodeKind::Host, "h|42|1000"));
    assert_eq!(a, NodeId::of(NodeKind::Process, "h|42|1000"));
    assert_ne!(a.raw(), 0x4C6F_6748_6F75_6E64u64);
}

#[test]
fn event_get_reports_typed_numbers_and_class() {
    let mut e = Event::new(class::AUTHENTICATION, Timestamp(-5));
    e.process_pid = Some(4242);
    e.status_id = Some(2);
    assert_eq!(e.get("time").as_deref(), Some("-5"));
    assert_eq!(e.get("process.pid").as_deref(), Some("4242"));
    assert_eq!(e.get("class_uid").as_deref(), Some("3002"));
    assert_eq!(class::ocsf_class_name(class::AUTHENTICATION), "Authentication");
}

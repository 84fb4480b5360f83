//! Wiring alerts into the temporal graph: each [`Alert`] becomes an Alert
//! node, and the entities in its contributing events (`Host`, `User`,
//! `IpAddress`) get a `TRIGGERED` edge into it. This is what lets an
//! investigator pivot from an alert to the hosts/users/addresses involved and
//! on into the rest of the graph.
//!
//! Entity identity keys are the *same* ones the correlator uses, so these edges
//! attach to the already-built entity nodes rather than creating duplicates.

use vstd::prelude::*;

use crate::builder::{b_edge, b_node, b_set_prop, sorted_edges, sorted_nodes, BuilderV, GraphBuilder};
use crate::edge::{Edge, EdgeType};
use crate::engine::{alert_v, rule_type_text, severity_score, Alert, AlertV};
use crate::event::{event_lookup, opt_str, Event};
use crate::ids::NodeId;
use crate::identity::{host_key, host_key_of, user_key, user_key_of};
use crate::node::{Node, NodeKind};
use crate::num::{dec_int, i64_to_string};
use crate::time::Timestamp;

verus! {

/// The last event at or before `k` (exclusive) with `id`, if any: where a
/// map built from the events in order would point.
pub open spec fn last_event(evs: Seq<Event>, id: u64, k: int) -> Option<int>
    decreases k,
{
    if k <= 0 {
        None
    } else if evs[k - 1].event_id.0 == id {
        Some(k - 1)
    } else {
        last_event(evs, id, k - 1)
    }
}

/// One involved entity linked to the alert: its node is observed, and the
/// `TRIGGERED` edge is added the first time it appears for this alert.
pub open spec fn link_spec(
    b: BuilderV,
    linked: Seq<NodeId>,
    kind: NodeKind,
    key: Seq<char>,
    label: Seq<char>,
    alert: NodeId,
    ts: i64,
) -> (BuilderV, Seq<NodeId>) {
    if key.len() == 0 {
        (b, linked)
    } else {
        let (b1, id) = b_node(b, kind, key, label, ts);
        if linked.contains(id) {
            (b1, linked)
        } else {
            (b_edge(b1, id, alert, EdgeType::Triggered, ts).0, linked.push(id))
        }
    }
}

/// The entities of one event linked to the alert: host, user, source and
/// destination addresses.
pub open spec fn event_links(b: BuilderV, linked: Seq<NodeId>, ev: Event, alert: NodeId, ts: i64) -> (BuilderV, Seq<NodeId>) {
    let (b1, l1) = match opt_str(ev.host) {
        Some(h) => link_spec(b, linked, NodeKind::Host, host_key_of(h), h, alert, ts),
        None => (b, linked),
    };
    let (b2, l2) = match opt_str(ev.user_name) {
        Some(u) => link_spec(
            b1,
            l1,
            NodeKind::User,
            user_key_of(u, event_lookup(ev, "user.domain"@), event_lookup(ev, "user.uid"@)),
            u,
            alert,
            ts,
        ),
        None => (b1, l1),
    };
    let (b3, l3) = match opt_str(ev.src_ip) {
        Some(ip) => link_spec(b2, l2, NodeKind::IpAddress, ip, ip, alert, ts),
        None => (b2, l2),
    };
    match opt_str(ev.dst_ip) {
        Some(ip) => link_spec(b3, l3, NodeKind::IpAddress, ip, ip, alert, ts),
        None => (b3, l3),
    }
}

/// The entities of the events `ids[..k]` linked to the alert (ids with no
/// event are skipped).
pub open spec fn ids_links(b: BuilderV, linked: Seq<NodeId>, evs: Seq<Event>, ids: Seq<u64>, k: int, alert: NodeId, ts: i64) -> (
    BuilderV,
    Seq<NodeId>,
)
    decreases k,
{
    if k <= 0 {
        (b, linked)
    } else {
        let (b1, l1) = ids_links(b, linked, evs, ids, k - 1, alert, ts);
        match last_event(evs, ids[k - 1], evs.len() as int) {
            Some(j) => event_links(b1, l1, evs[j], alert, ts),
            None => (b1, l1),
        }
    }
}

/// A property of a node set only when present.
pub open spec fn set_opt_prop(b: BuilderV, id: NodeId, key: Seq<char>, v: Option<Seq<char>>) -> BuilderV {
    match v {
        Some(x) => b_set_prop(b, id, key, x),
        None => b,
    }
}

/// One alert added to the graph: its node and properties, then its links.
pub open spec fn alert_spec_graph(b: BuilderV, a: AlertV, evs: Seq<Event>) -> BuilderV {
    let ts = a.ts;
    let (b1, id) = b_node(b, NodeKind::Alert, a.alert_id, a.rule_name, ts);
    let b2 = b_set_prop(b1, id, "rule_id"@, a.rule_id);
    let b3 = b_set_prop(b2, id, "severity"@, a.severity);
    let b4 = b_set_prop(b3, id, "rule_type"@, rule_type_text(a.rule_type));
    let b5 = set_opt_prop(b4, id, "mitre"@, a.mitre);
    let b6 = set_opt_prop(b5, id, "mitre_id"@, a.mitre_id);
    let b7 = b_set_prop(b6, id, "risk"@, dec_int(severity_score(a.severity) as int));
    ids_links(b7, Seq::empty(), evs, a.event_ids, a.event_ids.len() as int, id, ts).0
}

/// The alerts `as_[..k]` added to the graph in order.
pub open spec fn alerts_graph(b: BuilderV, as_: Seq<AlertV>, evs: Seq<Event>, k: int) -> BuilderV
    decreases k,
{
    if k <= 0 {
        b
    } else {
        alert_spec_graph(alerts_graph(b, as_, evs, k - 1), as_[k - 1], evs)
    }
}

fn find_last_event(evs: &[Event], id: u64) -> (r: Option<usize>)
    ensures
        match last_event(evs@, id, evs@.len() as int) {
            Some(j) => r == Some(j as usize) && 0 <= j < evs@.len(),
            None => r is None,
        },
{
    let mut k = evs.len();
    while k > 0
        invariant
            k <= evs@.len(),
            last_event(evs@, id, evs@.len() as int) == last_event(evs@, id, k as int),
        decreases k,
    {
        if evs[k - 1].event_id.0 == id {
            return Some(k - 1);
        }
        k = k - 1;
    }
    None
}

fn contains_id(v: &Vec<NodeId>, id: NodeId) -> (b: bool)
    ensures
        b == v@.contains(id),
{
    let mut i: usize = 0;
    while i < v.len()
        invariant
            i <= v@.len(),
            forall|j: int| 0 <= j < i ==> v@[j] != id,
        decreases v@.len() - i,
    {
        if v[i].0 == id.0 {
            assert(v@[i as int] == id);
            return true;
        }
        i = i + 1;
    }
    false
}

fn link(b: &mut GraphBuilder, linked: &mut Vec<NodeId>, kind: NodeKind, key: &str, label: &str, alert: NodeId, ts: Timestamp)
    ensures
        (final(b)@, final(linked)@) == link_spec(old(b)@, old(linked)@, kind, key@, label@, alert, ts.0),
{
    if key.is_empty() {
        return;
    }
    let id = b.node(kind, key, label, ts);
    if !contains_id(linked, id) {
        linked.push(id);
        b.edge(id, alert, EdgeType::Triggered, ts);
    }
}

fn link_event(b: &mut GraphBuilder, linked: &mut Vec<NodeId>, ev: &Event, alert: NodeId, ts: Timestamp)
    ensures
        (final(b)@, final(linked)@) == event_links(old(b)@, old(linked)@, *ev, alert, ts.0),
{
    if let Some(h) = &ev.host {
        let hk = host_key(h.as_str());
        link(b, linked, NodeKind::Host, hk.as_str(), h.as_str(), alert, ts);
    }
    if let Some(u) = &ev.user_name {
        let d = ev.get("user.domain");
        let s = ev.get("user.uid");
        let dr: Option<&str> = match &d {
            Some(x) => Some(x.as_str()),
            None => None,
        };
        let sr: Option<&str> = match &s {
            Some(x) => Some(x.as_str()),
            None => None,
        };
        let key = user_key(u.as_str(), dr, sr);
        link(b, linked, NodeKind::User, key.as_str(), u.as_str(), alert, ts);
    }
    if let Some(ip) = &ev.src_ip {
        link(b, linked, NodeKind::IpAddress, ip.as_str(), ip.as_str(), alert, ts);
    }
    if let Some(ip) = &ev.dst_ip {
        link(b, linked, NodeKind::IpAddress, ip.as_str(), ip.as_str(), alert, ts);
    }
}

fn add_alert(b: &mut GraphBuilder, a: &Alert, events: &[Event])
    ensures
        final(b)@ == alert_spec_graph(old(b)@, alert_v(*a), events@),
{
    let ats = Timestamp(a.ts);
    let alert_id = b.node(NodeKind::Alert, a.alert_id.as_str(), a.rule_name.as_str(), ats);
    b.set_node_prop(alert_id, "rule_id", a.rule_id.as_str());
    b.set_node_prop(alert_id, "severity", a.severity.as_str());
    b.set_node_prop(alert_id, "rule_type", a.rule_type_name());
    if let Some(m) = &a.mitre {
        b.set_node_prop(alert_id, "mitre", m.as_str());
    }
    if let Some(id) = &a.mitre_id {
        b.set_node_prop(alert_id, "mitre_id", id.as_str());
    }
    let risk = i64_to_string(a.risk_score() as i64);
    b.set_node_prop(alert_id, "risk", risk.as_str());
    let ghost b7 = b@;
    let mut linked: Vec<NodeId> = Vec::new();
    let mut k: usize = 0;
    while k < a.event_ids.len()
        invariant
            k <= a.event_ids@.len(),
            ats.0 == a.ts,
            (b@, linked@) == ids_links(b7, Seq::empty(), events@, a.event_ids@, k as int, alert_id, a.ts),
        decreases a.event_ids@.len() - k,
    {
        match find_last_event(events, a.event_ids[k]) {
            Some(j) => link_event(b, &mut linked, &events[j], alert_id, ats),
            None => {},
        }
        k = k + 1;
    }
}

/// Build the Alert nodes + `TRIGGERED` edges for a batch of alerts. Each
/// alert's event ids are resolved against `events` (the last event with an id
/// wins, as in a map built from them in order). Nodes and edges fold by
/// content-addressed id, and come out sorted by id.
pub fn build_alert_graph(alerts: &[Alert], events: &[Event]) -> (r: (Vec<Node>, Vec<Edge>))
    ensures
        ({
            let g = alerts_graph(
                BuilderV { nodes: Seq::empty(), edges: Seq::empty() },
                alerts@.map_values(|a: Alert| alert_v(a)),
                events@,
                alerts@.len() as int,
            );
            sorted_nodes(g.nodes, crate::builder::nodes_v(r.0@)) && sorted_edges(g.edges, crate::builder::edges_v(r.1@))
        }),
{
    let mut b = GraphBuilder::new();
    let ghost av = alerts@.map_values(|a: Alert| alert_v(a));
    let ghost b0 = b@;
    let mut i: usize = 0;
    while i < alerts.len()
        invariant
            i <= alerts@.len(),
            av == alerts@.map_values(|a: Alert| alert_v(a)),
            b0 == (BuilderV { nodes: Seq::empty(), edges: Seq::empty() }),
            b@ == alerts_graph(b0, av, events@, i as int),
        decreases alerts@.len() - i,
    {
        add_alert(&mut b, &alerts[i], events);
        i = i + 1;
    }
    b.into_parts()
}

} // verus!

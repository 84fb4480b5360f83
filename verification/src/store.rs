//! The persisted shapes: event summaries, table names, counts and alert
//! records. The database itself lives outside the library.

use vstd::prelude::*;

use crate::engine::{alert_v, rule_type_text, Alert, AlertV};
use crate::text::owned;

verus! {

/// A compact event row for list views.
#[derive(Debug, Clone)]
pub struct EventSummary {
    pub event_id: u64,
    pub ts: i64,
    pub class_uid: u32,
    pub event_code: Option<i32>,
    pub host: Option<String>,
    pub user_name: Option<String>,
    pub process_name: Option<String>,
    pub src_ip: Option<String>,
    pub dst_ip: Option<String>,
}

/// Top-level counts for the stats endpoint.
#[derive(Debug, Clone, Copy)]
pub struct Stats {
    pub events: u64,
    pub nodes: u64,
    pub edges: u64,
    pub alerts: u64,
}

/// The tables of the store.
#[derive(Debug, Clone, Copy, PartialEq, Eq, Structural)]
pub enum Table {
    Events,
    Nodes,
    Edges,
    EdgeEvents,
    NodeEvents,
    Alerts,
}

/// The SQL name of a table.
pub open spec fn table_name(t: Table) -> Seq<char> {
    match t {
        Table::Events => "events"@,
        Table::Nodes => "nodes"@,
        Table::Edges => "edges"@,
        Table::EdgeEvents => "edge_events"@,
        Table::NodeEvents => "node_events"@,
        Table::Alerts => "alerts"@,
    }
}

impl Table {
    /// The table's SQL name.
    pub fn name(self) -> (s: &'static str)
        ensures
            s@ == table_name(self),
    {
        match self {
            Table::Events => "events",
            Table::Nodes => "nodes",
            Table::Edges => "edges",
            Table::EdgeEvents => "edge_events",
            Table::NodeEvents => "node_events",
            Table::Alerts => "alerts",
        }
    }
}

/// A persisted alert. `event_ids` links back to the exact events.
#[derive(Debug, Clone)]
pub struct AlertRecord {
    pub alert_id: String,
    pub rule_id: String,
    pub name: String,
    pub severity: String,
    pub rule_type: String,
    pub mitre: Option<String>,
    pub ts: i64,
    pub event_count: u64,
    pub group_key: Option<String>,
    pub description: String,
    pub event_ids: Vec<u64>,
}

fn opt_copy(o: &Option<String>) -> (r: Option<String>)
    ensures
        crate::engine::ostr(r) == crate::engine::ostr(*o),
{
    match o {
        Some(s) => Some(owned(s.as_str())),
        None => None,
    }
}

fn copy_ids(v: &Vec<u64>) -> (r: Vec<u64>)
    ensures
        r@ == v@,
{
    let mut r: Vec<u64> = Vec::new();
    let mut k: usize = 0;
    while k < v.len()
        invariant
            k <= v@.len(),
            r@ == v@.take(k as int),
        decreases v@.len() - k,
    {
        r.push(v[k]);
        k = k + 1;
        proof {
            assert(r@ =~= v@.take(k as int));
        }
    }
    proof {
        assert(v@.take(k as int) =~= v@);
    }
    r
}

/// `r` is the record alert `a` is persisted as: its fields copied, its rule
/// type by name, its number of contributing events.
pub open spec fn record_of(a: Alert, r: AlertRecord) -> bool {
    &&& r.alert_id@ == a.alert_id@
    &&& r.rule_id@ == a.rule_id@
    &&& r.name@ == a.rule_name@
    &&& r.severity@ == a.severity@
    &&& r.rule_type@ == rule_type_text(a.rule_type)
    &&& crate::engine::ostr(r.mitre) == crate::engine::ostr(a.mitre)
    &&& r.ts == a.ts
    &&& r.event_count == a.event_ids@.len()
    &&& crate::engine::ostr(r.group_key) == crate::engine::ostr(a.group_key)
    &&& r.description@ == a.description@
    &&& r.event_ids@ == a.event_ids@
}

/// The record an alert is persisted as.
pub fn alert_record(a: &Alert) -> (r: AlertRecord)
    ensures
        record_of(*a, r),
{
    AlertRecord {
        alert_id: owned(a.alert_id.as_str()),
        rule_id: owned(a.rule_id.as_str()),
        name: owned(a.rule_name.as_str()),
        severity: owned(a.severity.as_str()),
        rule_type: owned(a.rule_type_name()),
        mitre: opt_copy(&a.mitre),
        ts: a.ts,
        event_count: a.event_ids.len() as u64,
        group_key: opt_copy(&a.group_key),
        description: owned(a.description.as_str()),
        event_ids: copy_ids(&a.event_ids),
    }
}

} // verus!

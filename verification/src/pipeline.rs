//! The batch steps of the command-line pipeline, apart from reading files and
//! writing the store: summarizing a parse, numbering a batch of normalized
//! events, tallying the correlated graph, and running detection over a batch.

use vstd::prelude::*;

use crate::alerts::{alerts_graph, build_alert_graph};
use crate::builder::{sorted_edges, sorted_nodes, BuilderV};
use crate::dsl::strs_v;
use crate::edge::Edge;
use crate::engine::{alert_v, alerts_v, dedup_alerts, dedup_spec, is_run_order, run_fold, Alert, Engine, EngineV};
use crate::event::{event_v, Event, EventV};
use crate::ids::EventId;
use crate::node::Node;
use crate::normalizer::{normalize_spec, Normalizer};
use crate::record::{kind_text, parse_error_text, ParseError, RawRecord};
use crate::store::{alert_record, record_of, AlertRecord};
use crate::tally::{is_tally, str_lt, str_tally_v, tally_strs, tally_u32, u32_lt};
use crate::text::owned;

verus! {

// ---------------------------------------------------------------------------
// Parse results
// ---------------------------------------------------------------------------

/// The records among some parse results, in order.
pub open spec fn oks(rs: Seq<Result<RawRecord, ParseError>>) -> Seq<RawRecord>
    decreases rs.len(),
{
    if rs.len() == 0 {
        Seq::empty()
    } else {
        match rs.last() {
            Ok(r) => oks(rs.drop_last()).push(r),
            Err(_) => oks(rs.drop_last()),
        }
    }
}

/// The errors among some parse results, in order.
pub open spec fn errs(rs: Seq<Result<RawRecord, ParseError>>) -> Seq<ParseError>
    decreases rs.len(),
{
    if rs.len() == 0 {
        Seq::empty()
    } else {
        match rs.last() {
            Ok(_) => errs(rs.drop_last()),
            Err(e) => errs(rs.drop_last()).push(e),
        }
    }
}

/// The kind names of some records.
pub open spec fn kinds_of(recs: Seq<RawRecord>) -> Seq<Seq<char>> {
    recs.map_values(|r: RawRecord| kind_text(r.kind))
}

/// The OCSF classes that some records normalize to.
pub open spec fn classes_of(cfg: Seq<(String, crate::config::EventMapping)>, recs: Seq<RawRecord>) -> Seq<u32> {
    recs.map_values(|r: RawRecord| normalize_spec(cfg, r).class_uid)
}

/// The messages of some errors.
pub open spec fn error_texts(es: Seq<ParseError>) -> Seq<Seq<char>> {
    es.map_values(|e: ParseError| parse_error_text(e))
}

/// How many errors a parse summary quotes.
pub open spec fn quoted(n: nat) -> int {
    if n < 5 {
        n as int
    } else {
        5
    }
}

/// What a parse pass saw: records and errors, records by kind and by the OCSF
/// class they normalize to, and the messages of the first five errors.
pub struct ParseSummary {
    pub records: usize,
    pub errors: usize,
    pub by_kind: Vec<(String, usize)>,
    pub by_class: Vec<(u32, usize)>,
    pub first_errors: Vec<String>,
}

proof fn lemma_split_step(rs: Seq<Result<RawRecord, ParseError>>, i: int)
    requires
        0 <= i < rs.len(),
    ensures
        rs.take(i + 1).drop_last() == rs.take(i),
        oks(rs.take(i + 1)) == match rs[i] {
            Ok(r) => oks(rs.take(i)).push(r),
            Err(_) => oks(rs.take(i)),
        },
        errs(rs.take(i + 1)) == match rs[i] {
            Ok(_) => errs(rs.take(i)),
            Err(e) => errs(rs.take(i)).push(e),
        },
        oks(rs.take(i)).len() + errs(rs.take(i)).len() == i,
    decreases i,
{
    assert(rs.take(i + 1).drop_last() =~= rs.take(i));
    assert(rs.take(i + 1).last() == rs[i]);
    if i > 0 {
        lemma_split_step(rs, i - 1);
    } else {
        assert(rs.take(0) =~= Seq::<Result<RawRecord, ParseError>>::empty());
    }
}

/// Summarize a parse pass over `results` (the `parse` command's report).
pub fn summarize_parse(results: &Vec<Result<RawRecord, ParseError>>, normalizer: &Normalizer) -> (s: ParseSummary)
    ensures
        s.records == oks(results@).len(),
        s.errors == errs(results@).len(),
        is_tally(kinds_of(oks(results@)), str_tally_v(s.by_kind@), str_lt()),
        is_tally(classes_of(normalizer.cfg(), oks(results@)), s.by_class@, u32_lt()),
        strs_v(s.first_errors@) == error_texts(errs(results@)).take(quoted(errs(results@).len())),
{
    let ghost rs = results@;
    let ghost cfg = normalizer.cfg();
    let mut kinds: Vec<String> = Vec::new();
    let mut classes: Vec<u32> = Vec::new();
    let mut firsts: Vec<String> = Vec::new();
    let mut records: usize = 0;
    let mut errors: usize = 0;
    let mut i: usize = 0;
    proof {
        assert(rs.take(0) =~= Seq::<Result<RawRecord, ParseError>>::empty());
        assert(strs_v(kinds@) =~= kinds_of(oks(rs.take(0))));
        assert(classes@ =~= classes_of(cfg, oks(rs.take(0))));
        assert(strs_v(firsts@) =~= error_texts(errs(rs.take(0))).take(0));
    }
    while i < results.len()
        invariant
            i <= rs.len(),
            rs == results@,
            cfg == normalizer.cfg(),
            records == oks(rs.take(i as int)).len(),
            errors == errs(rs.take(i as int)).len(),
            records + errors == i,
            strs_v(kinds@) == kinds_of(oks(rs.take(i as int))),
            classes@ == classes_of(cfg, oks(rs.take(i as int))),
            strs_v(firsts@) == error_texts(errs(rs.take(i as int))).take(quoted(errors as nat)),
        decreases rs.len() - i,
    {
        proof {
            lemma_split_step(rs, i as int);
        }
        match &results[i] {
            Ok(rec) => {
                let ghost pk = kinds@;
                let name = rec.kind.as_str();
                kinds.push(owned(name));
                let ev = normalizer.normalize(rec);
                classes.push(ev.class_uid);
                records = records + 1;
                proof {
                    let o = oks(rs.take(i + 1));
                    assert(o == oks(rs.take(i as int)).push(*rec));
                    assert(strs_v(kinds@) =~= strs_v(pk).push(kind_text(rec.kind)));
                    assert(kinds_of(o) =~= kinds_of(oks(rs.take(i as int))).push(kind_text(rec.kind)));
                    assert(classes@ =~= classes_of(cfg, o));
                }
            },
            Err(e) => {
                let ghost pf = firsts@;
                let ghost e0 = errs(rs.take(i as int));
                if firsts.len() < 5 {
                    firsts.push(e.message());
                }
                errors = errors + 1;
                proof {
                    let es = errs(rs.take(i + 1));
                    assert(es == e0.push(*e));
                    assert(error_texts(es) =~= error_texts(e0).push(parse_error_text(*e)));
                    if pf.len() < 5 {
                        assert(strs_v(firsts@) =~= strs_v(pf).push(parse_error_text(*e)));
                    }
                    assert(strs_v(firsts@) =~= error_texts(es).take(quoted(errors as nat)));
                }
            },
        }
        i = i + 1;
    }
    proof {
        assert(rs.take(i as int) =~= rs);
    }
    let by_kind = tally_strs(&kinds);
    let by_class = tally_u32(&classes);
    ParseSummary { records, errors, by_kind, by_class, first_errors: firsts }
}

// ---------------------------------------------------------------------------
// A numbered batch of events
// ---------------------------------------------------------------------------

/// A normalized event given its id.
pub open spec fn numbered(ev: EventV, id: u64) -> EventV {
    EventV { event_id: EventId(id), ..ev }
}

/// The events of an ingest batch, with their counts.
pub struct IngestBatch {
    pub events: Vec<Event>,
    pub records: usize,
    pub errors: usize,
    pub by_class: Vec<(u32, usize)>,
}

/// Normalize the records among `results` and number them from `first_id` in
/// order (the `ingest` command's batch); count records, errors and classes.
pub fn ingest_records(results: &Vec<Result<RawRecord, ParseError>>, normalizer: &Normalizer, first_id: u64) -> (b:
    IngestBatch)
    requires
        first_id + results@.len() <= u64::MAX,
    ensures
        b.records == oks(results@).len(),
        b.errors == errs(results@).len(),
        b.events@.len() == oks(results@).len(),
        forall|j: int|
            0 <= j < b.events@.len() ==> event_v(#[trigger] b.events@[j]) == numbered(
                normalize_spec(normalizer.cfg(), oks(results@)[j]),
                (first_id + j) as u64,
            ),
        is_tally(classes_of(normalizer.cfg(), oks(results@)), b.by_class@, u32_lt()),
{
    let ghost rs = results@;
    let ghost cfg = normalizer.cfg();
    let mut events: Vec<Event> = Vec::new();
    let mut classes: Vec<u32> = Vec::new();
    let mut errors: usize = 0;
    let mut next = first_id;
    let mut i: usize = 0;
    proof {
        assert(rs.take(0) =~= Seq::<Result<RawRecord, ParseError>>::empty());
        assert(classes@ =~= classes_of(cfg, oks(rs.take(0))));
    }
    while i < results.len()
        invariant
            i <= rs.len(),
            rs == results@,
            cfg == normalizer.cfg(),
            first_id + rs.len() <= u64::MAX,
            events@.len() == oks(rs.take(i as int)).len(),
            errors == errs(rs.take(i as int)).len(),
            events@.len() + errors == i,
            next == first_id + events@.len(),
            forall|j: int|
                0 <= j < events@.len() ==> event_v(#[trigger] events@[j]) == numbered(
                    normalize_spec(cfg, oks(rs.take(i as int))[j]),
                    (first_id + j) as u64,
                ),
            classes@ == classes_of(cfg, oks(rs.take(i as int))),
        decreases rs.len() - i,
    {
        proof {
            lemma_split_step(rs, i as int);
        }
        match &results[i] {
            Ok(rec) => {
                let mut ev = normalizer.normalize(rec);
                ev.event_id = EventId::new(next);
                classes.push(ev.class_uid);
                events.push(ev);
                next = next + 1;
                proof {
                    let o = oks(rs.take(i + 1));
                    assert(classes@ =~= classes_of(cfg, o));
                    assert forall|j: int| 0 <= j < events@.len() implies event_v(#[trigger] events@[j]) == numbered(
                        normalize_spec(cfg, o[j]),
                        (first_id + j) as u64,
                    ) by {
                        if j < events@.len() - 1 {
                            assert(o[j] == oks(rs.take(i as int))[j]);
                        }
                    }
                }
            },
            Err(_) => {
                errors = errors + 1;
            },
        }
        i = i + 1;
    }
    proof {
        assert(rs.take(i as int) =~= rs);
    }
    let by_class = tally_u32(&classes);
    let records = events.len();
    IngestBatch { events, records, errors, by_class }
}

// ---------------------------------------------------------------------------
// Tallies of the correlated graph
// ---------------------------------------------------------------------------

/// The kind names of some nodes.
pub open spec fn node_kind_names(ns: Seq<Node>) -> Seq<Seq<char>> {
    ns.map_values(|n: Node| n.kind.label())
}

/// The type names of some edges.
pub open spec fn edge_type_names(es: Seq<Edge>) -> Seq<Seq<char>> {
    es.map_values(|e: Edge| e.etype.label())
}

/// Nodes by kind name.
pub fn node_kind_tally(nodes: &[Node]) -> (t: Vec<(String, usize)>)
    ensures
        is_tally(node_kind_names(nodes@), str_tally_v(t@), str_lt()),
{
    let mut names: Vec<String> = Vec::new();
    let mut i: usize = 0;
    while i < nodes.len()
        invariant
            i <= nodes@.len(),
            strs_v(names@) == node_kind_names(nodes@.take(i as int)),
        decreases nodes@.len() - i,
    {
        let ghost prev = names@;
        names.push(owned(nodes[i].kind.name()));
        proof {
            assert(strs_v(names@) =~= strs_v(prev).push(nodes@[i as int].kind.label()));
            assert(nodes@.take(i + 1) =~= nodes@.take(i as int).push(nodes@[i as int]));
            assert(node_kind_names(nodes@.take(i + 1)) =~= node_kind_names(nodes@.take(i as int)).push(
                nodes@[i as int].kind.label(),
            ));
        }
        i = i + 1;
    }
    proof {
        assert(nodes@.take(i as int) =~= nodes@);
    }
    tally_strs(&names)
}

/// Edges by type name.
pub fn edge_type_tally(edges: &[Edge]) -> (t: Vec<(String, usize)>)
    ensures
        is_tally(edge_type_names(edges@), str_tally_v(t@), str_lt()),
{
    let mut names: Vec<String> = Vec::new();
    let mut i: usize = 0;
    while i < edges.len()
        invariant
            i <= edges@.len(),
            strs_v(names@) == edge_type_names(edges@.take(i as int)),
        decreases edges@.len() - i,
    {
        let ghost prev = names@;
        names.push(owned(edges[i].etype.name()));
        proof {
            assert(strs_v(names@) =~= strs_v(prev).push(edges@[i as int].etype.label()));
            assert(edges@.take(i + 1) =~= edges@.take(i as int).push(edges@[i as int]));
            assert(edge_type_names(edges@.take(i + 1)) =~= edge_type_names(edges@.take(i as int)).push(
                edges@[i as int].etype.label(),
            ));
        }
        i = i + 1;
    }
    proof {
        assert(edges@.take(i as int) =~= edges@);
    }
    tally_strs(&names)
}

// ---------------------------------------------------------------------------
// Detection over a batch
// ---------------------------------------------------------------------------

/// `alerts` is what a run over `evs` from state `st0` fires, deduplicated,
/// and `st1` the state it leaves.
pub open spec fn detected(st0: EngineV, st1: EngineV, evs: Seq<Event>, alerts: Seq<Alert>) -> bool {
    exists|order: Seq<usize>, raw: Seq<Alert>|
        #![trigger is_run_order(evs, order), dedup_spec(raw)]
        is_run_order(evs, order) && run_fold(st0, evs, order, evs.len() as int) == (st1, alerts_v(raw))
            && alerts == dedup_spec(raw)
}

/// The severities of some alerts.
pub open spec fn severities(s: Seq<Alert>) -> Seq<Seq<char>> {
    s.map_values(|a: Alert| a.severity@)
}

/// The rule ids of some alerts.
pub open spec fn rule_ids(s: Seq<Alert>) -> Seq<Seq<char>> {
    s.map_values(|a: Alert| a.rule_id@)
}

/// The outcome of detection over a batch: the deduplicated alerts, their
/// nodes and edges, the records they are stored as, and the alerts by
/// severity and by rule.
pub struct Detection {
    pub alerts: Vec<Alert>,
    pub nodes: Vec<Node>,
    pub edges: Vec<Edge>,
    pub records: Vec<AlertRecord>,
    pub by_severity: Vec<(String, usize)>,
    pub by_rule: Vec<(String, usize)>,
}

/// Run detection over a batch, deduplicate the alerts, and wire them into the
/// graph (the `ingest` command's detection step).
pub fn detect(engine: &mut Engine, events: &[Event]) -> (d: Detection)
    ensures
        detected(old(engine)@, final(engine)@, events@, d.alerts@),
        ({
            let g = alerts_graph(
                BuilderV { nodes: Seq::empty(), edges: Seq::empty() },
                d.alerts@.map_values(|a: Alert| alert_v(a)),
                events@,
                d.alerts@.len() as int,
            );
            sorted_nodes(g.nodes, crate::builder::nodes_v(d.nodes@)) && sorted_edges(g.edges, crate::builder::edges_v(d.edges@))
        }),
        d.records@.len() == d.alerts@.len(),
        forall|i: int| 0 <= i < d.alerts@.len() ==> record_of(#[trigger] d.alerts@[i], d.records@[i]),
        is_tally(severities(d.alerts@), str_tally_v(d.by_severity@), str_lt()),
        is_tally(rule_ids(d.alerts@), str_tally_v(d.by_rule@), str_lt()),
{
    let ghost st0 = engine@;
    let raw = engine.run(events);
    let ghost rawv = raw@;
    let alerts = dedup_alerts(raw);
    proof {
        let order = choose|order: Seq<usize>| #[trigger] is_run_order(events@, order)
            && (engine@, alerts_v(rawv)) == run_fold(st0, events@, order, events@.len() as int);
        assert(is_run_order(events@, order) && dedup_spec(rawv) == alerts@);
    }
    let (nodes, edges) = build_alert_graph(alerts.as_slice(), events);
    let mut records: Vec<AlertRecord> = Vec::new();
    let mut sevs: Vec<String> = Vec::new();
    let mut rules: Vec<String> = Vec::new();
    let mut i: usize = 0;
    while i < alerts.len()
        invariant
            i <= alerts@.len(),
            records@.len() == i,
            forall|j: int| 0 <= j < i ==> record_of(#[trigger] alerts@[j], records@[j]),
            strs_v(sevs@) == severities(alerts@.take(i as int)),
            strs_v(rules@) == rule_ids(alerts@.take(i as int)),
        decreases alerts@.len() - i,
    {
        let a = &alerts[i];
        let ghost (ps, pr) = (sevs@, rules@);
        records.push(alert_record(a));
        sevs.push(owned(a.severity.as_str()));
        rules.push(owned(a.rule_id.as_str()));
        proof {
            assert(strs_v(sevs@) =~= strs_v(ps).push(a.severity@));
            assert(strs_v(rules@) =~= strs_v(pr).push(a.rule_id@));
            assert(alerts@.take(i + 1) =~= alerts@.take(i as int).push(*a));
            assert(severities(alerts@.take(i + 1)) =~= severities(alerts@.take(i as int)).push(a.severity@));
            assert(rule_ids(alerts@.take(i + 1)) =~= rule_ids(alerts@.take(i as int)).push(a.rule_id@));
        }
        i = i + 1;
    }
    proof {
        assert(alerts@.take(i as int) =~= alerts@);
    }
    let by_severity = tally_strs(&sevs);
    let by_rule = tally_strs(&rules);
    Detection { alerts, nodes, edges, records, by_severity, by_rule }
}

} // verus!

use loghound::decimal::{num_text_cmp, NumOp};
use loghound::alerts::build_alert_graph;
use loghound::pipeline::detect;
use loghound::tally::{str_less, tally_strs, tally_u32};
use loghound::dsl::{Expr, ParseError};
use loghound::edge::EdgeType;
use loghound::engine::{dedup_alerts, Alert, CompiledRuleSet, Engine};
use loghound::event::class;
use loghound::event::Event;
use loghound::ids::EventId;
use loghound::node::NodeKind;
use loghound::rules::{Rule, RuleSet, RuleStep, RuleType, RulesError};
use loghound::sigma::{compile_sigma_doc, SigmaDoc, SigmaError, SigmaFieldValue, SigmaScalar, SigmaSelection};
use loghound::time::Timestamp;

// ---------------------------------------------------------------------------
// Rules, written as the YAML loader would hand them over
// ---------------------------------------------------------------------------

fn rule(id: &str, name: &str, rule_type: RuleType, severity: &str) -> Rule {
    Rule {
        id: id.into(),
        name: name.into(),
        rule_type,
        severity: severity.into(),
        class: None,
        description: String::new(),
        mitre_attack: None,
        filter: None,
        threshold: None,
        window: None,
        group_by: None,
        step_1: None,
        step_2: None,
        match_on: None,
    }
}

fn step(class: u32, filter: &str) -> Option<RuleStep> {
    Some(RuleStep { class: Some(class), filter: filter.into() })
}

fn rules() -> RuleSet {
    let mut a = rule("A_PS", "Suspicious PowerShell", RuleType::Atomic, "high");
    a.class = Some(1007);
    a.filter = Some("process.name == 'powershell.exe' AND process.cmd_line CONTAINS '-enc'".into());
    a.description = "encoded powershell".into();
    a.mitre_attack = Some("T1059.001 - PowerShell".into());

    let mut bf = rule("BF", "Brute Force", RuleType::Threshold, "high");
    bf.class = Some(3002);
    bf.filter = Some("status == 'Failure'".into());
    bf.threshold = Some(3);
    bf.window = Some(60);
    bf.group_by = Some("src_endpoint.ip".into());
    bf.mitre_attack = Some("T1110 - Brute Force".into());

    let mut lm = rule("LM", "Lateral Movement", RuleType::Chain, "critical");
    lm.step_1 = step(3002, "auth_protocol == 'Network' AND status == 'Success'");
    lm.step_2 = step(1007, "process.name IN ['cmd.exe', 'powershell.exe']");
    lm.window = Some(30);
    lm.match_on = Some("dst_endpoint.hostname".into());
    lm.mitre_attack = Some("T1021 - Remote Services".into());

    let set = RuleSet { detection_rules: vec![a, bf, lm] };
    set.validate().expect("valid rules");
    set
}

fn engine() -> Engine {
    Engine::from_rules(&rules()).expect("compiles")
}

fn auth(id: u64, ts: i64, ip: &str, status: &str, ap: &str, host: &str) -> Event {
    let mut e = Event::new(class::AUTHENTICATION, Timestamp(ts));
    e.event_id = EventId::new(id);
    e.src_ip = Some(ip.into());
    e.set_field("status", status);
    e.set_field("auth_protocol", ap);
    e.set_field("dst_endpoint.hostname", host);
    e
}

fn proc(id: u64, ts: i64, name: &str, cmd: &str, host: &str) -> Event {
    let mut e = Event::new(class::PROCESS_ACTIVITY, Timestamp(ts));
    e.event_id = EventId::new(id);
    e.process_name = Some(name.into());
    e.set_field("process.cmd_line", cmd);
    e.set_field("dst_endpoint.hostname", host);
    e
}

// ---------------------------------------------------------------------------
// The filter language
// ---------------------------------------------------------------------------

fn ev() -> Event {
    let mut e = Event::new(class::PROCESS_ACTIVITY, Timestamp(1000));
    e.process_name = Some("powershell.exe".into());
    e.set_field("process.cmd_line", "powershell -enc AAA net user");
    e.set_field("status", "Failure");
    e.activity_id = Some(3);
    e.set_field("group.name", "Domain Admins");
    e
}

fn matches(filter: &str, e: &Event) -> bool {
    Expr::parse(filter).expect("parses").eval(e)
}

#[test]
fn equality_and_inequality() {
    let e = ev();
    assert!(matches("process.name == 'powershell.exe'", &e));
    assert!(!matches("process.name == 'cmd.exe'", &e));
    assert!(matches("process.name != 'cmd.exe'", &e));
    // Missing field compares as empty string.
    assert!(matches("missing.field != 'x'", &e));
    assert!(!matches("missing.field == 'x'", &e));
}

#[test]
fn numeric_ops_parse_both_sides() {
    let e = ev();
    assert!(matches("activity_id == 3", &e)); // string-eq of "3"
    assert!(matches("activity_id >= 3", &e));
    assert!(matches("activity_id > 2", &e));
    assert!(!matches("activity_id > 3", &e));
    // Non-numeric field vs numeric op => false.
    assert!(!matches("process.name > 5", &e));
}

#[test]
fn contains_and_in() {
    let e = ev();
    assert!(matches("process.cmd_line CONTAINS 'net user'", &e));
    assert!(!matches("process.cmd_line CONTAINS 'mimikatz'", &e));
    assert!(matches("process.name IN ['cmd.exe', 'powershell.exe']", &e));
    assert!(!matches("process.name IN ['cmd.exe', 'wmic.exe']", &e));
    assert!(matches("group.name IN ['Administrators', 'Domain Admins']", &e));
}

#[test]
fn boolean_precedence_and_parens() {
    let e = ev();
    // AND binds tighter than OR.
    assert!(matches(
        "process.name == 'cmd.exe' OR process.name == 'powershell.exe' AND status == 'Failure'",
        &e
    ));
    // NOT binds tightest.
    assert!(matches("NOT process.name == 'cmd.exe'", &e));
    assert!(!matches("NOT process.name == 'powershell.exe'", &e));
    // Parens override precedence.
    assert!(!matches(
        "(process.name == 'cmd.exe' OR process.name == 'powershell.exe') AND status == 'Success'",
        &e
    ));
}

#[test]
fn regex_operator() {
    let e = ev();
    assert!(matches(r"process.name =~ 'power.*\.exe'", &e));
    assert!(!matches(r"process.name =~ '^cmd'", &e));
}

#[test]
fn real_rules_from_yaml_parse() {
    // A sampling of the exact filter strings shipped in rules.yaml.
    for f in [
        "status == 'Failure'",
        "activity_id == 3 AND status == 'Failure'",
        "process.name IN ['cmd.exe', 'powershell.exe', 'wmic.exe', 'psexec.exe']",
        "process.cmd_line CONTAINS 'net user' OR process.cmd_line CONTAINS 'whoami'",
        "process.name == 'rundll32.exe' AND process.cmd_line CONTAINS 'javascript:'",
        "activity_id == 2 AND group.name IN ['Administrators', 'Domain Admins', 'Enterprise Admins']",
    ] {
        Expr::parse(f).unwrap_or_else(|e| panic!("failed to parse {f:?}: {}", e.message()));
    }
}

#[test]
fn errors_are_reported() {
    assert!(matches!(Expr::parse(""), Err(ParseError::Empty)));
    assert!(Expr::parse("process.name ==").is_err());
    assert!(Expr::parse("(process.name == 'x'").is_err());
    assert!(Expr::parse("process.name =~ '('").is_err()); // bad regex
}

#[test]
fn parse_error_messages_name_the_problem() {
    assert_eq!(Expr::parse("").unwrap_err().message(), "empty filter");
    let bad_regex = Expr::parse("process.name =~ '('").unwrap_err();
    assert!(bad_regex.message().starts_with("invalid regex"));
    assert!(Expr::parse("process.name == 'unterminated").is_err());
}

#[test]
fn numeric_comparison_reads_decimals() {
    let mut e = Event::new(class::NETWORK_ACTIVITY, Timestamp(0));
    e.set_field("bytes", "1.5e3");
    assert!(matches("bytes > 1000", &e));
    assert!(matches("bytes <= 1500", &e));
    assert!(!matches("bytes < 1500", &e));
    assert!(matches("bytes == '1.5e3'", &e));
}

// ---------------------------------------------------------------------------
// The engine
// ---------------------------------------------------------------------------

#[test]
fn atomic_fires_on_match_only() {
    let mut eng = engine();
    let hit = proc(1, 10, "powershell.exe", "powershell -enc AAAA", "H1");
    let miss = proc(2, 11, "powershell.exe", "powershell Get-Process", "H1");
    assert_eq!(eng.process(&hit).len(), 1);
    assert_eq!(eng.process(&miss).len(), 0);
}

#[test]
fn atomic_alert_carries_rule_metadata() {
    let mut eng = engine();
    let fired = eng.process(&proc(7, 10, "powershell.exe", "powershell -enc AAAA", "H1"));
    assert_eq!(fired.len(), 1);
    let a = &fired[0];
    assert_eq!(a.alert_id, "A_PS:-:10");
    assert_eq!(a.mitre.as_deref(), Some("T1059.001 - PowerShell"));
    assert_eq!(a.mitre_id.as_deref(), Some("T1059.001"));
    assert_eq!(a.rule_type_name(), "atomic");
    assert_eq!(a.risk_score(), 75);
    assert_eq!(a.event_ids, vec![7]);
    assert_eq!(a.group_key, None);
}

#[test]
fn threshold_fires_at_count_then_resets() {
    let mut eng = engine();
    // Two failures: no alert yet.
    assert!(eng.process(&auth(1, 1000, "10.0.0.1", "Failure", "Network", "H")).is_empty());
    assert!(eng.process(&auth(2, 2000, "10.0.0.1", "Failure", "Network", "H")).is_empty());
    // Third within window: fires with all 3 events.
    let fired = eng.process(&auth(3, 3000, "10.0.0.1", "Failure", "Network", "H"));
    assert_eq!(fired.len(), 1);
    assert_eq!(fired[0].rule_id, "BF");
    assert_eq!(fired[0].event_ids.len(), 3);
    assert_eq!(fired[0].group_key.as_deref(), Some("10.0.0.1"));
    // Buffer cleared → next failure alone does not re-fire.
    assert!(eng.process(&auth(4, 4000, "10.0.0.1", "Failure", "Network", "H")).is_empty());
}

#[test]
fn threshold_groups_are_independent() {
    let mut eng = engine();
    for i in 0..2 {
        assert!(eng
            .process(&auth(i, 1000 + i as i64, "10.0.0.1", "Failure", "Network", "H"))
            .is_empty());
    }
    // A different IP has its own count.
    assert!(eng.process(&auth(9, 1500, "10.0.0.2", "Failure", "Network", "H")).is_empty());
}

#[test]
fn threshold_window_expiry() {
    let mut eng = engine();
    // Two failures far apart, then two close → only the close ones count.
    assert!(eng.process(&auth(1, 0, "10.0.0.1", "Failure", "Network", "H")).is_empty());
    assert!(eng.process(&auth(2, 100_000, "10.0.0.1", "Failure", "Network", "H")).is_empty()); // >60s later, prunes #1
    assert!(eng.process(&auth(3, 100_500, "10.0.0.1", "Failure", "Network", "H")).is_empty());
    // 3rd in-window failure fires.
    assert_eq!(eng.process(&auth(4, 101_000, "10.0.0.1", "Failure", "Network", "H")).len(), 1);
}

#[test]
fn chain_fires_on_correlated_sequence() {
    let mut eng = engine();
    // Network logon success on host H, then cmd.exe on H within 30s.
    assert!(eng.process(&auth(1, 1000, "10.0.0.9", "Success", "Network", "H")).is_empty());
    let fired = eng.process(&proc(2, 5000, "cmd.exe", "cmd /c whoami", "H"));
    assert_eq!(fired.len(), 1);
    assert_eq!(fired[0].rule_id, "LM");
    assert_eq!(fired[0].event_ids, vec![1, 2]);
    assert_eq!(fired[0].group_key.as_deref(), Some("H"));
}

#[test]
fn chain_requires_matching_correlation() {
    let mut eng = engine();
    // Logon on H, process on a DIFFERENT host → no chain.
    assert!(eng.process(&auth(1, 1000, "10.0.0.9", "Success", "Network", "H")).is_empty());
    assert!(eng.process(&proc(2, 5000, "cmd.exe", "cmd", "OTHER")).is_empty());
}

#[test]
fn chain_respects_window() {
    let mut eng = engine();
    assert!(eng.process(&auth(1, 1000, "10.0.0.9", "Success", "Network", "H")).is_empty());
    // Process arrives 40s later (> 30s window) → no chain.
    assert!(eng.process(&proc(2, 41_000, "cmd.exe", "cmd", "H")).is_empty());
}

#[test]
fn chain_refires_for_each_second_step() {
    let mut eng = engine();
    assert!(eng.process(&auth(1, 1000, "10.0.0.9", "Success", "Network", "H")).is_empty());
    assert_eq!(eng.process(&proc(2, 2000, "cmd.exe", "cmd", "H")).len(), 1);
    // The first step is not consumed: a second process re-fires.
    assert_eq!(eng.process(&proc(3, 3000, "powershell.exe", "powershell", "H")).len(), 1);
}

#[test]
fn run_sorts_by_timestamp() {
    // Supply events out of order; run() should still correlate the chain.
    let mut eng = engine();
    let events = vec![
        proc(2, 5000, "cmd.exe", "cmd", "H"),
        auth(1, 1000, "10.0.0.9", "Success", "Network", "H"),
    ];
    let alerts = dedup_alerts(eng.run(&events));
    assert!(alerts.iter().any(|a| a.rule_id == "LM"));
}

#[test]
fn dedup_keeps_first_of_each_id_in_order() {
    let mut eng = engine();
    let a = eng.process(&proc(1, 10, "powershell.exe", "powershell -enc A", "H"));
    let b = eng.process(&proc(2, 10, "powershell.exe", "powershell -enc B", "H"));
    let c = eng.process(&proc(3, 11, "powershell.exe", "powershell -enc C", "H"));
    let all: Vec<Alert> = a.into_iter().chain(b).chain(c).collect();
    assert_eq!(all.len(), 3);
    let once = dedup_alerts(all);
    assert_eq!(once.len(), 2);
    assert_eq!(once[0].event_ids, vec![1]);
    assert_eq!(once[1].event_ids, vec![3]);
    let twice = dedup_alerts(once.clone());
    assert_eq!(twice.len(), once.len());
}

#[test]
fn compile_reports_missing_fields_and_bad_filters() {
    let bad = RuleSet { detection_rules: vec![rule("X", "x", RuleType::Atomic, "low")] };
    match CompiledRuleSet::compile(&bad) {
        Err(RulesError::Invalid { id, reason }) => {
            assert_eq!(id, "X");
            assert_eq!(reason, "atomic rule requires `filter`");
        }
        _ => panic!("expected an invalid rule"),
    }
    let mut r = rule("Y", "y", RuleType::Atomic, "low");
    r.filter = Some("process.name ==".into());
    let err = Engine::from_rules(&RuleSet { detection_rules: vec![r] }).err().expect("bad filter");
    assert!(err.message().starts_with("rule 'Y' is invalid: bad filter `process.name ==`: "));
    assert_eq!(CompiledRuleSet::compile(&rules()).expect("compiles").len(), 3);
}

// ---------------------------------------------------------------------------
// The rule set
// ---------------------------------------------------------------------------

#[test]
fn parses_each_rule_type() {
    let mut a1 = rule("A1", "atomic", RuleType::Atomic, "high");
    a1.filter = Some("process.name == 'mimikatz.exe'".into());
    let mut t1 = rule("T1", "thresh", RuleType::Threshold, "high");
    t1.filter = Some("status == 'Failure'".into());
    t1.threshold = Some(15);
    t1.window = Some(60);
    t1.group_by = Some("src_endpoint.ip".into());
    let mut c1 = rule("C1", "chain", RuleType::Chain, "critical");
    c1.step_1 = step(3002, "status == 'Success'");
    c1.step_2 = step(1007, "process.name == 'cmd.exe'");
    c1.window = Some(30);
    c1.match_on = Some("dst_endpoint.hostname".into());
    let set = RuleSet { detection_rules: vec![a1, t1, c1] };
    set.validate().expect("valid");
    assert_eq!(set.len(), 3);
    assert_eq!(set.get("T1").unwrap().threshold, Some(15));
    assert_eq!(set.get("C1").unwrap().rule_type, RuleType::Chain);
}

#[test]
fn rejects_threshold_missing_window() {
    let mut bad = rule("BAD", "bad", RuleType::Threshold, "high");
    bad.filter = Some("x == 'y'".into());
    bad.threshold = Some(5);
    let err = RuleSet { detection_rules: vec![bad] }.validate().unwrap_err();
    assert!(matches!(err, RulesError::Invalid { .. }));
    assert_eq!(err.message(), "rule 'BAD' is invalid: threshold rule requires `threshold` and `window`");
}

#[test]
fn chain_rule_needs_both_steps_and_correlation() {
    let mut c = rule("C", "c", RuleType::Chain, "low");
    c.step_1 = step(1, "a == 'b'");
    let e = c.validate().unwrap_err();
    assert_eq!(e.message(), "rule 'C' is invalid: chain rule requires `step_1` and `step_2`");
    c.step_2 = step(1, "a == 'b'");
    c.window = Some(5);
    let e = c.validate().unwrap_err();
    assert_eq!(e.message(), "rule 'C' is invalid: chain rule requires `match_on` and `window`");
    c.match_on = Some("host".into());
    assert!(c.validate().is_ok());
    let set = RuleSet { detection_rules: vec![c] };
    assert!(set.get("C").is_some());
    assert!(set.get("D").is_none());
    assert!(!set.is_empty());
}

// ---------------------------------------------------------------------------
// Sigma
// ---------------------------------------------------------------------------

fn s(x: &str) -> SigmaScalar {
    SigmaScalar::Str(x.into())
}

/// The document of:
///
/// ```yaml
/// title: Encoded PowerShell
/// id: sig-ps-enc
/// level: high
/// tags:
///   - attack.t1059.001
/// detection:
///   selection_img:
///     process.name: 'powershell.exe'
///   selection_flag:
///     process.cmd_line|contains:
///       - '-enc'
///       - '-encodedcommand'
///   condition: selection_img and selection_flag
/// description: Encoded PowerShell command line
/// ```
fn encoded_powershell() -> SigmaDoc {
    SigmaDoc {
        title: Some("Encoded PowerShell".into()),
        id: Some("sig-ps-enc".into()),
        level: Some("high".into()),
        tags: Some(vec!["attack.t1059.001".into()]),
        detection: Some(vec![
            (
                "selection_img".into(),
                SigmaSelection::Fields(vec![("process.name".into(), SigmaFieldValue::One(s("powershell.exe")))]),
            ),
            (
                "selection_flag".into(),
                SigmaSelection::Fields(vec![(
                    "process.cmd_line|contains".into(),
                    SigmaFieldValue::Many(vec![s("-enc"), s("-encodedcommand")]),
                )]),
            ),
            ("condition".into(), SigmaSelection::Scalar(s("selection_img and selection_flag"))),
        ]),
        description: Some("Encoded PowerShell command line".into()),
    }
}

fn sigma_doc(title: &str, detection: Vec<(String, SigmaSelection)>) -> SigmaDoc {
    SigmaDoc { title: Some(title.into()), id: None, level: None, tags: None, detection: Some(detection), description: None }
}

fn names(field: &str, v: &str) -> SigmaSelection {
    SigmaSelection::Fields(vec![(field.into(), SigmaFieldValue::One(s(v)))])
}

#[test]
fn compiles_to_atomic_rule_and_fires() {
    let rule = compile_sigma_doc(&encoded_powershell()).expect("compiles");
    assert_eq!(rule.rule_type, RuleType::Atomic);
    assert_eq!(rule.mitre_attack.as_deref(), Some("T1059.001"));
    assert_eq!(rule.severity, "high");

    // Feed it through the real engine.
    let set = RuleSet { detection_rules: vec![rule] };
    let mut eng = Engine::from_rules(&set).expect("engine");
    let mut hit = Event::new(class::PROCESS_ACTIVITY, Timestamp(1));
    hit.event_id = EventId::new(1);
    hit.process_name = Some("powershell.exe".into());
    hit.set_field("process.cmd_line", "powershell -enc AAAA");
    assert_eq!(eng.process(&hit).len(), 1);

    let mut miss = Event::new(class::PROCESS_ACTIVITY, Timestamp(2));
    miss.event_id = EventId::new(2);
    miss.process_name = Some("powershell.exe".into());
    miss.set_field("process.cmd_line", "powershell Get-Process");
    assert_eq!(eng.process(&miss).len(), 0);
}

#[test]
fn one_of_them_condition() {
    let doc = sigma_doc(
        "Recon Tools",
        vec![
            ("a".into(), names("process.name", "whoami.exe")),
            ("b".into(), names("process.name", "systeminfo.exe")),
            ("condition".into(), SigmaSelection::Scalar(s("1 of them"))),
        ],
    );
    let rule = compile_sigma_doc(&doc).expect("compiles");
    let filter = rule.filter.unwrap();
    assert!(filter.contains(" OR "));
}

#[test]
fn rejects_aggregation_condition() {
    let doc = sigma_doc(
        "Agg",
        vec![
            ("sel".into(), names("process.name", "x.exe")),
            ("condition".into(), SigmaSelection::Scalar(s("sel | count() > 5"))),
        ],
    );
    assert!(compile_sigma_doc(&doc).is_err());
}

#[test]
fn sigma_errors_name_the_missing_part() {
    let mut no_det = sigma_doc("x", vec![]);
    no_det.detection = None;
    assert!(matches!(compile_sigma_doc(&no_det), Err(SigmaError::NoDetection)));
    let no_cond = sigma_doc("x", vec![("sel".into(), names("a", "b"))]);
    assert!(matches!(compile_sigma_doc(&no_cond), Err(SigmaError::NoCondition)));
    let unknown = sigma_doc(
        "x",
        vec![("sel".into(), names("a", "b")), ("condition".into(), SigmaSelection::Scalar(s("other")))],
    );
    match compile_sigma_doc(&unknown) {
        Err(e) => assert_eq!(e.message(), "unknown selection `other` referenced in condition"),
        Ok(_) => panic!("expected an error"),
    }
}

#[test]
fn sigma_condition_forms_compile_to_filters() {
    let doc = sigma_doc(
        "Forms",
        vec![
            ("a".into(), names("process.name", "x.exe")),
            ("b".into(), names("user.name", "bob")),
            ("condition".into(), SigmaSelection::Scalar(s("a and not b"))),
        ],
    );
    let rule = compile_sigma_doc(&doc).expect("compiles");
    let filter = rule.filter.clone().unwrap();
    let mut e = Event::new(class::PROCESS_ACTIVITY, Timestamp(0));
    e.process_name = Some("x.exe".into());
    assert!(Expr::parse(&filter).unwrap().eval(&e));
    e.user_name = Some("bob".into());
    assert!(!Expr::parse(&filter).unwrap().eval(&e));
    assert_eq!(rule.id, "sigma-Forms");
    assert_eq!(rule.name, "Forms");
    assert_eq!(rule.severity, "medium");
}

// ---------------------------------------------------------------------------
// Alerts in the graph
// ---------------------------------------------------------------------------

fn alert() -> Alert {
    Alert {
        alert_id: "BF:10.0.0.9:3000".into(),
        rule_id: "BF".into(),
        rule_name: "Brute Force".into(),
        severity: "high".into(),
        mitre: Some("T1110 - Brute Force".into()),
        mitre_id: Some("T1110".into()),
        description: "brute force".into(),
        rule_type: RuleType::Threshold,
        ts: 3000,
        group_key: Some("10.0.0.9".into()),
        event_ids: vec![1, 2],
    }
}

#[test]
fn alert_links_host_user_ip() {
    let mut e1 = Event::new(class::AUTHENTICATION, Timestamp(1000));
    e1.event_id = EventId::new(1);
    e1.host = Some("DC01".into());
    e1.user_name = Some("alice".into());
    e1.src_ip = Some("10.0.0.9".into());
    let e2 = {
        let mut e = Event::new(class::AUTHENTICATION, Timestamp(2000));
        e.event_id = EventId::new(2);
        e.host = Some("DC01".into()); // same host → folds, no duplicate edge
        e.src_ip = Some("10.0.0.9".into());
        e
    };
    let events = vec![e1, e2];

    let (nodes, edges) = build_alert_graph(&[alert()], &events);
    // 1 alert + host + user + ip = 4 nodes.
    assert_eq!(nodes.iter().filter(|n| n.kind == NodeKind::Alert).count(), 1);
    assert!(nodes.iter().any(|n| n.kind == NodeKind::Host));
    assert!(nodes.iter().any(|n| n.kind == NodeKind::User));
    assert!(nodes.iter().any(|n| n.kind == NodeKind::IpAddress));
    // 3 TRIGGERED edges (host, user, ip), each folded to one despite 2 events.
    assert_eq!(edges.len(), 3);
    assert!(edges.iter().all(|e| e.etype == EdgeType::Triggered));
}

#[test]
fn alert_without_known_events_is_a_lone_node() {
    let (nodes, edges) = build_alert_graph(&[alert()], &[]);
    assert_eq!(nodes.len(), 1);
    assert_eq!(nodes[0].kind, NodeKind::Alert);
    assert!(edges.is_empty());
}

#[test]
fn detection_over_a_batch_dedups_wires_and_tallies() {
    let mut eng = engine();
    let events = vec![
        auth(1, 1000, "10.0.0.9", "Success", "Network", "H"),
        proc(2, 2000, "powershell.exe", "powershell -enc AAA", "H"),
        auth(3, 1500, "10.0.0.1", "Failure", "Network", "H"),
    ];
    let d = detect(&mut eng, &events);
    // The atomic rule and the chain both fire on the PowerShell process.
    assert_eq!(d.alerts.len(), 2);
    assert_eq!(d.records.len(), 2);
    assert_eq!(d.records[0].alert_id, d.alerts[0].alert_id);
    assert_eq!(d.records[0].event_count, d.alerts[0].event_ids.len() as u64);
    let sev: Vec<(&str, usize)> = d.by_severity.iter().map(|(k, n)| (k.as_str(), *n)).collect();
    assert_eq!(sev, vec![("critical", 1), ("high", 1)]);
    let rules: Vec<(&str, usize)> = d.by_rule.iter().map(|(k, n)| (k.as_str(), *n)).collect();
    assert_eq!(rules, vec![("A_PS", 1), ("LM", 1)]);
    assert_eq!(d.nodes.iter().filter(|n| n.kind == NodeKind::Alert).count(), 2);
    assert!(d.edges.iter().all(|e| e.etype == EdgeType::Triggered));
}

#[test]
fn tallies_are_sorted_and_exact() {
    assert_eq!(tally_u32(&vec![5, 1, 5, 3, 1, 5]), vec![(1, 2), (3, 1), (5, 3)]);
    assert!(tally_u32(&vec![]).is_empty());
    let t = tally_strs(&vec!["b".to_string(), "a".to_string(), "b".to_string(), "ab".to_string()]);
    assert_eq!(t, vec![("a".to_string(), 1), ("ab".to_string(), 1), ("b".to_string(), 2)]);
    assert!(str_less("Z", "a"));
    assert!(str_less("", "a"));
    assert!(!str_less("a", "a"));
    assert!(str_less("é", "ê"));
}

#[test]
fn numeric_filters_compare_as_binary64_values() {
    // Beyond 53 bits both round to 2^53.
    assert!(!num_text_cmp(NumOp::Gt, Some("9007199254740993"), "9007199254740992"));
    assert!(num_text_cmp(NumOp::Ge, Some("9007199254740993"), "9007199254740992"));
    // A tie rounds to the even significand.
    assert!(num_text_cmp(NumOp::Gt, Some("9007199254740995"), "9007199254740994"));
    // Past the largest value: infinity.
    assert!(num_text_cmp(NumOp::Ge, Some("1e400"), "inf"));
    assert!(num_text_cmp(NumOp::Ge, Some("1e400"), "1e401"));
    assert!(num_text_cmp(NumOp::Ge, Some("1.7976931348623159e308"), "inf"));
    assert!(!num_text_cmp(NumOp::Gt, Some("1.7976931348623158e308"), "1.7976931348623157e308"));
    assert!(num_text_cmp(NumOp::Lt, Some("1.7976931348623157e308"), "inf"));
    // Below the smallest: zero; the smallest subnormal stays positive.
    assert!(!num_text_cmp(NumOp::Gt, Some("2e-324"), "0"));
    assert!(num_text_cmp(NumOp::Gt, Some("3e-324"), "0"));
    assert!(num_text_cmp(NumOp::Gt, Some("5e-324"), "0"));
    assert!(num_text_cmp(NumOp::Le, Some("4e-324"), "5e-324"));
    // Digits past binary64 precision do not count.
    assert!(!num_text_cmp(NumOp::Lt, Some("0.1"), "0.10000000000000000555"));
    assert!(num_text_cmp(NumOp::Lt, Some("0.1"), "0.2"));
    assert!(num_text_cmp(NumOp::Lt, Some("-2.5"), "-2.4"));
    assert!(!num_text_cmp(NumOp::Lt, Some("-0"), "0"));
    assert!(!num_text_cmp(NumOp::Gt, Some("nan"), "1"));
    assert!(!num_text_cmp(NumOp::Ge, Some("abc"), "1"));
}

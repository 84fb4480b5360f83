use loghound::config::{ConfigError, EventMapping, MappingConfig};
use loghound::pipeline::summarize_parse;
use loghound::pipeline::ingest_records;
use loghound::event::class;
use loghound::normalizer::Normalizer;
use loghound::oplc::{extract_xml_fields, parse_oplc_line};
use loghound::parser::{parse_lines, parse_str, Confidence, OplcParser, Parser};
use loghound::record::{ParseError, RawRecord, RecordKind};
use loghound::strmap::StrMap;
use loghound::time::Timestamp;
use loghound::timestamp::{parse_epoch, parse_epoch_millis, parse_epoch_seconds, parse_iso8601};

const EVENT: &str = "OPLC-acme,1782858033704,192.168.140.13 #1782858369,ACMEHQDB01,192.168.140.13,E,<Event xmlns='http://schemas.microsoft.com/win/2004/08/events/event'><System><Provider Name='Microsoft-Windows-Security-Auditing' Guid='{54849625-5478-4994-a5ba-3e3b0328c30d}'/><EventID>4673</EventID><TimeCreated SystemTime='2026-06-30T22:26:08.7149364Z'/><Execution ProcessID='4' ThreadID='14040'/><Channel>Security</Channel><Computer>ACMEDCDB01.acme.local</Computer><Security/></System><EventData><Data Name='SubjectUserName'>john.doe</Data><Data Name='SubjectDomainName'>acme</Data><Data Name='PrivilegeList'>SeTcbPrivilege</Data><Data Name='ProcessId'>0x3268</Data><Data Name='ProcessName'>C:\\Program Files (x86)\\Microsoft\\Edge\\Application\\msedge.exe</Data></EventData></Event>";
const NET: &str = "OPLC-acme,1782858062494,10.0.9.85 #1782858197,ACMEWEB01,10.0.9.85,N,NETWORK,TCP,10.0.9.85,59145,203.0.113.10,80,3232,svchost.exe";
const PROC: &str = "OPLC-acme,1782857847190,192.168.140.67 #3.4.8,1782858183,ACMEAPP01,192.168.140.67,P,NEW_PROCESS,8856,WmiPrvSE.exe,C:\\Windows\\System32\\wbem\\WmiPrvSE.exe,C:\\Windows\\System32\\wbem,NT AUTHORITY\\NETWORK SERVICE,968,svchost.exe";
const INTEG: &str = "OPLC-acme,1782858058738,192.168.140.28 #1782858394,ACMEPDB01,192.168.140.28,I,FILE_INTEGRITY,,MODIFIED,C:\\Program Files\\ExampleApp\\log\\log.txt,fdc0d5ddfb1e5b70e0d8008c559e3f55";

fn parse(line: &str) -> RawRecord {
    OplcParser::new().parse_line(line, 1).expect("parses")
}

// ---------------------------------------------------------------------------
// Timestamps
// ---------------------------------------------------------------------------

#[test]
fn epoch_seconds_scaled_to_millis() {
    // 1782858197 s -> 1782858197000 ms
    assert_eq!(parse_epoch_seconds("1782858197"), Some(Timestamp(1_782_858_197_000)));
}

#[test]
fn epoch_millis_passthrough() {
    assert_eq!(parse_epoch_millis("1782858062494"), Some(Timestamp(1_782_858_062_494)));
}

#[test]
fn parse_epoch_infers_unit_by_magnitude() {
    assert_eq!(parse_epoch("1782858197"), Some(Timestamp(1_782_858_197_000))); // s
    assert_eq!(parse_epoch("1782858062494"), Some(Timestamp(1_782_858_062_494))); // ms
}

#[test]
fn iso8601_with_100ns_fraction_and_z() {
    // 2026-06-30T22:26:08.7149364Z — the XML TimeCreated from the sample.
    let ts = parse_iso8601("2026-06-30T22:26:08.7149364Z").expect("parses");
    // Sanity: matches the sample's generated_ts (1782858369 s) to the second.
    assert_eq!(ts.secs(), 1_782_858_368);
    // Millisecond precision retained (.714 -> 714 ms).
    assert_eq!(ts.millis(), 1_782_858_368_714);
}

#[test]
fn rejects_garbage() {
    assert_eq!(parse_epoch("not-a-number"), None);
    assert_eq!(parse_iso8601("2026-13-40T99:99:99Z"), None);
}

#[test]
fn epoch_edges_trim_and_overflow() {
    assert_eq!(parse_epoch(" 42 "), Some(Timestamp(42_000)));
    assert_eq!(parse_epoch("999999999999"), Some(Timestamp(999_999_999_999_000)));
    assert_eq!(parse_epoch("1000000000000"), Some(Timestamp(1_000_000_000_000)));
    assert_eq!(parse_epoch("-5"), Some(Timestamp(-5_000)));
    assert_eq!(parse_epoch_seconds("9223372036854775807"), None); // seconds overflow
    assert_eq!(parse_epoch_millis("9223372036854775807"), Some(Timestamp(i64::MAX)));
    assert_eq!(parse_epoch_millis("9223372036854775808"), None);
    assert_eq!(parse_epoch("+7"), Some(Timestamp(7_000)));
    assert_eq!(parse_epoch(""), None);
    assert_eq!(parse_iso8601("1970-01-01T00:00:01+01:00"), Some(Timestamp(-3_599_000)));
}

// ---------------------------------------------------------------------------
// The OPLC parser
// ---------------------------------------------------------------------------

#[test]
fn detects_format() {
    assert_eq!(OplcParser.can_parse(EVENT), Confidence::Yes);
    assert_eq!(OplcParser.can_parse("random text"), Confidence::No);
}

#[test]
fn event_xml_is_schema_aware() {
    let r = parse(EVENT);
    assert_eq!(r.kind, RecordKind::Event);
    assert_eq!(r.get("EventID"), Some("4673"));
    assert_eq!(r.get("SubjectUserName"), Some("john.doe"));
    assert_eq!(r.get("PrivilegeList"), Some("SeTcbPrivilege"));
    assert_eq!(r.get("ProcessId"), Some("0x3268")); // hex PID preserved verbatim
    assert!(r.get("ProcessName").unwrap().ends_with("msedge.exe"));
    assert_eq!(r.get("Provider_Name"), Some("Microsoft-Windows-Security-Auditing"));
    assert_eq!(r.get("Execution_ProcessID"), Some("4"));
    // Host prefers the XML Computer (FQDN), not the envelope hostname.
    assert_eq!(r.host.as_deref(), Some("ACMEDCDB01.acme.local"));
    // Time comes from the XML TimeCreated (.714 ms), not generated_ts.
    assert_eq!(r.ts.millis(), 1_782_858_368_714);
    assert_eq!(r.get("env.tenant"), Some("acme"));
    assert_eq!(r.get("env.hostname"), Some("ACMEHQDB01"));
}

#[test]
fn network_fields() {
    let r = parse(NET);
    assert_eq!(r.kind, RecordKind::Network);
    assert_eq!(r.get("protocol"), Some("TCP"));
    assert_eq!(r.get("src_ip"), Some("10.0.9.85"));
    assert_eq!(r.get("src_port"), Some("59145"));
    assert_eq!(r.get("dst_ip"), Some("203.0.113.10"));
    assert_eq!(r.get("dst_port"), Some("80"));
    assert_eq!(r.get("pid"), Some("3232"));
    assert_eq!(r.get("process"), Some("svchost.exe"));
    assert_eq!(r.host.as_deref(), Some("ACMEWEB01"));
    assert_eq!(r.ts, Timestamp(1_782_858_197_000)); // generated_ts * 1000
}

#[test]
fn process_fields_full() {
    let r = parse(PROC);
    assert_eq!(r.kind, RecordKind::Process);
    assert_eq!(r.get("pid"), Some("8856"));
    assert_eq!(r.get("process"), Some("WmiPrvSE.exe"));
    assert_eq!(r.get("full_path"), Some("C:\\Windows\\System32\\wbem\\WmiPrvSE.exe"));
    assert_eq!(r.get("parent_folder"), Some("C:\\Windows\\System32\\wbem"));
    assert_eq!(r.get("user"), Some("NT AUTHORITY\\NETWORK SERVICE"));
    assert_eq!(r.get("parent_pid"), Some("968"));
    assert_eq!(r.get("parent_process"), Some("svchost.exe"));
    assert_eq!(r.get("env.agent_version"), Some("3.4.8"));
    assert_eq!(r.host.as_deref(), Some("ACMEAPP01"));
}

#[test]
fn process_truncated_arity() {
    let line = "OPLC-acme,1,10.0.0.1 #3.4.8,1782858183,HOST01,10.0.0.1,P,NEW_PROCESS,4242,calc.exe";
    let r = parse(line);
    assert_eq!(r.get("pid"), Some("4242"));
    assert_eq!(r.get("process"), Some("calc.exe"));
    assert_eq!(r.get("full_path"), None); // absent fields dropped, not errored
}

#[test]
fn integrity_fields_with_hash() {
    let r = parse(INTEG);
    assert_eq!(r.kind, RecordKind::Integrity);
    assert_eq!(r.get("action"), Some("MODIFIED"));
    assert_eq!(r.get("file_path"), Some("C:\\Program Files\\ExampleApp\\log\\log.txt"));
    assert_eq!(r.get("hash"), Some("fdc0d5ddfb1e5b70e0d8008c559e3f55"));
    assert_eq!(r.host.as_deref(), Some("ACMEPDB01"));
}

#[test]
fn tolerates_leading_label() {
    let r = parse(&format!("Network - {NET}"));
    assert_eq!(r.kind, RecordKind::Network);
}

#[test]
fn non_oplc_line_errors() {
    let err = OplcParser::new().parse_line("just some text", 7).unwrap_err();
    assert!(matches!(err, ParseError::NotOplc { line: 7 }));
}

#[test]
fn parser_errors_carry_their_line() {
    let unknown = parse_oplc_line("OPLC-acme,1,10.0.0.1 #1782858183,H,10.0.0.1,X,WHAT,1,2", 3).unwrap_err();
    assert!(matches!(unknown, ParseError::UnknownLogset { line: 3, .. }));
    assert_eq!(unknown.line(), 3);
    let bad_xml = parse_oplc_line("OPLC-acme,1,10.0.0.1 #1782858183,H,10.0.0.1,E,<Event><System><EventID>1</Event>", 4)
        .unwrap_err();
    assert!(matches!(bad_xml, ParseError::Xml { line: 4, .. }));
    assert_eq!(OplcParser::new().id(), "oplc");
}

#[test]
fn parse_str_numbers_lines_and_skips_blanks() {
    let text = format!("{NET}\n\njunk\n{INTEG}\n");
    let results = parse_str(&OplcParser::new(), &text);
    assert_eq!(results.len(), 3);
    assert_eq!(results[0].as_ref().unwrap().kind, RecordKind::Network);
    assert!(matches!(results[1], Err(ParseError::NotOplc { line: 3 })));
    assert_eq!(results[2].as_ref().unwrap().kind, RecordKind::Integrity);
}

#[test]
fn xml_fields_from_system_and_event_data() {
    let xml = "<Event><System><EventID>7</EventID><Provider Name='P' x:Guid='g'/></System>\
               <EventData><Data Name='A'> one &amp; two </Data><Data Name='B'/></EventData></Event>";
    let f = extract_xml_fields(xml).expect("fields");
    assert_eq!(f.get("EventID").map(String::as_str), Some("7"));
    assert_eq!(f.get("Provider_Name").map(String::as_str), Some("P"));
    assert_eq!(f.get("Provider_Guid").map(String::as_str), Some("g"));
    assert_eq!(f.get("A").map(String::as_str), Some("one & two"));
    assert_eq!(f.get("B").map(String::as_str), Some(""));
    assert_eq!(extract_xml_fields("<Event/>").unwrap_err(), "no fields extracted from XML");
    assert!(extract_xml_fields("<a>&bogus;</a>").is_err());
}

// ---------------------------------------------------------------------------
// Normalization
// ---------------------------------------------------------------------------

const EVENT_4624: &str = "OPLC-acme,1782858033704,10.0.0.5 #1782858369,DC01,10.0.0.5,E,<Event xmlns='http://schemas.microsoft.com/win/2004/08/events/event'><System><EventID>4624</EventID><TimeCreated SystemTime='2026-06-30T22:26:08.000Z'/><Computer>DC01.corp.local</Computer></System><EventData><Data Name='TargetUserName'>alice</Data><Data Name='TargetDomainName'>CORP</Data><Data Name='IpAddress'>10.0.0.9</Data><Data Name='LogonType'>3</Data></EventData></Event>";
const EVENT_4673: &str = "OPLC-acme,1782858033704,192.168.140.13 #1782858369,ACMEHQDB01,192.168.140.13,E,<Event xmlns='http://schemas.microsoft.com/win/2004/08/events/event'><System><EventID>4673</EventID><Computer>ACMEDCDB01.acme.local</Computer></System><EventData><Data Name='SubjectUserName'>john.doe</Data><Data Name='ProcessId'>0x3268</Data><Data Name='ProcessName'>C:\\Program Files (x86)\\Microsoft\\Edge\\Application\\msedge.exe</Data></EventData></Event>";

/// A `4624` entry in the shape of the shipped mappings: an authentication
/// whose target user, domain, source address and computer land on their OCSF
/// paths.
fn mappings() -> MappingConfig {
    let mut mapping = StrMap::new();
    mapping.insert("TargetUserName".into(), "user.name".into());
    mapping.insert("TargetDomainName".into(), "user.domain".into());
    mapping.insert("IpAddress".into(), "src_endpoint.ip".into());
    mapping.insert("LogonType".into(), "logon_type".into());
    mapping.insert("Computer".into(), "dst_endpoint.hostname".into());
    let cfg = MappingConfig {
        event_mapping: vec![(
            "4624".into(),
            EventMapping { ocsf_class: 3002, description: "Account logon - successful".into(), mapping },
        )],
    };
    cfg.validate().expect("mappings load");
    cfg
}

fn normalizer() -> Normalizer {
    Normalizer::new(mappings())
}

#[test]
fn mapped_event_populates_typed_fields_and_enrichment() {
    let ev = normalizer().normalize(&parse(EVENT_4624));
    assert_eq!(ev.class_uid, class::AUTHENTICATION);
    assert_eq!(ev.event_code, Some(4624));
    assert_eq!(ev.user_name.as_deref(), Some("alice"));
    assert_eq!(ev.src_ip.as_deref(), Some("10.0.0.9"));
    assert_eq!(ev.host.as_deref(), Some("DC01.corp.local"));
    assert_eq!(ev.get("auth_protocol").as_deref(), Some("Network")); // LogonType 3
    assert_eq!(ev.get("dst_endpoint.hostname").as_deref(), Some("DC01.corp.local"));
    // Envelope metadata preserved.
    assert_eq!(ev.extra.get("env.tenant").map(String::as_str), Some("acme"));
}

#[test]
fn auth_enrichment_sets_status_and_activity() {
    // 4624 → successful logon (the fields the detection rules read).
    let ev = normalizer().normalize(&parse(EVENT_4624));
    assert_eq!(ev.get("status").as_deref(), Some("Success"));
    assert_eq!(ev.get("activity_id").as_deref(), Some("1"));
    assert_eq!(ev.get("activity_name").as_deref(), Some("Logon"));
    assert_eq!(ev.status_id, Some(1));
}

#[test]
fn unmapped_event_still_extracted_generically_with_hex_pid() {
    let ev = normalizer().normalize(&parse(EVENT_4673));
    assert_eq!(ev.class_uid, 0); // no specific mapping for 4673
    assert_eq!(ev.event_code, Some(4673));
    assert_eq!(ev.actor_user.as_deref(), Some("john.doe")); // generic SubjectUserName
    assert!(ev.process_name.as_deref().unwrap().ends_with("msedge.exe"));
    assert_eq!(ev.process_pid, Some(0x3268)); // hex 0x3268 -> 12904 decimal
}

#[test]
fn network_maps_to_ocsf() {
    let ev = normalizer().normalize(&parse(NET));
    assert_eq!(ev.class_uid, class::NETWORK_ACTIVITY);
    assert_eq!(ev.src_ip.as_deref(), Some("10.0.9.85"));
    assert_eq!(ev.dst_ip.as_deref(), Some("203.0.113.10"));
    assert_eq!(ev.process_pid, Some(3232));
    assert_eq!(ev.process_name.as_deref(), Some("svchost.exe"));
    assert_eq!(ev.get("dst_endpoint.port").as_deref(), Some("80"));
}

#[test]
fn process_maps_to_ocsf_with_lineage() {
    let ev = normalizer().normalize(&parse(PROC));
    assert_eq!(ev.class_uid, class::PROCESS_ACTIVITY);
    assert_eq!(ev.process_pid, Some(8856));
    assert_eq!(ev.process_name.as_deref(), Some("WmiPrvSE.exe"));
    assert_eq!(ev.parent_pid, Some(968));
    assert_eq!(ev.user_name.as_deref(), Some("NT AUTHORITY\\NETWORK SERVICE"));
    assert_eq!(ev.get("parent_process.name").as_deref(), Some("svchost.exe"));
}

#[test]
fn integrity_maps_to_file_activity() {
    let ev = normalizer().normalize(&parse(INTEG));
    assert_eq!(ev.class_uid, class::FILE_ACTIVITY);
    assert_eq!(ev.get("activity_name").as_deref(), Some("MODIFIED"));
    assert_eq!(ev.get("file.path").as_deref(), Some("C:\\Program Files\\ExampleApp\\log\\log.txt"));
    assert_eq!(ev.get("file.hash_md5").as_deref(), Some("fdc0d5ddfb1e5b70e0d8008c559e3f55"));
}

#[test]
fn parses_inline_yaml() {
    let cfg = mappings();
    let m = cfg.get("4624").expect("4624 present");
    assert_eq!(m.ocsf_class, 3002);
    assert_eq!(m.mapping.get("TargetUserName").unwrap(), "user.name");
    assert!(cfg.get("4625").is_none());
    assert_eq!(cfg.len(), 1);
}

#[test]
fn rejects_empty_mapping() {
    let err = MappingConfig { event_mapping: vec![] }.validate().unwrap_err();
    assert!(matches!(err, ConfigError::Invalid(_)));
}

// ---------------------------------------------------------------------------
// The batch steps of the pipeline
// ---------------------------------------------------------------------------

#[test]
fn parse_error_messages_match_their_display() {
    assert_eq!(ParseError::NotOplc { line: 7 }.message(), "line 7: not an OPLC record");
    assert_eq!(
        ParseError::UnknownLogset { line: 3, logset: "X,\"q\"".into() }.message(),
        "line 3: unknown logset \"X,\\\"q\\\"\""
    );
    assert_eq!(
        ParseError::Payload { line: 12, kind: "network", reason: "too few fields".into() }.message(),
        "line 12: malformed network payload: too few fields"
    );
    assert_eq!(ParseError::Xml { line: 1, reason: "bad".into() }.message(), "line 1: XML error: bad");
    assert_eq!(
        ParseError::Envelope { line: 2, reason: "no marker".into() }.message(),
        "line 2: malformed envelope: no marker"
    );
}

#[test]
fn parse_summary_counts_kinds_classes_and_quotes_errors() {
    let text = format!("{NET}\nbad 1\n{PROC}\nbad 2\n{NET}\nbad 3\nbad 4\nbad 5\nbad 6\n{INTEG}\n");
    let results = parse_str(&OplcParser::new(), &text);
    let s = summarize_parse(&results, &normalizer());
    assert_eq!(s.records, 4);
    assert_eq!(s.errors, 6);
    let kinds: Vec<(&str, usize)> = s.by_kind.iter().map(|(k, n)| (k.as_str(), *n)).collect();
    assert_eq!(kinds, vec![("integrity", 1), ("network", 2), ("process", 1)]);
    assert_eq!(s.by_class, vec![(1001, 1), (1007, 1), (4001, 2)]);
    assert_eq!(s.first_errors.len(), 5);
    assert_eq!(s.first_errors[0], "line 2: not an OPLC record");
    assert_eq!(s.first_errors[4], "line 8: not an OPLC record");
}

#[test]
fn ingest_batch_numbers_events_in_order() {
    let text = format!("{PROC}\njunk\n{NET}\n");
    let results = parse_str(&OplcParser::new(), &text);
    let b = ingest_records(&results, &normalizer(), 41);
    assert_eq!(b.records, 2);
    assert_eq!(b.errors, 1);
    assert_eq!(b.events.len(), 2);
    assert_eq!(b.events[0].event_id.raw(), 41);
    assert_eq!(b.events[1].event_id.raw(), 42);
    assert_eq!(b.events[0].class_uid, class::PROCESS_ACTIVITY);
    assert_eq!(b.by_class, vec![(1007, 1), (4001, 1)]);
}

#[test]
fn mapping_applies_in_key_order_whatever_the_insertion_order() {
    // Two source fields routed to one path: the greater key is applied last
    // and wins, as when the mapping is walked in key order.
    let mut mapping = StrMap::new();
    mapping.insert("TargetUserName".into(), "x.who".into());
    mapping.insert("IpAddress".into(), "x.who".into());
    let cfg = MappingConfig {
        event_mapping: vec![("4624".into(), EventMapping { ocsf_class: 3002, description: String::new(), mapping })],
    };
    let ev = Normalizer::new(cfg).normalize(&parse(EVENT_4624));
    assert_eq!(ev.get("x.who").as_deref(), Some("alice"));
}

#[test]
fn entries_by_key_sorts_the_entries() {
    let mut m = StrMap::new();
    m.insert("b".into(), "2".into());
    m.insert("a".into(), "1".into());
    m.insert("c".into(), "3".into());
    let e = m.entries_by_key();
    let keys: Vec<&str> = e.iter().map(|(k, _)| k.as_str()).collect();
    assert_eq!(keys, vec!["a", "b", "c"]);
    assert_eq!(e[0].1, "1");
}

#[test]
fn unreadable_line_becomes_an_envelope_error_and_parsing_goes_on() {
    let lines: Vec<Result<String, String>> = vec![
        Ok(NET.to_string()),
        Ok("   ".to_string()),
        Err("stream did not contain valid UTF-8".to_string()),
        Ok(PROC.to_string()),
    ];
    let out = parse_lines(&OplcParser::new(), &lines);
    assert_eq!(out.len(), 3);
    assert!(out[0].is_ok());
    match &out[1] {
        Err(e) => {
            assert_eq!(e.line(), 3);
            assert_eq!(e.message(), "line 3: malformed envelope: read error: stream did not contain valid UTF-8");
        }
        Ok(_) => panic!("expected an envelope error"),
    }
    assert!(out[2].is_ok());
}

#[test]
fn mapping_ids_must_ascend() {
    let em = || EventMapping { ocsf_class: 3002, description: String::new(), mapping: StrMap::new() };
    let ok = MappingConfig { event_mapping: vec![("4624".into(), em()), ("4625".into(), em())] };
    assert!(ok.ids_in_order());
    let unsorted = MappingConfig { event_mapping: vec![("4625".into(), em()), ("4624".into(), em())] };
    assert!(!unsorted.ids_in_order());
    let twice = MappingConfig { event_mapping: vec![("4624".into(), em()), ("4624".into(), em())] };
    assert!(!twice.ids_in_order());
    assert!(MappingConfig { event_mapping: vec![] }.ids_in_order());
}

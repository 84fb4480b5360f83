//! [`Normalizer`] — turns a [`RawRecord`] into an OCSF-like [`Event`].
//!
//! Events are mapped with the mapping configuration on top of a small set of
//! generic Windows→OCSF field conventions, so *any* event (even ones without a
//! specific mapping, e.g. 4673) still yields typed user/host/process fields.
//! The three non-Windows logsets (Network/Process/Integrity) use built-in
//! mappings. Anything not mapped is preserved in [`Event::extra`] — never
//! dropped.

use vstd::prelude::*;

use crate::config::{find_mapping, EventMapping, MappingConfig};
use crate::event::{event_v, new_event_v, opt_str, Event, EventV};
use crate::num::{parse_i32, parse_int, parse_int_chars};
use crate::oplc::map_get;
use crate::record::{RawRecord, RecordKind};
use crate::strmap::{key_order, keys_unique, lemma_map_of_index, map_of, pairs_view, StrMap};
use crate::text::{chars_of, occurs_at, owned, slice_of, str_eq, trim, trim_chars};

verus! {

/// The generic Windows-field → OCSF-path conventions applied to every event
/// before its specific mapping (which may refine them).
pub open spec fn generic_fields() -> Seq<(Seq<char>, Seq<char>)> {
    seq![
        ("Computer"@, "host.hostname"@),
        ("TargetUserName"@, "user.name"@),
        ("TargetDomainName"@, "user.domain"@),
        ("TargetUserSid"@, "user.uid"@),
        ("SubjectUserName"@, "actor.user.name"@),
        ("SubjectDomainName"@, "actor.user.domain"@),
        ("SubjectUserSid"@, "actor.user.uid"@),
        ("SubjectLogonId"@, "session.uid"@),
        ("IpAddress"@, "src_endpoint.ip"@),
        ("IpPort"@, "src_endpoint.port"@),
        ("WorkstationName"@, "src_endpoint.hostname"@),
        ("ProcessName"@, "process.name"@),
        ("ProcessId"@, "process.pid"@),
        ("NewProcessName"@, "process.name"@),
        ("NewProcessId"@, "process.pid"@),
        ("CommandLine"@, "process.cmd_line"@),
        ("ParentProcessName"@, "parent_process.name"@),
        ("CreatorProcessId"@, "parent_process.pid"@),
    ]
}

fn generic_pair(i: usize) -> (r: (&'static str, &'static str))
    requires
        i < 18,
    ensures
        (r.0@, r.1@) == generic_fields()[i as int],
{
    match i {
        0 => ("Computer", "host.hostname"),
        1 => ("TargetUserName", "user.name"),
        2 => ("TargetDomainName", "user.domain"),
        3 => ("TargetUserSid", "user.uid"),
        4 => ("SubjectUserName", "actor.user.name"),
        5 => ("SubjectDomainName", "actor.user.domain"),
        6 => ("SubjectUserSid", "actor.user.uid"),
        7 => ("SubjectLogonId", "session.uid"),
        8 => ("IpAddress", "src_endpoint.ip"),
        9 => ("IpPort", "src_endpoint.port"),
        10 => ("WorkstationName", "src_endpoint.hostname"),
        11 => ("ProcessName", "process.name"),
        12 => ("ProcessId", "process.pid"),
        13 => ("NewProcessName", "process.name"),
        14 => ("NewProcessId", "process.pid"),
        15 => ("CommandLine", "process.cmd_line"),
        16 => ("ParentProcessName", "parent_process.name"),
        _ => ("CreatorProcessId", "parent_process.pid"),
    }
}

/// The OCSF auth protocol of a Windows logon type.
pub open spec fn auth_protocol_of(lt: Seq<char>) -> Option<Seq<char>> {
    if lt == "2"@ {
        Some("Interactive"@)
    } else if lt == "3"@ {
        Some("Network"@)
    } else if lt == "4"@ {
        Some("Batch"@)
    } else if lt == "5"@ {
        Some("Service"@)
    } else if lt == "7"@ {
        Some("Unlock"@)
    } else if lt == "8"@ {
        Some("NetworkCleartext"@)
    } else if lt == "9"@ {
        Some("NewCredentials"@)
    } else if lt == "10"@ {
        Some("RemoteInteractive"@)
    } else if lt == "11"@ {
        Some("CachedInteractive"@)
    } else {
        None
    }
}

/// Each Windows logon type maps to its own OCSF auth protocol: 2
/// Interactive, 3 Network, 4 Batch, 5 Service, 7 Unlock, 8
/// NetworkCleartext, 9 NewCredentials, 10 RemoteInteractive, 11
/// CachedInteractive; other texts to none; and no two logon types share a
/// protocol.
pub proof fn law_auth_protocol(a: Seq<char>, b: Seq<char>)
    ensures
        auth_protocol_of("2"@) == Some("Interactive"@),
        auth_protocol_of("3"@) == Some("Network"@),
        auth_protocol_of("4"@) == Some("Batch"@),
        auth_protocol_of("5"@) == Some("Service"@),
        auth_protocol_of("7"@) == Some("Unlock"@),
        auth_protocol_of("8"@) == Some("NetworkCleartext"@),
        auth_protocol_of("9"@) == Some("NewCredentials"@),
        auth_protocol_of("10"@) == Some("RemoteInteractive"@),
        auth_protocol_of("11"@) == Some("CachedInteractive"@),
        auth_protocol_of(a) is Some ==> a == "2"@ || a == "3"@ || a == "4"@ || a == "5"@ || a == "7"@ || a == "8"@
            || a == "9"@ || a == "10"@ || a == "11"@,
        auth_protocol_of(a) is Some && auth_protocol_of(a) == auth_protocol_of(b) ==> a == b,
{
    reveal_strlit("2");
    reveal_strlit("3");
    reveal_strlit("4");
    reveal_strlit("5");
    reveal_strlit("7");
    reveal_strlit("8");
    reveal_strlit("9");
    reveal_strlit("10");
    reveal_strlit("11");
    reveal_strlit("Interactive");
    reveal_strlit("Network");
    reveal_strlit("Batch");
    reveal_strlit("Service");
    reveal_strlit("Unlock");
    reveal_strlit("NetworkCleartext");
    reveal_strlit("NewCredentials");
    reveal_strlit("RemoteInteractive");
    reveal_strlit("CachedInteractive");
    assert("2"@[0] == '2' && "3"@[0] == '3' && "4"@[0] == '4' && "5"@[0] == '5' && "7"@[0] == '7');
    assert("8"@[0] == '8' && "9"@[0] == '9' && "10"@[1] == '0' && "11"@[1] == '1');
    assert("2"@.len() == 1 && "3"@.len() == 1 && "4"@.len() == 1 && "5"@.len() == 1 && "7"@.len() == 1);
    assert("8"@.len() == 1 && "9"@.len() == 1 && "10"@.len() == 2 && "11"@.len() == 2);
    assert("Interactive"@[0] == 'I' && "Network"@.len() == 7 && "Batch"@[0] == 'B' && "Service"@[0] == 'S');
    assert("Unlock"@[0] == 'U' && "NetworkCleartext"@.len() == 16 && "NewCredentials"@.len() == 14);
    assert("RemoteInteractive"@[0] == 'R' && "CachedInteractive"@[0] == 'C' && "Network"@[0] == 'N');
    assert("NetworkCleartext"@[0] == 'N' && "NewCredentials"@[0] == 'N');
}

fn logon_type_to_auth_protocol(lt: &str) -> (r: Option<&'static str>)
    ensures
        match auth_protocol_of(lt@) {
            Some(p) => r matches Some(x) && x@ == p,
            None => r is None,
        },
{
    if str_eq(lt, "2") {
        Some("Interactive")
    } else if str_eq(lt, "3") {
        Some("Network")
    } else if str_eq(lt, "4") {
        Some("Batch")
    } else if str_eq(lt, "5") {
        Some("Service")
    } else if str_eq(lt, "7") {
        Some("Unlock")
    } else if str_eq(lt, "8") {
        Some("NetworkCleartext")
    } else if str_eq(lt, "9") {
        Some("NewCredentials")
    } else if str_eq(lt, "10") {
        Some("RemoteInteractive")
    } else if str_eq(lt, "11") {
        Some("CachedInteractive")
    } else {
        None
    }
}

/// An optional integer narrowed to `i64` (always in range where it comes from
/// an `i64` parse).
pub open spec fn as_i64(o: Option<int>) -> Option<i64> {
    match o {
        Some(v) => Some(v as i64),
        None => None,
    }
}

/// A Windows PID, hex (`0x3268`) or decimal (`8856`), after trimming.
pub open spec fn pid_of(s: Seq<char>) -> Option<i64> {
    let t = trim(s);
    if t.len() >= 2 && (t.take(2) == "0x"@ || t.take(2) == "0X"@) {
        as_i64(parse_int(t.skip(2), 16, i64::MIN as int, i64::MAX as int))
    } else {
        as_i64(parse_int(t, 10, i64::MIN as int, i64::MAX as int))
    }
}

/// Parse a Windows PID that may be hex (`0x3268`, common in Security events) or
/// decimal (`8856`, from process logs) into a canonical decimal value.
fn parse_pid(s: &str) -> (r: Option<i64>)
    ensures
        r == pid_of(s@),
{
    let t = trim_chars(&chars_of(s));
    proof {
        reveal_strlit("0x");
        reveal_strlit("0X");
        assert("0x"@ =~= seq!['0', 'x']);
        assert("0X"@ =~= seq!['0', 'X']);
    }
    if t.len() >= 2 && t[0] == '0' && (t[1] == 'x' || t[1] == 'X') {
        let hex = slice_of(&t, 2, t.len());
        proof {
            assert(hex@ =~= t@.skip(2));
            assert(t@.take(2) =~= seq!['0', t@[1]]);
        }
        parse_int_chars(&hex, 16, i64::MIN, i64::MAX)
    } else {
        proof {
            if t@.len() >= 2 {
                assert(t@.take(2) =~= seq![t@[0], t@[1]]);
            }
        }
        parse_int_chars(&t, 10, i64::MIN, i64::MAX)
    }
}

/// Where an OCSF path lands: a typed hot column when one exists, else
/// `fields`. A PID that does not parse, or a second host name, goes to
/// `fields` as text.
pub open spec fn set_ocsf_v(ev: EventV, path: Seq<char>, value: Seq<char>) -> EventV {
    if path == "user.name"@ {
        EventV { user_name: Some(value), ..ev }
    } else if path == "actor.user.name"@ {
        EventV { actor_user: Some(value), ..ev }
    } else if path == "src_endpoint.ip"@ {
        EventV { src_ip: Some(value), ..ev }
    } else if path == "dst_endpoint.ip"@ {
        EventV { dst_ip: Some(value), ..ev }
    } else if path == "process.name"@ {
        EventV { process_name: Some(value), ..ev }
    } else if path == "process.pid"@ {
        match pid_of(value) {
            Some(p) => EventV { process_pid: Some(p), ..ev },
            None => EventV { fields: ev.fields.insert(path, value), ..ev },
        }
    } else if path == "parent_process.pid"@ {
        match pid_of(value) {
            Some(p) => EventV { parent_pid: Some(p), ..ev },
            None => EventV { fields: ev.fields.insert(path, value), ..ev },
        }
    } else if path == "host.hostname"@ {
        if ev.host is None {
            EventV { host: Some(value), ..ev }
        } else {
            EventV { fields: ev.fields.insert(path, value), ..ev }
        }
    } else {
        EventV { fields: ev.fields.insert(path, value), ..ev }
    }
}

/// Route an OCSF dotted path to a typed hot column when one exists, else stash
/// it in `Event::fields`.
fn set_ocsf(ev: &mut Event, path: &str, value: &str)
    ensures
        event_v(*final(ev)) == set_ocsf_v(event_v(*old(ev)), path@, value@),
{
    if str_eq(path, "user.name") {
        ev.user_name = Some(owned(value));
    } else if str_eq(path, "actor.user.name") {
        ev.actor_user = Some(owned(value));
    } else if str_eq(path, "src_endpoint.ip") {
        ev.src_ip = Some(owned(value));
    } else if str_eq(path, "dst_endpoint.ip") {
        ev.dst_ip = Some(owned(value));
    } else if str_eq(path, "process.name") {
        ev.process_name = Some(owned(value));
    } else if str_eq(path, "process.pid") {
        match parse_pid(value) {
            Some(p) => {
                ev.process_pid = Some(p);
            },
            None => ev.set_field(path, value),
        }
    } else if str_eq(path, "parent_process.pid") {
        match parse_pid(value) {
            Some(p) => {
                ev.parent_pid = Some(p);
            },
            None => ev.set_field(path, value),
        }
    } else if str_eq(path, "host.hostname") {
        if ev.host.is_none() {
            ev.host = Some(owned(value));
        } else {
            ev.set_field(path, value);
        }
    } else {
        ev.set_field(path, value);
    }
}

/// `pairs[..k]` applied in order: each source field present in `rf` is routed
/// to its OCSF path.
pub open spec fn apply_pairs(ev: EventV, rf: Map<Seq<char>, Seq<char>>, pairs: Seq<(Seq<char>, Seq<char>)>, k: int) -> EventV
    decreases k,
{
    if k <= 0 {
        ev
    } else {
        let prev = apply_pairs(ev, rf, pairs, k - 1);
        let (src, path) = pairs[k - 1];
        if rf.contains_key(src) {
            set_ocsf_v(prev, path, rf[src])
        } else {
            prev
        }
    }
}

proof fn lemma_apply_pairs_extra(ev: EventV, rf: Map<Seq<char>, Seq<char>>, pairs: Seq<(Seq<char>, Seq<char>)>, k: int)
    ensures
        apply_pairs(ev, rf, pairs, k).extra == ev.extra,
    decreases k,
{
    if k > 0 {
        lemma_apply_pairs_extra(ev, rf, pairs, k - 1);
    }
}

/// The source fields of `pairs[..k]` present in `rf`, in order.
pub open spec fn consumed_from(rf: Map<Seq<char>, Seq<char>>, pairs: Seq<(Seq<char>, Seq<char>)>, k: int) -> Seq<Seq<char>>
    decreases k,
{
    if k <= 0 {
        Seq::empty()
    } else {
        let prev = consumed_from(rf, pairs, k - 1);
        if rf.contains_key(pairs[k - 1].0) {
            prev.push(pairs[k - 1].0)
        } else {
            prev
        }
    }
}

/// The event-code-driven activity/status/outcome fields the detection rules
/// read, plus share access for network events.
pub open spec fn enrich_v(ev: EventV, rf: Map<Seq<char>, Seq<char>>) -> EventV {
    let e1 = match ev.event_code {
        Some(4624) => EventV {
            activity_id: Some(1),
            status_id: Some(1),
            fields: ev.fields.insert("activity_name"@, "Logon"@).insert("status"@, "Success"@),
            ..ev
        },
        Some(4625) => EventV {
            activity_id: Some(1),
            status_id: Some(2),
            severity_id: Some(2),
            fields: ev.fields.insert("activity_name"@, "Logon"@).insert("status"@, "Failure"@).insert(
                "severity"@,
                "Low"@,
            ),
            ..ev
        },
        Some(4768) => EventV {
            activity_id: Some(3),
            status_id: Some(1),
            fields: ev.fields.insert("activity_name"@, "Authentication Ticket"@).insert("status"@, "Success"@),
            ..ev
        },
        Some(4720) => EventV { activity_id: Some(1), fields: ev.fields.insert("activity_name"@, "Create"@), ..ev },
        Some(4732) => EventV {
            activity_id: Some(2),
            fields: ev.fields.insert("activity_name"@, "Add to Group"@),
            ..ev
        },
        _ => ev,
    };
    if e1.class_uid == 4001 && rf.contains_key("ShareName"@) {
        EventV {
            activity_id: Some(6),
            fields: e1.fields.insert("activity_name"@, "Share Access"@).insert("share_name"@, rf["ShareName"@]),
            ..e1
        }
    } else {
        e1
    }
}

/// An envelope key.
pub open spec fn is_env_key(k: Seq<char>) -> bool {
    occurs_at(k, "env."@, 0)
}

/// The source fields kept in `extra`: envelope metadata, and (unless
/// `env_only`) every field no mapping consumed.
pub open spec fn kept_extra(rf: Map<Seq<char>, Seq<char>>, consumed: Seq<Seq<char>>, env_only: bool) -> Map<Seq<char>, Seq<char>> {
    Map::new(
        |k: Seq<char>| rf.contains_key(k) && (is_env_key(k) || (!env_only && !consumed.contains(k))),
        |k: Seq<char>| rf[k],
    )
}

/// The event a Windows XML record normalizes to.
pub open spec fn normalize_event_spec(cfg: Seq<(String, EventMapping)>, rec: RawRecord) -> EventV {
    let rf = rec.fields@;
    let ev0 = EventV {
        host: opt_str(rec.host),
        raw: Some(rec.raw@),
        event_code: match map_get(rf, "EventID"@) {
            Some(s) => match parse_int(s, 10, i32::MIN as int, i32::MAX as int) {
                Some(v) => Some(v as i32),
                None => None,
            },
            None => None,
        },
        ..new_event_v(0, rec.ts)
    };
    let gen = generic_fields();
    let ev1 = apply_pairs(ev0, rf, gen, gen.len() as int);
    let c1 = seq!["EventID"@] + consumed_from(rf, gen, gen.len() as int);
    let (ev2, c2) = match map_get(rf, "EventID"@) {
        Some(id) => match find_mapping(cfg, id, 0) {
            Some(i) => {
                let m = cfg[i].1;
                let ps = key_order(m.mapping.pairs());
                (
                    apply_pairs(EventV { class_uid: m.ocsf_class, ..ev1 }, rf, ps, ps.len() as int),
                    c1 + consumed_from(rf, ps, ps.len() as int),
                )
            },
            None => (ev1, c1),
        },
        None => (ev1, c1),
    };
    let ev3 = match map_get(rf, "LogonType"@) {
        Some(lt) => match auth_protocol_of(lt) {
            Some(ap) => EventV { fields: ev2.fields.insert("auth_protocol"@, ap), ..ev2 },
            None => ev2,
        },
        None => ev2,
    };
    let ev4 = enrich_v(ev3, rf);
    EventV { extra: kept_extra(rf, c2, false), ..ev4 }
}

/// A field copied from the record to an OCSF path in `fields`, when present.
pub open spec fn copy_field(ev: EventV, rf: Map<Seq<char>, Seq<char>>, src: Seq<char>, path: Seq<char>) -> EventV {
    if rf.contains_key(src) {
        EventV { fields: ev.fields.insert(path, rf[src]), ..ev }
    } else {
        ev
    }
}

/// A record's value as an optional string.
pub open spec fn rget(rf: Map<Seq<char>, Seq<char>>, k: Seq<char>) -> Option<Seq<char>> {
    map_get(rf, k)
}

/// The PID in a record field: unchanged when the field is absent, otherwise
/// its parse (which may be nothing).
pub open spec fn pid_field(old: Option<i64>, rf: Map<Seq<char>, Seq<char>>, k: Seq<char>) -> Option<i64> {
    if rf.contains_key(k) {
        pid_of(rf[k])
    } else {
        old
    }
}

/// A string field taken from the record when present.
pub open spec fn str_field(old: Option<Seq<char>>, rf: Map<Seq<char>, Seq<char>>, k: Seq<char>) -> Option<Seq<char>> {
    if rf.contains_key(k) {
        Some(rf[k])
    } else {
        old
    }
}

/// The event of class `class_uid` at the record's time, with its host and raw
/// text.
pub open spec fn base_event_v(rec: RawRecord, class_uid: u32) -> EventV {
    EventV { host: opt_str(rec.host), raw: Some(rec.raw@), ..new_event_v(class_uid, rec.ts) }
}

/// The event a network record normalizes to.
pub open spec fn normalize_network_spec(rec: RawRecord) -> EventV {
    let rf = rec.fields@;
    let e0 = base_event_v(rec, 4001);
    let e1 = copy_field(e0, rf, "protocol"@, "connection.protocol"@);
    let e2 = EventV { src_ip: str_field(e1.src_ip, rf, "src_ip"@), ..e1 };
    let e3 = copy_field(e2, rf, "src_port"@, "src_endpoint.port"@);
    let e4 = EventV { dst_ip: str_field(e3.dst_ip, rf, "dst_ip"@), ..e3 };
    let e5 = copy_field(e4, rf, "dst_port"@, "dst_endpoint.port"@);
    let e6 = EventV { process_pid: pid_field(e5.process_pid, rf, "pid"@), ..e5 };
    let e7 = EventV { process_name: str_field(e6.process_name, rf, "process"@), ..e6 };
    EventV { extra: kept_extra(rf, Seq::empty(), true), ..e7 }
}

/// The event a process record normalizes to (a launch).
pub open spec fn normalize_process_spec(rec: RawRecord) -> EventV {
    let rf = rec.fields@;
    let e0 = EventV { activity_id: Some(1), ..base_event_v(rec, 1007) };
    let e1 = EventV { process_pid: pid_field(e0.process_pid, rf, "pid"@), ..e0 };
    let e2 = EventV { process_name: str_field(e1.process_name, rf, "process"@), ..e1 };
    let e3 = copy_field(e2, rf, "full_path"@, "process.file.path"@);
    let e4 = copy_field(e3, rf, "parent_folder"@, "process.parent_folder"@);
    let e5 = EventV { user_name: str_field(e4.user_name, rf, "user"@), ..e4 };
    let e6 = EventV { parent_pid: pid_field(e5.parent_pid, rf, "parent_pid"@), ..e5 };
    let e7 = copy_field(e6, rf, "parent_process"@, "parent_process.name"@);
    EventV { extra: kept_extra(rf, Seq::empty(), true), ..e7 }
}

/// The event a file-integrity record normalizes to.
pub open spec fn normalize_integrity_spec(rec: RawRecord) -> EventV {
    let rf = rec.fields@;
    let e0 = base_event_v(rec, 1001);
    let e1 = copy_field(e0, rf, "action"@, "activity_name"@);
    let e2 = copy_field(e1, rf, "file_path"@, "file.path"@);
    let e3 = copy_field(e2, rf, "hash"@, "file.hash_md5"@);
    let e4 = copy_field(e3, rf, "reserved"@, "integrity.reserved"@);
    EventV { extra: kept_extra(rf, Seq::empty(), true), ..e4 }
}

/// The event a record normalizes to.
pub open spec fn normalize_spec(cfg: Seq<(String, EventMapping)>, rec: RawRecord) -> EventV {
    match rec.kind {
        RecordKind::Event => normalize_event_spec(cfg, rec),
        RecordKind::Network => normalize_network_spec(rec),
        RecordKind::Process => normalize_process_spec(rec),
        RecordKind::Integrity => normalize_integrity_spec(rec),
    }
}

/// The views of some strings.
pub open spec fn strs_v(s: Seq<String>) -> Seq<Seq<char>> {
    s.map_values(|x: String| x@)
}

fn contains_str(v: &Vec<String>, k: &str) -> (b: bool)
    ensures
        b == strs_v(v@).contains(k@),
{
    let ghost sv = strs_v(v@);
    let mut i: usize = 0;
    while i < v.len()
        invariant
            i <= v@.len(),
            sv == strs_v(v@),
            forall|j: int| 0 <= j < i ==> sv[j] != k@,
        decreases v@.len() - i,
    {
        if str_eq(v[i].as_str(), k) {
            assert(sv[i as int] == k@);
            return true;
        }
        i = i + 1;
    }
    false
}

fn copy_into_extra(ev: &mut Event, src: &StrMap, consumed: &Vec<String>, env_only: bool)
    requires
        old(ev).extra@ == Map::<Seq<char>, Seq<char>>::empty(),
    ensures
        event_v(*final(ev)) == (EventV { extra: kept_extra(src@, strs_v(consumed@), env_only), ..event_v(*old(ev)) }),
{
    proof {
        use_type_invariant(src);
        reveal_strlit("env.");
    }
    let ghost ps = src.pairs();
    let ghost cv = strs_v(consumed@);
    let ghost target = kept_extra(src@, cv, env_only);
    let env = chars_of("env.");
    let n = src.entry_count();
    let mut i: usize = 0;
    while i < n
        invariant
            i <= n,
            n == ps.len(),
            ps == src.pairs(),
            cv == strs_v(consumed@),
            env@ == "env."@,
            keys_unique(ps),
            src@ == map_of(ps),
            event_v(*ev) == (EventV { extra: ev.extra@, ..event_v(*old(ev)) }),
            forall|k: Seq<char>| #[trigger] ev.extra@.contains_key(k) <==> exists|j: int|
                0 <= j < i && ps[j].0 == k && (is_env_key(k) || (!env_only && !cv.contains(k))),
            forall|k: Seq<char>| #[trigger] ev.extra@.contains_key(k) ==> ev.extra@[k] == src@[k],
        decreases n - i,
    {
        let (k, v) = src.entry(i);
        proof {
            lemma_map_of_index(ps, i as int);
        }
        let kc = chars_of(k.as_str());
        let is_env = crate::text::starts_with(&kc, &env);
        let keep = is_env || (!env_only && !contains_str(consumed, k.as_str()));
        if keep {
            ev.extra.insert(owned(k.as_str()), owned(v.as_str()));
        }
        proof {
            let ki = ps[i as int].0;
            assert forall|x: Seq<char>| #[trigger] ev.extra@.contains_key(x) implies exists|j: int|
                0 <= j < i + 1 && ps[j].0 == x && (is_env_key(x) || (!env_only && !cv.contains(x))) by {
                if keep && x == ki {
                    assert(ps[i as int].0 == x);
                }
            }
            assert forall|x: Seq<char>| (exists|j: int|
                0 <= j < i + 1 && ps[j].0 == x && (is_env_key(x) || (!env_only && !cv.contains(x)))) implies #[trigger] ev.extra@.contains_key(x) by {
                let j = choose|j: int| 0 <= j < i + 1 && ps[j].0 == x && (is_env_key(x) || (!env_only && !cv.contains(x)));
                if j < i {
                }
            }
        }
        i = i + 1;
    }
    proof {
        assert forall|x: Seq<char>| #[trigger] ev.extra@.contains_key(x) == target.contains_key(x) by {
            if ev.extra@.contains_key(x) {
                let j = choose|j: int| 0 <= j < n && ps[j].0 == x && (is_env_key(x) || (!env_only && !cv.contains(x)));
                lemma_map_of_index(ps, j);
            }
            if target.contains_key(x) {
                let j = src.lemma_key_has_entry(x);
                lemma_map_of_index(ps, j);
            }
        }
        assert(ev.extra@ =~= target);
    }
}

fn copy_field_exec(ev: &mut Event, rec: &RawRecord, src: &str, path: &str)
    ensures
        event_v(*final(ev)) == copy_field(event_v(*old(ev)), rec.fields@, src@, path@),
{
    if let Some(v) = rec.get(src) {
        ev.set_field(path, v);
    }
}

fn opt_owned(o: Option<&str>) -> (r: Option<String>)
    ensures
        match o {
            Some(x) => r matches Some(y) && y@ == x@,
            None => r is None,
        },
{
    match o {
        Some(x) => Some(owned(x)),
        None => None,
    }
}

fn base_event(rec: &RawRecord, class_uid: u32) -> (ev: Event)
    ensures
        event_v(ev) == base_event_v(*rec, class_uid),
{
    let mut ev = Event::new(class_uid, rec.ts);
    ev.host = match &rec.host {
        Some(h) => Some(owned(h.as_str())),
        None => None,
    };
    ev.raw = Some(owned(rec.raw.as_str()));
    ev
}

fn normalize_network(rec: &RawRecord) -> (ev: Event)
    ensures
        event_v(ev) == normalize_network_spec(*rec),
{
    let mut ev = base_event(rec, 4001);
    copy_field_exec(&mut ev, rec, "protocol", "connection.protocol");
    if let Some(v) = rec.get("src_ip") {
        ev.src_ip = Some(owned(v));
    }
    copy_field_exec(&mut ev, rec, "src_port", "src_endpoint.port");
    if let Some(v) = rec.get("dst_ip") {
        ev.dst_ip = Some(owned(v));
    }
    copy_field_exec(&mut ev, rec, "dst_port", "dst_endpoint.port");
    if let Some(v) = rec.get("pid") {
        ev.process_pid = parse_pid(v);
    }
    if let Some(v) = rec.get("process") {
        ev.process_name = Some(owned(v));
    }
    let none: Vec<String> = Vec::new();
    proof {
        assert(strs_v(none@) =~= Seq::<Seq<char>>::empty());
    }
    copy_into_extra(&mut ev, &rec.fields, &none, true);
    ev
}

fn normalize_process(rec: &RawRecord) -> (ev: Event)
    ensures
        event_v(ev) == normalize_process_spec(*rec),
{
    let mut ev = base_event(rec, 1007);
    ev.activity_id = Some(1);
    if let Some(v) = rec.get("pid") {
        ev.process_pid = parse_pid(v);
    }
    if let Some(v) = rec.get("process") {
        ev.process_name = Some(owned(v));
    }
    copy_field_exec(&mut ev, rec, "full_path", "process.file.path");
    copy_field_exec(&mut ev, rec, "parent_folder", "process.parent_folder");
    if let Some(v) = rec.get("user") {
        ev.user_name = Some(owned(v));
    }
    if let Some(v) = rec.get("parent_pid") {
        ev.parent_pid = parse_pid(v);
    }
    copy_field_exec(&mut ev, rec, "parent_process", "parent_process.name");
    let none: Vec<String> = Vec::new();
    proof {
        assert(strs_v(none@) =~= Seq::<Seq<char>>::empty());
    }
    copy_into_extra(&mut ev, &rec.fields, &none, true);
    ev
}

fn normalize_integrity(rec: &RawRecord) -> (ev: Event)
    ensures
        event_v(ev) == normalize_integrity_spec(*rec),
{
    let mut ev = base_event(rec, 1001);
    copy_field_exec(&mut ev, rec, "action", "activity_name");
    copy_field_exec(&mut ev, rec, "file_path", "file.path");
    copy_field_exec(&mut ev, rec, "hash", "file.hash_md5");
    copy_field_exec(&mut ev, rec, "reserved", "integrity.reserved");
    let none: Vec<String> = Vec::new();
    proof {
        assert(strs_v(none@) =~= Seq::<Seq<char>>::empty());
    }
    copy_into_extra(&mut ev, &rec.fields, &none, true);
    ev
}

fn apply_generic(ev: &mut Event, rec: &RawRecord, consumed: &mut Vec<String>)
    ensures
        event_v(*final(ev)) == apply_pairs(event_v(*old(ev)), rec.fields@, generic_fields(), 18),
        strs_v(final(consumed)@) == strs_v(old(consumed)@) + consumed_from(rec.fields@, generic_fields(), 18),
{
    let ghost e0 = event_v(*ev);
    let ghost c0 = strs_v(consumed@);
    let ghost rf = rec.fields@;
    let mut i: usize = 0;
    proof {
        assert(c0 + consumed_from(rf, generic_fields(), 0) =~= c0);
    }
    while i < 18
        invariant
            i <= 18,
            rf == rec.fields@,
            event_v(*ev) == apply_pairs(e0, rf, generic_fields(), i as int),
            strs_v(consumed@) == c0 + consumed_from(rf, generic_fields(), i as int),
        decreases 18 - i,
    {
        let (src, path) = generic_pair(i);
        if let Some(v) = rec.get(src) {
            set_ocsf(ev, path, v);
            let ghost before = strs_v(consumed@);
            consumed.push(owned(src));
            proof {
                assert(strs_v(consumed@) =~= before.push(src@));
                assert(c0 + consumed_from(rf, generic_fields(), i + 1) =~= (c0 + consumed_from(rf, generic_fields(), i as int)).push(src@));
            }
        }
        i = i + 1;
    }
}

fn apply_mapping(ev: &mut Event, rec: &RawRecord, es: &Vec<(String, String)>, consumed: &mut Vec<String>)
    ensures
        event_v(*final(ev)) == apply_pairs(event_v(*old(ev)), rec.fields@, pairs_view(es@), es@.len() as int),
        strs_v(final(consumed)@) == strs_v(old(consumed)@) + consumed_from(rec.fields@, pairs_view(es@), es@.len() as int),
{
    let ghost e0 = event_v(*ev);
    let ghost c0 = strs_v(consumed@);
    let ghost rf = rec.fields@;
    let ghost ps = pairs_view(es@);
    let n = es.len();
    let mut i: usize = 0;
    proof {
        assert(c0 + consumed_from(rf, ps, 0) =~= c0);
    }
    while i < n
        invariant
            i <= n,
            n == ps.len(),
            ps == pairs_view(es@),
            rf == rec.fields@,
            event_v(*ev) == apply_pairs(e0, rf, ps, i as int),
            strs_v(consumed@) == c0 + consumed_from(rf, ps, i as int),
        decreases n - i,
    {
        let src = &es[i].0;
        let path = &es[i].1;
        proof {
            assert(ps[i as int] == (src@, path@));
        }
        if let Some(v) = rec.get(src.as_str()) {
            set_ocsf(ev, path.as_str(), v);
            let ghost before = strs_v(consumed@);
            consumed.push(owned(src.as_str()));
            proof {
                assert(strs_v(consumed@) =~= before.push(src@));
                assert(c0 + consumed_from(rf, ps, i + 1) =~= (c0 + consumed_from(rf, ps, i as int)).push(src@));
            }
        }
        i = i + 1;
    }
}

fn enrich_by_event_code(ev: &mut Event, rec: &RawRecord)
    ensures
        event_v(*final(ev)) == enrich_v(event_v(*old(ev)), rec.fields@),
{
    match ev.event_code {
        Some(4624) => {
            ev.activity_id = Some(1);
            ev.set_field("activity_name", "Logon");
            ev.set_field("status", "Success");
            ev.status_id = Some(1);
        },
        Some(4625) => {
            ev.activity_id = Some(1);
            ev.set_field("activity_name", "Logon");
            ev.set_field("status", "Failure");
            ev.status_id = Some(2);
            ev.severity_id = Some(2);
            ev.set_field("severity", "Low");
        },
        Some(4768) => {
            ev.activity_id = Some(3);
            ev.set_field("activity_name", "Authentication Ticket");
            ev.set_field("status", "Success");
            ev.status_id = Some(1);
        },
        Some(4720) => {
            ev.activity_id = Some(1);
            ev.set_field("activity_name", "Create");
        },
        Some(4732) => {
            ev.activity_id = Some(2);
            ev.set_field("activity_name", "Add to Group");
        },
        _ => {},
    }
    if ev.class_uid == 4001 {
        if let Some(share) = rec.get("ShareName") {
            ev.activity_id = Some(6);
            ev.set_field("activity_name", "Share Access");
            ev.set_field("share_name", share);
        }
    }
}

/// Normalizes [`RawRecord`]s into [`Event`]s using the loaded mappings.
pub struct Normalizer {
    mappings: MappingConfig,
}

impl Normalizer {
    /// The event mappings in use.
    pub closed spec fn cfg(&self) -> Seq<(String, EventMapping)> {
        self.mappings.event_mapping@
    }

    /// A normalizer over `mappings`.
    pub fn new(mappings: MappingConfig) -> (n: Normalizer)
        requires
            mappings.wf(),
        ensures
            n.cfg() == mappings.event_mapping@,
            crate::config::ids_ascending(n.cfg()),
    {
        Normalizer { mappings }
    }

    /// Normalize one record. Never fails: unmapped fields are preserved in `extra`.
    pub fn normalize(&self, rec: &RawRecord) -> (ev: Event)
        ensures
            event_v(ev) == normalize_spec(self.cfg(), *rec),
    {
        match rec.kind {
            RecordKind::Event => self.normalize_event(rec),
            RecordKind::Network => normalize_network(rec),
            RecordKind::Process => normalize_process(rec),
            RecordKind::Integrity => normalize_integrity(rec),
        }
    }

    fn normalize_event(&self, rec: &RawRecord) -> (ev: Event)
        ensures
            event_v(ev) == normalize_event_spec(self.cfg(), *rec),
    {
        let mut ev = Event::new(0, rec.ts);
        ev.host = match &rec.host {
            Some(h) => Some(owned(h.as_str())),
            None => None,
        };
        ev.raw = Some(owned(rec.raw.as_str()));
        ev.event_code = match rec.get("EventID") {
            Some(s) => parse_i32(s),
            None => None,
        };
        let mut consumed: Vec<String> = Vec::new();
        consumed.push(owned("EventID"));
        proof {
            assert(strs_v(consumed@) =~= seq!["EventID"@]);
        }
        let ghost e0 = event_v(ev);
        apply_generic(&mut ev, rec, &mut consumed);
        proof {
            lemma_apply_pairs_extra(e0, rec.fields@, generic_fields(), 18);
        }
        if let Some(id) = rec.get("EventID") {
            if let Some(m) = self.mappings.get(id) {
                ev.class_uid = m.ocsf_class;
                let ghost e1 = event_v(ev);
                let es = m.mapping.entries_by_key();
                apply_mapping(&mut ev, rec, &es, &mut consumed);
                proof {
                    lemma_apply_pairs_extra(e1, rec.fields@, pairs_view(es@), es@.len() as int);
                }
            }
        }
        if let Some(lt) = rec.get("LogonType") {
            if let Some(ap) = logon_type_to_auth_protocol(lt) {
                ev.set_field("auth_protocol", ap);
            }
        }
        enrich_by_event_code(&mut ev, rec);
        copy_into_extra(&mut ev, &rec.fields, &consumed, false);
        ev
    }
}

} // verus!


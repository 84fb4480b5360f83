//! The normalized [`Event`]: the OCSF-like record every parser emits.
//!
//! Hot fields are typed columns; the long tail of normalized OCSF leaf fields
//! lives in `fields` (dotted keys such as `"process.cmd_line"`), and anything
//! no mapping claimed is preserved in `extra`.

pub mod class;

use vstd::prelude::*;

use crate::ids::EventId;
use crate::num::{dec_int, i64_to_string};
use crate::strmap::StrMap;
use crate::text::{owned, str_eq};
use crate::time::Timestamp;

verus! {

/// A single normalized telemetry record.
#[derive(Debug, Clone, PartialEq)]
pub struct Event {
    pub event_id: EventId,
    /// OCSF metadata UID; stable per source event.
    pub ocsf_uid: String,
    pub ts: Timestamp,
    pub class_uid: u32,
    pub activity_id: Option<i32>,
    /// Raw source event code (e.g. Windows EventID 4624), when applicable.
    pub event_code: Option<i32>,
    pub host: Option<String>,
    pub src_ip: Option<String>,
    pub dst_ip: Option<String>,
    pub user_name: Option<String>,
    pub actor_user: Option<String>,
    pub process_pid: Option<i64>,
    pub parent_pid: Option<i64>,
    pub process_name: Option<String>,
    pub status_id: Option<i32>,
    pub severity_id: Option<i32>,
    /// Normalized OCSF leaf fields keyed by dotted path.
    pub fields: StrMap,
    /// Source fields no mapping claimed (never dropped).
    pub extra: StrMap,
    /// Original source text.
    pub raw: Option<String>,
}

/// The model of an event: every field by its value, the maps by their
/// contents.
pub struct EventV {
    pub event_id: EventId,
    pub ocsf_uid: Seq<char>,
    pub ts: Timestamp,
    pub class_uid: u32,
    pub activity_id: Option<i32>,
    pub event_code: Option<i32>,
    pub host: Option<Seq<char>>,
    pub src_ip: Option<Seq<char>>,
    pub dst_ip: Option<Seq<char>>,
    pub user_name: Option<Seq<char>>,
    pub actor_user: Option<Seq<char>>,
    pub process_pid: Option<i64>,
    pub parent_pid: Option<i64>,
    pub process_name: Option<Seq<char>>,
    pub status_id: Option<i32>,
    pub severity_id: Option<i32>,
    pub fields: Map<Seq<char>, Seq<char>>,
    pub extra: Map<Seq<char>, Seq<char>>,
    pub raw: Option<Seq<char>>,
}

/// The model of an event.
pub open spec fn event_v(e: Event) -> EventV {
    EventV {
        event_id: e.event_id,
        ocsf_uid: e.ocsf_uid@,
        ts: e.ts,
        class_uid: e.class_uid,
        activity_id: e.activity_id,
        event_code: e.event_code,
        host: opt_str(e.host),
        src_ip: opt_str(e.src_ip),
        dst_ip: opt_str(e.dst_ip),
        user_name: opt_str(e.user_name),
        actor_user: opt_str(e.actor_user),
        process_pid: e.process_pid,
        parent_pid: e.parent_pid,
        process_name: opt_str(e.process_name),
        status_id: e.status_id,
        severity_id: e.severity_id,
        fields: e.fields@,
        extra: e.extra@,
        raw: opt_str(e.raw),
    }
}

/// A fresh event of `class_uid` at `ts`.
pub open spec fn new_event_v(class_uid: u32, ts: Timestamp) -> EventV {
    EventV {
        event_id: EventId(0),
        ocsf_uid: Seq::empty(),
        ts,
        class_uid,
        activity_id: None,
        event_code: None,
        host: None,
        src_ip: None,
        dst_ip: None,
        user_name: None,
        actor_user: None,
        process_pid: None,
        parent_pid: None,
        process_name: None,
        status_id: None,
        severity_id: None,
        fields: Map::empty(),
        extra: Map::empty(),
        raw: None,
    }
}

/// The view of an optional string.
pub open spec fn opt_str(o: Option<String>) -> Option<Seq<char>> {
    match o {
        Some(s) => Some(s@),
        None => None,
    }
}

/// The decimal text of an optional integer.
pub open spec fn opt_dec(o: Option<int>) -> Option<Seq<char>> {
    match o {
        Some(v) => Some(dec_int(v)),
        None => None,
    }
}

/// Widen an optional `i32`.
pub open spec fn opt_i32(o: Option<i32>) -> Option<int> {
    match o {
        Some(v) => Some(v as int),
        None => None,
    }
}

/// Widen an optional `i64`.
pub open spec fn opt_i64(o: Option<i64>) -> Option<int> {
    match o {
        Some(v) => Some(v as int),
        None => None,
    }
}

/// The value of a typed hot column addressed by its canonical dotted path;
/// `None` when `path` names no typed column or the column is unset.
pub open spec fn typed_column(e: Event, path: Seq<char>) -> Option<Seq<char>> {
    if path == "time"@ {
        Some(dec_int(e.ts.0 as int))
    } else if path == "class_uid"@ {
        Some(dec_int(e.class_uid as int))
    } else if path == "activity_id"@ {
        opt_dec(opt_i32(e.activity_id))
    } else if path == "event_code"@ {
        opt_dec(opt_i32(e.event_code))
    } else if path == "host.hostname"@ {
        opt_str(e.host)
    } else if path == "src_endpoint.ip"@ {
        opt_str(e.src_ip)
    } else if path == "dst_endpoint.ip"@ {
        opt_str(e.dst_ip)
    } else if path == "user.name"@ {
        opt_str(e.user_name)
    } else if path == "actor.user.name"@ {
        opt_str(e.actor_user)
    } else if path == "process.pid"@ {
        opt_dec(opt_i64(e.process_pid))
    } else if path == "parent_process.pid"@ {
        opt_dec(opt_i64(e.parent_pid))
    } else if path == "process.name"@ {
        opt_str(e.process_name)
    } else if path == "status_id"@ {
        opt_dec(opt_i32(e.status_id))
    } else if path == "severity_id"@ {
        opt_dec(opt_i32(e.severity_id))
    } else {
        None
    }
}

/// A dotted field path resolved the way the detection DSL does: typed hot
/// columns first, then `fields`, then `extra`.
pub open spec fn event_lookup(e: Event, path: Seq<char>) -> Option<Seq<char>> {
    match typed_column(e, path) {
        Some(v) => Some(v),
        None => if e.fields@.contains_key(path) {
            Some(e.fields@[path])
        } else if e.extra@.contains_key(path) {
            Some(e.extra@[path])
        } else {
            None
        },
    }
}

fn opt_string(o: &Option<String>) -> (r: Option<String>)
    ensures
        opt_str(r) == opt_str(*o),
{
    match o {
        Some(s) => Some(owned(s.as_str())),
        None => None,
    }
}

fn opt_i32_text(o: Option<i32>) -> (r: Option<String>)
    ensures
        opt_str(r) == opt_dec(opt_i32(o)),
{
    match o {
        Some(v) => Some(i64_to_string(v as i64)),
        None => None,
    }
}

fn opt_i64_text(o: Option<i64>) -> (r: Option<String>)
    ensures
        opt_str(r) == opt_dec(opt_i64(o)),
{
    match o {
        Some(v) => Some(i64_to_string(v)),
        None => None,
    }
}

impl Event {
    /// A minimal event of `class_uid` at `ts`; the rest is filled in during
    /// normalization.
    pub fn new(class_uid: u32, ts: Timestamp) -> (e: Event)
        ensures
            event_v(e) == new_event_v(class_uid, ts),
            e.event_id == EventId(0),
            e.ocsf_uid@.len() == 0,
            e.ts == ts,
            e.class_uid == class_uid,
            e.activity_id is None,
            e.event_code is None,
            e.host is None,
            e.src_ip is None,
            e.dst_ip is None,
            e.user_name is None,
            e.actor_user is None,
            e.process_pid is None,
            e.parent_pid is None,
            e.process_name is None,
            e.status_id is None,
            e.severity_id is None,
            e.fields@ == Map::<Seq<char>, Seq<char>>::empty(),
            e.extra@ == Map::<Seq<char>, Seq<char>>::empty(),
            e.raw is None,
    {
        Event {
            event_id: EventId::new(0),
            ocsf_uid: String::new(),
            ts,
            class_uid,
            activity_id: None,
            event_code: None,
            host: None,
            src_ip: None,
            dst_ip: None,
            user_name: None,
            actor_user: None,
            process_pid: None,
            parent_pid: None,
            process_name: None,
            status_id: None,
            severity_id: None,
            fields: StrMap::new(),
            extra: StrMap::new(),
            raw: None,
        }
    }

    fn typed(&self, path: &str) -> (r: Option<String>)
        ensures
            opt_str(r) == typed_column(*self, path@),
    {
        if str_eq(path, "time") {
            Some(i64_to_string(self.ts.0))
        } else if str_eq(path, "class_uid") {
            Some(i64_to_string(self.class_uid as i64))
        } else if str_eq(path, "activity_id") {
            opt_i32_text(self.activity_id)
        } else if str_eq(path, "event_code") {
            opt_i32_text(self.event_code)
        } else if str_eq(path, "host.hostname") {
            opt_string(&self.host)
        } else if str_eq(path, "src_endpoint.ip") {
            opt_string(&self.src_ip)
        } else if str_eq(path, "dst_endpoint.ip") {
            opt_string(&self.dst_ip)
        } else if str_eq(path, "user.name") {
            opt_string(&self.user_name)
        } else if str_eq(path, "actor.user.name") {
            opt_string(&self.actor_user)
        } else if str_eq(path, "process.pid") {
            opt_i64_text(self.process_pid)
        } else if str_eq(path, "parent_process.pid") {
            opt_i64_text(self.parent_pid)
        } else if str_eq(path, "process.name") {
            opt_string(&self.process_name)
        } else if str_eq(path, "status_id") {
            opt_i32_text(self.status_id)
        } else if str_eq(path, "severity_id") {
            opt_i32_text(self.severity_id)
        } else {
            None
        }
    }

    /// Resolve a dotted field path: typed hot columns first, then `fields`,
    /// then `extra`.
    pub fn get(&self, path: &str) -> (r: Option<String>)
        ensures
            opt_str(r) == event_lookup(*self, path@),
    {
        let typed = self.typed(path);
        if typed.is_some() {
            return typed;
        }
        match self.fields.get(path) {
            Some(v) => Some(owned(v.as_str())),
            None => match self.extra.get(path) {
                Some(v) => Some(owned(v.as_str())),
                None => None,
            },
        }
    }

    /// Set a normalized leaf field by dotted path.
    pub fn set_field(&mut self, path: &str, value: &str)
        ensures
            event_v(*final(self)) == (EventV { fields: old(self).fields@.insert(path@, value@), ..event_v(*old(self)) }),
            final(self).fields@ == old(self).fields@.insert(path@, value@),
            final(self).extra == old(self).extra,
            final(self).event_id == old(self).event_id,
            final(self).ocsf_uid == old(self).ocsf_uid,
            final(self).ts == old(self).ts,
            final(self).class_uid == old(self).class_uid,
            final(self).activity_id == old(self).activity_id,
            final(self).event_code == old(self).event_code,
            final(self).host == old(self).host,
            final(self).src_ip == old(self).src_ip,
            final(self).dst_ip == old(self).dst_ip,
            final(self).user_name == old(self).user_name,
            final(self).actor_user == old(self).actor_user,
            final(self).process_pid == old(self).process_pid,
            final(self).parent_pid == old(self).parent_pid,
            final(self).process_name == old(self).process_name,
            final(self).status_id == old(self).status_id,
            final(self).severity_id == old(self).severity_id,
            final(self).raw == old(self).raw,
    {
        self.fields.insert(owned(path), owned(value));
    }
}

} // verus!

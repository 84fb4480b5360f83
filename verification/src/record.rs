//! The common [`RawRecord`] every parser emits, plus [`ParseError`].
//!
//! A `RawRecord` is deliberately schema-agnostic: it carries the decoded source
//! fields as strings plus the best-known event time and host. Only the
//! normalization layer turns it into an OCSF [`crate::event::Event`].

use vstd::prelude::*;

use crate::dsl::{dbg_str, debug_str};
use crate::num::{dec_int, u64_to_string};
use crate::strmap::StrMap;
use crate::text::{concat, concat4, owned};
use crate::time::Timestamp;

verus! {

/// Which OPLC logset a record came from.
#[derive(Debug, Clone, Copy, PartialEq, Eq, Structural)]
pub enum RecordKind {
    /// `logset E` — a Windows Event Log XML record.
    Event,
    /// `logset N` — a network connection record.
    Network,
    /// `logset P` — a process-creation record.
    Process,
    /// `logset I` — a file-integrity record.
    Integrity,
}

/// The name of a record kind.
pub open spec fn kind_text(k: RecordKind) -> Seq<char> {
    match k {
        RecordKind::Event => "event"@,
        RecordKind::Network => "network"@,
        RecordKind::Process => "process"@,
        RecordKind::Integrity => "integrity"@,
    }
}

impl RecordKind {
    /// The kind's stable lowercase name.
    pub fn as_str(self) -> (s: &'static str)
        ensures
            s@ == kind_text(self),
    {
        match self {
            RecordKind::Event => "event",
            RecordKind::Network => "network",
            RecordKind::Process => "process",
            RecordKind::Integrity => "integrity",
        }
    }
}

/// A decoded-but-not-yet-normalized log record.
#[derive(Debug, Clone)]
pub struct RawRecord {
    pub kind: RecordKind,
    /// Best event time: XML `TimeCreated` for events, else `generated_ts`×1000.
    pub ts: Timestamp,
    /// Best host: XML `Computer` (FQDN) for events, else the envelope hostname.
    pub host: Option<String>,
    /// Source IP from the envelope.
    pub source_ip: Option<String>,
    /// Decoded fields as strings.
    ///
    /// - Events use the raw Windows names (`EventID`, `Computer`, `TargetUserName`,
    ///   `ProcessName`, …) plus `Tag_Attr` keys for attribute-bearing System
    ///   elements (`TimeCreated_SystemTime`).
    /// - N/P/I use descriptive keys (`protocol`, `src_ip`, `pid`, `process`, …).
    /// - Envelope metadata is under `env.*` (`env.tenant`, `env.collector_ts_ms`,
    ///   `env.agent_version`, …) so normalization can route it to `Event::extra`.
    pub fields: StrMap,
    /// The original source line (kept for provenance / `Event::raw`).
    pub raw: String,
}

/// The fields after a `put`: an empty value is ignored.
pub open spec fn put_spec(m: Map<Seq<char>, Seq<char>>, key: Seq<char>, value: Seq<char>) -> Map<Seq<char>, Seq<char>> {
    if value.len() == 0 {
        m
    } else {
        m.insert(key, value)
    }
}

impl RawRecord {
    /// A record with no host, source address or fields yet.
    pub fn new(kind: RecordKind, ts: Timestamp, raw: &str) -> (r: RawRecord)
        ensures
            r.kind == kind,
            r.ts == ts,
            r.host is None,
            r.source_ip is None,
            r.fields@ == Map::<Seq<char>, Seq<char>>::empty(),
            r.raw@ == raw@,
    {
        RawRecord { kind, ts, host: None, source_ip: None, fields: StrMap::new(), raw: owned(raw) }
    }

    /// Insert a field, ignoring empty values (keeps the map tidy).
    pub fn put(&mut self, key: &str, value: &str)
        ensures
            final(self).fields@ == put_spec(old(self).fields@, key@, value@),
            final(self).kind == old(self).kind,
            final(self).ts == old(self).ts,
            final(self).host == old(self).host,
            final(self).source_ip == old(self).source_ip,
            final(self).raw == old(self).raw,
    {
        if !value.is_empty() {
            self.fields.insert(owned(key), owned(value));
        }
    }

    /// The value of a field.
    pub fn get(&self, key: &str) -> (r: Option<&str>)
        ensures
            r is Some == self.fields@.contains_key(key@),
            r matches Some(v) ==> v@ == self.fields@[key@],
    {
        match self.fields.get(key) {
            Some(v) => Some(v.as_str()),
            None => None,
        }
    }
}

/// A per-record parse failure; one bad line never kills the stream.
#[derive(Debug)]
pub enum ParseError {
    NotOplc { line: usize },
    Envelope { line: usize, reason: String },
    UnknownLogset { line: usize, logset: String },
    Payload { line: usize, kind: &'static str, reason: String },
    Xml { line: usize, reason: String },
}

impl ParseError {
    /// The 1-based source line this error refers to.
    pub fn line(&self) -> (n: usize)
        ensures
            n == match *self {
                ParseError::NotOplc { line } => line,
                ParseError::Envelope { line, .. } => line,
                ParseError::UnknownLogset { line, .. } => line,
                ParseError::Payload { line, .. } => line,
                ParseError::Xml { line, .. } => line,
            },
    {
        match self {
            ParseError::NotOplc { line } => *line,
            ParseError::Envelope { line, .. } => *line,
            ParseError::UnknownLogset { line, .. } => *line,
            ParseError::Payload { line, .. } => *line,
            ParseError::Xml { line, .. } => *line,
        }
    }
}


/// The message of a parse error, as its `Display` writes it.
pub open spec fn parse_error_text(e: ParseError) -> Seq<char> {
    match e {
        ParseError::NotOplc { line } => "line "@ + dec_int(line as int) + ": not an OPLC record"@,
        ParseError::Envelope { line, reason } => "line "@ + dec_int(line as int) + ": malformed envelope: "@
            + reason@,
        ParseError::UnknownLogset { line, logset } => "line "@ + dec_int(line as int) + ": unknown logset "@
            + dbg_str(logset@),
        ParseError::Payload { line, kind, reason } => "line "@ + dec_int(line as int) + ": malformed "@
            + kind@ + " payload: "@ + reason@,
        ParseError::Xml { line, reason } => "line "@ + dec_int(line as int) + ": XML error: "@ + reason@,
    }
}

impl ParseError {
    /// The error's message: `line N: ...`.
    pub fn message(&self) -> (r: String)
        ensures
            r@ == parse_error_text(*self),
    {
        let line = self.line();
        let n = u64_to_string(line as u64);
        let head = concat("line ", n.as_str());
        let text = match self {
            ParseError::NotOplc { .. } => concat(head.as_str(), ": not an OPLC record"),
            ParseError::Envelope { reason, .. } => concat4(head.as_str(), ": malformed envelope: ", reason.as_str(), ""),
            ParseError::UnknownLogset { logset, .. } => {
                let d = debug_str(logset.as_str());
                concat4(head.as_str(), ": unknown logset ", d.as_str(), "")
            },
            ParseError::Payload { kind, reason, .. } => {
                let k = concat4(head.as_str(), ": malformed ", kind, " payload: ");
                concat(k.as_str(), reason.as_str())
            },
            ParseError::Xml { reason, .. } => concat4(head.as_str(), ": XML error: ", reason.as_str(), ""),
        };
        proof {
            reveal_strlit("");
            assert(text@ =~= parse_error_text(*self));
        }
        text
    }
}

} // verus!

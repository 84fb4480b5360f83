//! Canonical identity-key construction per entity kind.
//!
//! The keys chosen here are what make dedup and PID-reuse handling correct:
//! a [`process_key`] embeds the launch time so a reused PID becomes a distinct
//! process node, while a [`user_key`] prefers the stable SID.

use vstd::prelude::*;

use crate::num::{dec_int, i64_to_string, lemma_dec_int_injective};
use crate::text::{chars_of, concat, concat4, owned, slice_of, str_eq, string_from, to_lowercase, trim, trim_str, unicode_lower};

verus! {

/// A canonical hostname: trimmed, then lowercased.
pub open spec fn host_key_of(h: Seq<char>) -> Seq<char> {
    unicode_lower(trim(h))
}

/// Canonicalize a hostname (case-insensitive; trims). FQDN or NetBIOS as given.
pub fn host_key(host: &str) -> (r: String)
    ensures
        r@ == host_key_of(host@),
{
    let t = trim_str(host);
    to_lowercase(t.as_str())
}

/// A value that counts as absent: empty or `-` once trimmed.
pub open spec fn absent(s: Seq<char>) -> bool {
    trim(s).len() == 0 || trim(s) == "-"@
}

/// The user identity: the SID when present, else `domain\name`, else `name`
/// (each trimmed and lowercased).
pub open spec fn user_key_of(name: Seq<char>, domain: Option<Seq<char>>, sid: Option<Seq<char>>) -> Seq<char> {
    if sid matches Some(s) && !absent(s) {
        unicode_lower(trim(sid->0))
    } else {
        let n = unicode_lower(trim(name));
        if domain matches Some(d) && !absent(d) {
            unicode_lower(trim(domain->0)) + "\\"@ + n
        } else {
            n
        }
    }
}

fn present(s: &str) -> (r: Option<String>)
    ensures
        match r {
            Some(t) => !absent(s@) && t@ == trim(s@),
            None => absent(s@),
        },
{
    let t = trim_str(s);
    if t.as_str().is_empty() || str_eq(t.as_str(), "-") {
        None
    } else {
        Some(t)
    }
}

/// User identity: SID when present (stable across renames), else `domain\name`,
/// else bare `name`. Treats `-` and empty as absent.
pub fn user_key(name: &str, domain: Option<&str>, sid: Option<&str>) -> (r: String)
    ensures
        r@ == user_key_of(
            name@,
            match domain {
                Some(d) => Some(d@),
                None => None,
            },
            match sid {
                Some(s) => Some(s@),
                None => None,
            },
        ),
{
    if let Some(s) = sid {
        if let Some(t) = present(s) {
            return to_lowercase(t.as_str());
        }
    }
    let nt = trim_str(name);
    let n = to_lowercase(nt.as_str());
    if let Some(d) = domain {
        if let Some(t) = present(d) {
            let dl = to_lowercase(t.as_str());
            let head = concat(dl.as_str(), "\\");
            return concat(head.as_str(), n.as_str());
        }
    }
    n
}

/// The process-instance identity `host:pid:start_ms`.
pub open spec fn process_key_of(host: Seq<char>, pid: i64, start_ms: i64) -> Seq<char> {
    host_key_of(host) + ":"@ + dec_int(pid as int) + ":"@ + dec_int(start_ms as int)
}

/// Process *instance* identity: `host:pid:start_ms`. Embedding the start time is
/// what disambiguates PID reuse.
pub fn process_key(host: &str, pid: i64, start_ms: i64) -> (r: String)
    ensures
        r@ == process_key_of(host@, pid, start_ms),
{
    let hk = host_key(host);
    let p = i64_to_string(pid);
    let s = i64_to_string(start_ms);
    let head = concat4(hk.as_str(), ":", p.as_str(), ":");
    concat(head.as_str(), s.as_str())
}

/// Two launches of one PID on one host at different times are distinct
/// process instances.
pub proof fn law_process_key_distinguishes_starts(host: Seq<char>, pid: i64, s1: i64, s2: i64)
    requires
        s1 != s2,
    ensures
        process_key_of(host, pid, s1) != process_key_of(host, pid, s2),
{
    let pre = host_key_of(host) + ":"@ + dec_int(pid as int) + ":"@;
    if process_key_of(host, pid, s1) == process_key_of(host, pid, s2) {
        let a = process_key_of(host, pid, s1);
        assert(a.subrange(pre.len() as int, a.len() as int) =~= dec_int(s1 as int));
        assert(a.subrange(pre.len() as int, a.len() as int) =~= dec_int(s2 as int));
        lemma_dec_int_injective(s1 as int, s2 as int);
    }
}

/// The executable identity: the image path (or name), trimmed and lowercased.
pub open spec fn executable_key_of(p: Seq<char>) -> Seq<char> {
    unicode_lower(trim(p))
}

/// Executable (binary on disk) identity: normalized image path, else name.
pub fn executable_key(path_or_name: &str) -> (r: String)
    ensures
        r@ == executable_key_of(path_or_name@),
{
    let t = trim_str(path_or_name);
    to_lowercase(t.as_str())
}

/// The logon-session identity `host:logon_id`.
pub open spec fn session_key_of(host: Seq<char>, logon_id: Seq<char>) -> Seq<char> {
    host_key_of(host) + ":"@ + trim(logon_id)
}

/// Logon session identity: `host:logon_id`.
pub fn session_key(host: &str, logon_id: &str) -> (r: String)
    ensures
        r@ == session_key_of(host@, logon_id@),
{
    let hk = host_key(host);
    let l = trim_str(logon_id);
    let head = concat(hk.as_str(), ":");
    concat(head.as_str(), l.as_str())
}

/// The file identity `host:normalized_path`.
pub open spec fn file_key_of(host: Seq<char>, path: Seq<char>) -> Seq<char> {
    host_key_of(host) + ":"@ + unicode_lower(trim(path))
}

/// File identity: `host:normalized_path`.
pub fn file_key(host: &str, path: &str) -> (r: String)
    ensures
        r@ == file_key_of(host@, path@),
{
    let hk = host_key(host);
    let pt = trim_str(path);
    let pl = to_lowercase(pt.as_str());
    let head = concat(hk.as_str(), ":");
    concat(head.as_str(), pl.as_str())
}

/// A path separator, Windows or Unix.
pub open spec fn is_sep(c: char) -> bool {
    c == '\\' || c == '/'
}

/// Where the last path component of `p[..i]` starts.
pub open spec fn tail_start(p: Seq<char>, i: int) -> int
    decreases i,
{
    if i <= 0 {
        0
    } else if is_sep(p[i - 1]) {
        i
    } else {
        tail_start(p, i - 1)
    }
}

/// The trailing path component: what follows the last separator.
pub open spec fn basename_of(p: Seq<char>) -> Seq<char> {
    p.subrange(tail_start(p, p.len() as int), p.len() as int)
}

/// The trailing path component (handles both `\` and `/` separators).
pub fn basename(path: &str) -> (r: String)
    ensures
        r@ == basename_of(path@),
{
    let cs = chars_of(path);
    let mut i = cs.len();
    while i > 0 && cs[i - 1] != '\\' && cs[i - 1] != '/'
        invariant
            i <= cs@.len(),
            tail_start(cs@, cs@.len() as int) == tail_start(cs@, i as int),
        decreases i,
    {
        i = i - 1;
    }
    proof {
        lemma_tail_start_bound(cs@, i as int);
    }
    let t = slice_of(&cs, i, cs.len());
    string_from(&t)
}

proof fn lemma_tail_start_bound(p: Seq<char>, i: int)
    requires
        0 <= i <= p.len(),
    ensures
        0 <= tail_start(p, i) <= i,
    decreases i,
{
    if i > 0 && !is_sep(p[i - 1]) {
        lemma_tail_start_bound(p, i - 1);
    }
}

} // verus!

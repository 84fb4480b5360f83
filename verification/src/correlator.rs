//! [`Correlator`] — joins normalized events across log types into the temporal
//! graph.
//!
//! Correlation is two-pass over a batch: pass 1 ([`Correlator::register`])
//! learns each host's own IP so pass 2 ([`Correlator::correlate`]) can attribute
//! remote logons to a source host (cross-host lateral movement) regardless of
//! event ordering. Process instances are keyed `host:pid:start`, so a reused PID
//! yields a fresh node; a live `(host, pid)` table tracks the current instance
//! for attributing later network/child events, and is overwritten on relaunch.

use vstd::prelude::*;

use crate::builder::{b_edge, b_node, b_set_prop, sorted_edges, sorted_nodes, BuilderV, GraphBuilder};
use crate::edge::{Edge, EdgeType};
use crate::event::{event_lookup, opt_str, Event};
use crate::ids::NodeId;
use crate::identity::{
    basename, basename_of, executable_key, executable_key_of, file_key, file_key_of, host_key,
    host_key_of, process_key, process_key_of, session_key, session_key_of, user_key, user_key_of,
};
use crate::node::{Node, NodeKind};
use crate::num::{dec_int, i64_to_string};
use crate::strmap::StrMap;
use crate::text::{ascii_upper, ascii_upper_char, chars_of, concat, concat4, owned, slice_of, str_eq, string_from};
use crate::time::Timestamp;

verus! {

// ---------------------------------------------------------------------------
// The model
// ---------------------------------------------------------------------------

/// A live process instance: host key, pid, node.
pub struct LiveV {
    pub host: Seq<char>,
    pub pid: i64,
    pub node: NodeId,
}

/// The model of a correlator: the graph so far, the live process table, and
/// the endpoint-address → host-key map.
pub struct CorrV {
    pub b: BuilderV,
    pub live: Seq<LiveV>,
    pub addr: Map<Seq<char>, Seq<char>>,
}

/// The value under `k`, if any.
pub open spec fn map_get(m: Map<Seq<char>, Seq<char>>, k: Seq<char>) -> Option<Seq<char>> {
    if m.contains_key(k) {
        Some(m[k])
    } else {
        None
    }
}

/// A value that is present and not empty.
pub open spec fn nonempty(o: Option<Seq<char>>) -> Option<Seq<char>> {
    match o {
        Some(s) => if s.len() > 0 {
            Some(s)
        } else {
            None
        },
        None => None,
    }
}

/// The first entry at or after `i` for `(host, pid)` (`live.len()` if none).
pub open spec fn live_find(live: Seq<LiveV>, host: Seq<char>, pid: i64, i: int) -> int
    decreases live.len() - i,
{
    if i < 0 || i >= live.len() {
        live.len() as int
    } else if live[i].host == host && live[i].pid == pid {
        i
    } else {
        live_find(live, host, pid, i + 1)
    }
}

/// The live instance of `(host, pid)`, if any.
pub open spec fn live_get(live: Seq<LiveV>, host: Seq<char>, pid: i64) -> Option<NodeId> {
    let i = live_find(live, host, pid, 0);
    if i < live.len() {
        Some(live[i].node)
    } else {
        None
    }
}

/// `(host, pid)` now runs `node`.
pub open spec fn live_put(live: Seq<LiveV>, host: Seq<char>, pid: i64, node: NodeId) -> Seq<LiveV> {
    let i = live_find(live, host, pid, 0);
    if i < live.len() {
        live.update(i, LiveV { host, pid, node })
    } else {
        live.push(LiveV { host, pid, node })
    }
}

/// An event's own source address (`env.source_ip` in its unclaimed fields).
pub open spec fn own_ip(ev: Event) -> Option<Seq<char>> {
    map_get(ev.extra@, "env.source_ip"@)
}

/// Pass 1 on one event: learn `own address → host key`.
pub open spec fn register_spec(c: CorrV, ev: Event) -> CorrV {
    match (opt_str(ev.host), own_ip(ev)) {
        (Some(h), Some(ip)) => if ip.len() > 0 {
            CorrV { b: c.b, live: c.live, addr: c.addr.insert(ip, host_key_of(h)) }
        } else {
            c
        },
        _ => c,
    }
}

/// The host node of an event: the graph with it, its id and the host key.
pub open spec fn host_node_spec(b: BuilderV, ev: Event) -> Option<(BuilderV, NodeId, Seq<char>)> {
    match opt_str(ev.host) {
        None => None,
        Some(h) => {
            let hk = host_key_of(h);
            let (b2, id) = b_node(b, NodeKind::Host, hk, h, ev.ts.0);
            Some((b2, id, hk))
        },
    }
}

/// The (target or acting) user node of an event.
pub open spec fn user_node_spec(b: BuilderV, ev: Event, actor: bool) -> Option<(BuilderV, NodeId)> {
    let name = if actor {
        opt_str(ev.actor_user)
    } else {
        opt_str(ev.user_name)
    };
    match name {
        None => None,
        Some(n) => {
            let domain = event_lookup(ev, if actor { "actor.user.domain"@ } else { "user.domain"@ });
            let sid = event_lookup(ev, if actor { "actor.user.uid"@ } else { "user.uid"@ });
            let (b2, id) = b_node(b, NodeKind::User, user_key_of(n, domain, sid), n, ev.ts.0);
            Some((b2, id))
        },
    }
}

/// The executable node of a process image and its `EXECUTED` edge.
pub open spec fn link_exec_spec(b: BuilderV, proc_id: NodeId, path_or_name: Seq<char>, ts: i64) -> BuilderV {
    let (b1, exe) = b_node(b, NodeKind::Executable, executable_key_of(path_or_name), basename_of(path_or_name), ts);
    b_edge(b1, exe, proc_id, EdgeType::Executed, ts).0
}

/// A value or a default.
pub open spec fn or_default(o: Option<Seq<char>>, d: Seq<char>) -> Seq<char> {
    match o {
        Some(s) => s,
        None => d,
    }
}

/// The command-line node of a process (labelled by its first 120 characters).
pub open spec fn cmd_spec(b: BuilderV, ev: Event, proc_id: NodeId) -> BuilderV {
    match nonempty(event_lookup(ev, "process.cmd_line"@)) {
        Some(cmd) => {
            let label = if cmd.len() > 120 {
                cmd.take(120)
            } else {
                cmd
            };
            let (b1, c) = b_node(b, NodeKind::CommandLine, cmd, label, ev.ts.0);
            b_edge(b1, proc_id, c, EdgeType::Used, ev.ts.0).0
        },
        None => b,
    }
}

/// The synthetic key of a process known only by `host:pid` and a tag.
pub open spec fn tagged_key(hk: Seq<char>, pid: i64, tag: Seq<char>) -> Seq<char> {
    hk + ":"@ + dec_int(pid as int) + ":"@ + tag
}

/// The parent → child edge (to the live parent, or a placeholder).
pub open spec fn parent_spec(b: BuilderV, live: Seq<LiveV>, ev: Event, hk: Seq<char>, proc_id: NodeId) -> BuilderV {
    match ev.parent_pid {
        None => b,
        Some(ppid) => {
            let (b1, parent_id) = match live_get(live, hk, ppid) {
                Some(p) => (b, p),
                None => b_node(
                    b,
                    NodeKind::Process,
                    tagged_key(hk, ppid, "?"@),
                    or_default(event_lookup(ev, "parent_process.name"@), "unknown"@),
                    ev.ts.0,
                ),
            };
            b_edge(b1, parent_id, proc_id, EdgeType::Spawned, ev.ts.0).0
        },
    }
}

/// The logon-session node that owns a process.
pub open spec fn session_spec(b: BuilderV, ev: Event, hk: Seq<char>, host_id: NodeId, proc_id: NodeId) -> BuilderV {
    match nonempty(event_lookup(ev, "session.uid"@)) {
        Some(sid) => if sid == "0x0"@ {
            b
        } else {
            let ts = ev.ts.0;
            let (b1, s) = b_node(b, NodeKind::LogonSession, session_key_of(hk, sid), "session "@ + sid, ts);
            let (b2, _) = b_edge(b1, s, proc_id, EdgeType::Owns, ts);
            b_edge(b2, s, host_id, EdgeType::BelongsTo, ts).0
        },
        None => b,
    }
}

/// A process launch.
pub open spec fn process_spec(c: CorrV, ev: Event) -> CorrV {
    match host_node_spec(c.b, ev) {
        None => c,
        Some((b1, host_id, hk)) => match ev.process_pid {
            None => CorrV { b: b1, live: c.live, addr: c.addr },
            Some(pid) => {
                let ts = ev.ts.0;
                let name = or_default(opt_str(ev.process_name), "process"@);
                let (b2, proc_id) = b_node(b1, NodeKind::Process, process_key_of(hk, pid, ts), name, ts);
                let live2 = live_put(c.live, hk, pid, proc_id);
                let (b3, _) = b_edge(b2, host_id, proc_id, EdgeType::Started, ts);
                let b4 = link_exec_spec(b3, proc_id, or_default(nonempty(event_lookup(ev, "process.file.path"@)), name), ts);
                let b5 = cmd_spec(b4, ev, proc_id);
                let b6 = match user_node_spec(b5, ev, false) {
                    Some((bu, u)) => b_edge(bu, u, proc_id, EdgeType::RanAs, ts).0,
                    None => b5,
                };
                let b7 = parent_spec(b6, live2, ev, hk, proc_id);
                let b8 = session_spec(b7, ev, hk, host_id, proc_id);
                CorrV { b: b8, live: live2, addr: c.addr }
            },
        },
    }
}

/// A network connection, attributed to the owning process when known.
pub open spec fn network_spec(c: CorrV, ev: Event) -> CorrV {
    match host_node_spec(c.b, ev) {
        None => c,
        Some((b1, host_id, hk)) => match opt_str(ev.dst_ip) {
            None => CorrV { b: b1, live: c.live, addr: c.addr },
            Some(dst) => {
                let ts = ev.ts.0;
                let (b2, dst_id) = b_node(b1, NodeKind::IpAddress, dst, dst, ts);
                let (b3, live3, src) = match ev.process_pid {
                    None => (b2, c.live, host_id),
                    Some(pid) => match live_get(c.live, hk, pid) {
                        Some(p) => (b2, c.live, p),
                        None => {
                            let name = or_default(opt_str(ev.process_name), "process"@);
                            let (bp, p) = b_node(b2, NodeKind::Process, tagged_key(hk, pid, "net"@), name, ts);
                            let (bq, _) = b_edge(bp, host_id, p, EdgeType::Started, ts);
                            (bq, live_put(c.live, hk, pid, p), p)
                        },
                    },
                };
                CorrV { b: b_edge(b3, src, dst_id, EdgeType::ConnectedTo, ts).0, live: live3, addr: c.addr }
            },
        },
    }
}

/// The Windows event codes of a successful logon.
pub open spec fn logon_success(code: Option<i32>) -> bool {
    match code {
        Some(c) => c == 4624 || c == 4768 || c == 4769 || c == 4776,
        None => false,
    }
}

/// An authentication: user → host, plus lateral movement from a known source
/// host.
pub open spec fn auth_spec(c: CorrV, ev: Event) -> CorrV {
    match host_node_spec(c.b, ev) {
        None => c,
        Some((b1, host_id, hk)) => match user_node_spec(b1, ev, false) {
            None => CorrV { b: b1, live: c.live, addr: c.addr },
            Some((b2, user_id)) => {
                let ts = ev.ts.0;
                let etype = if logon_success(ev.event_code) {
                    EdgeType::LoggedInTo
                } else {
                    EdgeType::Authenticated
                };
                let (b3, _) = b_edge(b2, user_id, host_id, etype, ts);
                let b4 = match opt_str(ev.src_ip) {
                    Some(ip) => match map_get(c.addr, ip) {
                        Some(src_hk) => if src_hk != hk {
                            let (bs, src_host) = b_node(b3, NodeKind::Host, src_hk, src_hk, ts);
                            b_edge(bs, src_host, host_id, EdgeType::LateralMovement, ts).0
                        } else {
                            b3
                        },
                        None => b3,
                    },
                    None => b3,
                };
                CorrV { b: b4, live: c.live, addr: c.addr }
            },
        },
    }
}

/// The edge type of a file action (compared without regard to ASCII case).
pub open spec fn file_action_type(action: Seq<char>) -> EdgeType {
    let up = action.map_values(|c: char| ascii_upper_char(c));
    if up == "CREATED"@ || up == "CREATE"@ {
        EdgeType::Created
    } else if up == "DELETED"@ || up == "DELETE"@ || up == "REMOVED"@ {
        EdgeType::Deleted
    } else {
        EdgeType::Modified
    }
}

/// `s` is `lit` in any ASCII case (`lit` written in capitals).
pub open spec fn upper_is(s: Seq<char>, lit: Seq<char>) -> bool {
    s.len() == lit.len() && forall|i: int| 0 <= i < s.len() ==> #[trigger] ascii_upper_char(s[i]) == lit[i]
}

/// The edge a file-integrity action gives: `CREATED` or `CREATE` (in any
/// ASCII case) a `Created` edge; `DELETED`, `DELETE` or `REMOVED` a `Deleted`
/// edge; any other action a `Modified` edge.
pub proof fn law_file_action(action: Seq<char>)
    ensures
        upper_is(action, "CREATED"@) || upper_is(action, "CREATE"@) ==> file_action_type(action) == EdgeType::Created,
        upper_is(action, "DELETED"@) || upper_is(action, "DELETE"@) || upper_is(action, "REMOVED"@)
            ==> file_action_type(action) == EdgeType::Deleted,
        !(upper_is(action, "CREATED"@) || upper_is(action, "CREATE"@) || upper_is(action, "DELETED"@) || upper_is(
            action,
            "DELETE"@,
        ) || upper_is(action, "REMOVED"@)) ==> file_action_type(action) == EdgeType::Modified,
{
    let up = action.map_values(|c: char| ascii_upper_char(c));
    reveal_strlit("CREATED");
    reveal_strlit("CREATE");
    reveal_strlit("DELETED");
    reveal_strlit("DELETE");
    reveal_strlit("REMOVED");
    assert forall|lit: Seq<char>| #[trigger] upper_is(action, lit) <==> up == lit by {
        if upper_is(action, lit) {
            assert(up =~= lit);
        }
        if up == lit {
            assert forall|i: int| 0 <= i < action.len() implies #[trigger] ascii_upper_char(action[i]) == lit[i] by {
                assert(up[i] == ascii_upper_char(action[i]));
            }
        }
    }
    assert(upper_is(action, "CREATED"@) == (up == "CREATED"@));
    assert(upper_is(action, "CREATE"@) == (up == "CREATE"@));
    assert(upper_is(action, "DELETED"@) == (up == "DELETED"@));
    assert(upper_is(action, "DELETE"@) == (up == "DELETE"@));
    assert(upper_is(action, "REMOVED"@) == (up == "REMOVED"@));
    assert("CREATED"@[0] == 'C' && "CREATE"@[0] == 'C');
    assert("DELETED"@[0] == 'D' && "DELETE"@[0] == 'D' && "REMOVED"@[0] == 'R');
    assert("CREATED"@ != "DELETED"@ && "CREATED"@ != "DELETE"@ && "CREATED"@ != "REMOVED"@);
    assert("CREATE"@ != "DELETED"@ && "CREATE"@ != "DELETE"@ && "CREATE"@ != "REMOVED"@);
}

/// A file-integrity event: host → file, with the file's MD5 when given.
pub open spec fn file_spec(c: CorrV, ev: Event) -> CorrV {
    match host_node_spec(c.b, ev) {
        None => c,
        Some((b1, host_id, hk)) => match nonempty(event_lookup(ev, "file.path"@)) {
            None => CorrV { b: b1, live: c.live, addr: c.addr },
            Some(path) => {
                let ts = ev.ts.0;
                let (b2, file_id) = b_node(b1, NodeKind::File, file_key_of(hk, path), basename_of(path), ts);
                let etype = file_action_type(or_default(event_lookup(ev, "activity_name"@), Seq::empty()));
                let (b3, _) = b_edge(b2, host_id, file_id, etype, ts);
                let b4 = match event_lookup(ev, "file.hash_md5"@) {
                    Some(hash) => b_set_prop(b3, file_id, "hash_md5"@, hash),
                    None => b3,
                };
                CorrV { b: b4, live: c.live, addr: c.addr }
            },
        },
    }
}

/// An account change: the acting user modified the target user.
pub open spec fn account_spec(c: CorrV, ev: Event) -> CorrV {
    let (b1, actor) = match user_node_spec(c.b, ev, true) {
        Some((b, a)) => (b, Some(a)),
        None => (c.b, None),
    };
    let (b2, target) = match user_node_spec(b1, ev, false) {
        Some((b, t)) => (b, Some(t)),
        None => (b1, None),
    };
    let b3 = match (actor, target) {
        (Some(a), Some(t)) => if a != t {
            b_edge(b2, a, t, EdgeType::Modified, ev.ts.0).0
        } else {
            b2
        },
        _ => b2,
    };
    CorrV { b: b3, live: c.live, addr: c.addr }
}

/// A privilege-list separator.
pub open spec fn is_priv_sep(c: char) -> bool {
    c == '\n' || c == '\t' || c == ' '
}

/// Splitting `s[..i]` at separators: the finished tokens and the current one.
pub open spec fn split_state(s: Seq<char>, i: int) -> (Seq<Seq<char>>, Seq<char>)
    decreases i,
{
    if i <= 0 {
        (Seq::empty(), Seq::empty())
    } else {
        let (acc, cur) = split_state(s, i - 1);
        if is_priv_sep(s[i - 1]) {
            if cur.len() > 0 {
                (acc.push(cur), Seq::empty())
            } else {
                (acc, Seq::empty())
            }
        } else {
            (acc, cur.push(s[i - 1]))
        }
    }
}

/// The nonempty pieces of `s` between separators, in order.
pub open spec fn priv_tokens(s: Seq<char>) -> Seq<Seq<char>> {
    let (acc, cur) = split_state(s, s.len() as int);
    if cur.len() > 0 {
        acc.push(cur)
    } else {
        acc
    }
}

/// Privilege nodes for `toks[..k]`, each acquired by `holder` when there is one.
pub open spec fn privs_spec(b: BuilderV, toks: Seq<Seq<char>>, k: int, holder: Option<NodeId>, ts: i64) -> BuilderV
    decreases k,
{
    if k <= 0 {
        b
    } else {
        let b1 = privs_spec(b, toks, k - 1, holder, ts);
        let p = toks[k - 1];
        let (b2, priv_id) = b_node(b1, NodeKind::Privilege, p, p, ts);
        match holder {
            Some(h) => b_edge(b2, h, priv_id, EdgeType::AcquiredPrivilege, ts).0,
            None => b2,
        }
    }
}

/// Any other event: host, user, process and privileges from its generic fields.
pub open spec fn generic_spec(c: CorrV, ev: Event) -> CorrV {
    let ts = ev.ts.0;
    let (b1, host) = match host_node_spec(c.b, ev) {
        Some((b, id, _)) => (b, Some(id)),
        None => (c.b, None),
    };
    let (b2, user) = match user_node_spec(b1, ev, true) {
        Some((b, u)) => (b, Some(u)),
        None => match user_node_spec(b1, ev, false) {
            Some((b, u)) => (b, Some(u)),
            None => (b1, None),
        },
    };
    let (b3, proc) = match (opt_str(ev.host), ev.process_pid) {
        (Some(h), Some(pid)) => {
            let name = opt_str(ev.process_name);
            let (bp, id) = b_node(
                b2,
                NodeKind::Process,
                process_key_of(host_key_of(h), pid, ts),
                or_default(name, "process"@),
                ts,
            );
            let bq = match host {
                Some(hid) => b_edge(bp, hid, id, EdgeType::Started, ts).0,
                None => bp,
            };
            let br = match name {
                Some(n) => link_exec_spec(bq, id, n, ts),
                None => bq,
            };
            let bs = match user {
                Some(u) => b_edge(br, u, id, EdgeType::RanAs, ts).0,
                None => br,
            };
            (bs, Some(id))
        },
        _ => (b2, None),
    };
    let privs = match event_lookup(ev, "PrivilegeList"@) {
        Some(p) => Some(p),
        None => map_get(ev.extra@, "PrivilegeList"@),
    };
    let b4 = match privs {
        Some(p) => {
            let toks = priv_tokens(p);
            privs_spec(b3, toks, toks.len() as int, if user is Some { user } else { proc }, ts)
        },
        None => b3,
    };
    CorrV { b: b4, live: c.live, addr: c.addr }
}

/// Pass 2 on one event: dispatch on its class.
pub open spec fn correlate_spec(c: CorrV, ev: Event) -> CorrV {
    if ev.class_uid == 1007 {
        process_spec(c, ev)
    } else if ev.class_uid == 4001 {
        network_spec(c, ev)
    } else if ev.class_uid == 3002 {
        auth_spec(c, ev)
    } else if ev.class_uid == 1001 {
        file_spec(c, ev)
    } else if ev.class_uid == 3006 {
        account_spec(c, ev)
    } else {
        generic_spec(c, ev)
    }
}

/// Pass 1 over `evs[..k]`.
pub open spec fn register_all(c: CorrV, evs: Seq<Event>, k: int) -> CorrV
    decreases k,
{
    if k <= 0 {
        c
    } else {
        register_spec(register_all(c, evs, k - 1), evs[k - 1])
    }
}

/// Pass 2 over `evs[..k]`.
pub open spec fn correlate_all(c: CorrV, evs: Seq<Event>, k: int) -> CorrV
    decreases k,
{
    if k <= 0 {
        c
    } else {
        correlate_spec(correlate_all(c, evs, k - 1), evs[k - 1])
    }
}

// ---------------------------------------------------------------------------
// The correlator
// ---------------------------------------------------------------------------

struct LiveProc {
    host: String,
    pid: i64,
    node: NodeId,
}

spec fn live_v(l: LiveProc) -> LiveV {
    LiveV { host: l.host@, pid: l.pid, node: l.node }
}

spec fn lives_v(s: Seq<LiveProc>) -> Seq<LiveV> {
    s.map_values(|l: LiveProc| live_v(l))
}

/// Stateful cross-log correlation engine.
pub struct Correlator {
    builder: GraphBuilder,
    /// (host key, pid) → the currently live process node (PID-reuse aware).
    live: Vec<LiveProc>,
    /// Endpoint IP → host key (from each event's own `env.source_ip`).
    host_addr: StrMap,
}

impl View for Correlator {
    type V = CorrV;

    closed spec fn view(&self) -> CorrV {
        CorrV { b: self.builder@, live: lives_v(self.live@), addr: self.host_addr@ }
    }
}

fn live_find_exec(live: &Vec<LiveProc>, host: &str, pid: i64) -> (i: usize)
    ensures
        i as int == live_find(lives_v(live@), host@, pid, 0),
        i <= live@.len(),
{
    let ghost v = lives_v(live@);
    let mut i: usize = 0;
    while i < live.len()
        invariant
            i <= live@.len(),
            v == lives_v(live@),
            live_find(v, host@, pid, 0) == live_find(v, host@, pid, i as int),
        decreases live@.len() - i,
    {
        if live[i].pid == pid && str_eq(live[i].host.as_str(), host) {
            return i;
        }
        i = i + 1;
    }
    i
}

fn live_get_exec(live: &Vec<LiveProc>, host: &str, pid: i64) -> (r: Option<NodeId>)
    ensures
        r == live_get(lives_v(live@), host@, pid),
{
    let i = live_find_exec(live, host, pid);
    if i < live.len() {
        Some(live[i].node)
    } else {
        None
    }
}

fn live_put_exec(live: &mut Vec<LiveProc>, host: String, pid: i64, node: NodeId)
    ensures
        lives_v(final(live)@) == live_put(lives_v(old(live)@), host@, pid, node),
{
    let ghost v0 = lives_v(live@);
    let i = live_find_exec(live, host.as_str(), pid);
    let entry = LiveProc { host, pid, node };
    if i < live.len() {
        live.set(i, entry);
        proof {
            assert(lives_v(live@) =~= v0.update(i as int, live_v(entry)));
        }
    } else {
        live.push(entry);
        proof {
            assert(lives_v(live@) =~= v0.push(live_v(entry)));
        }
    }
}

fn lookup(ev: &Event, path: &str) -> (r: Option<String>)
    ensures
        opt_str(r) == event_lookup(*ev, path@),
{
    ev.get(path)
}

fn lookup_nonempty(ev: &Event, path: &str) -> (r: Option<String>)
    ensures
        opt_str(r) == nonempty(event_lookup(*ev, path@)),
{
    match ev.get(path) {
        Some(v) => if v.as_str().is_empty() {
            None
        } else {
            Some(v)
        },
        None => None,
    }
}

fn opt_ref(o: &Option<String>) -> (r: Option<&str>)
    ensures
        match r {
            Some(x) => *o matches Some(s) && x@ == s@,
            None => o is None,
        },
{
    match o {
        Some(s) => Some(s.as_str()),
        None => None,
    }
}

fn host_node(b: &mut GraphBuilder, ev: &Event) -> (r: Option<(NodeId, String)>)
    ensures
        match host_node_spec(old(b)@, *ev) {
            None => r is None && final(b)@ == old(b)@,
            Some((b2, id, hk)) => r matches Some((i, k)) && i == id && k@ == hk && final(b)@ == b2,
        },
{
    match &ev.host {
        None => None,
        Some(h) => {
            let hk = host_key(h.as_str());
            let id = b.node(NodeKind::Host, hk.as_str(), h.as_str(), ev.ts);
            Some((id, hk))
        },
    }
}

fn user_node(b: &mut GraphBuilder, ev: &Event, actor: bool) -> (r: Option<NodeId>)
    ensures
        match user_node_spec(old(b)@, *ev, actor) {
            None => r is None && final(b)@ == old(b)@,
            Some((b2, id)) => r == Some(id) && final(b)@ == b2,
        },
{
    let name = if actor {
        &ev.actor_user
    } else {
        &ev.user_name
    };
    match name {
        None => None,
        Some(n) => {
            let domain = if actor {
                lookup(ev, "actor.user.domain")
            } else {
                lookup(ev, "user.domain")
            };
            let sid = if actor {
                lookup(ev, "actor.user.uid")
            } else {
                lookup(ev, "user.uid")
            };
            let key = user_key(n.as_str(), opt_ref(&domain), opt_ref(&sid));
            Some(b.node(NodeKind::User, key.as_str(), n.as_str(), ev.ts))
        },
    }
}

fn link_executable(b: &mut GraphBuilder, proc_id: NodeId, path_or_name: &str, ts: Timestamp)
    ensures
        final(b)@ == link_exec_spec(old(b)@, proc_id, path_or_name@, ts.0),
{
    let key = executable_key(path_or_name);
    let label = basename(path_or_name);
    let exe = b.node(NodeKind::Executable, key.as_str(), label.as_str(), ts);
    b.edge(exe, proc_id, EdgeType::Executed, ts);
}

fn cmd_link(b: &mut GraphBuilder, ev: &Event, proc_id: NodeId)
    ensures
        final(b)@ == cmd_spec(old(b)@, *ev, proc_id),
{
    if let Some(cmd) = lookup_nonempty(ev, "process.cmd_line") {
        let cs = chars_of(cmd.as_str());
        let label = if cs.len() > 120 {
            let t = slice_of(&cs, 0, 120);
            proof {
                assert(t@ =~= cmd@.take(120));
            }
            string_from(&t)
        } else {
            owned(cmd.as_str())
        };
        let c = b.node(NodeKind::CommandLine, cmd.as_str(), label.as_str(), ev.ts);
        b.edge(proc_id, c, EdgeType::Used, ev.ts);
    }
}

fn tagged_key_exec(hk: &str, pid: i64, tag: &str) -> (r: String)
    ensures
        r@ == tagged_key(hk@, pid, tag@),
{
    let p = i64_to_string(pid);
    let head = concat4(hk, ":", p.as_str(), ":");
    concat(head.as_str(), tag)
}

fn parent_link(b: &mut GraphBuilder, live: &Vec<LiveProc>, ev: &Event, hk: &str, proc_id: NodeId)
    ensures
        final(b)@ == parent_spec(old(b)@, lives_v(live@), *ev, hk@, proc_id),
{
    if let Some(ppid) = ev.parent_pid {
        let parent_id = match live_get_exec(live, hk, ppid) {
            Some(p) => p,
            None => {
                let pname = match lookup(ev, "parent_process.name") {
                    Some(n) => n,
                    None => owned("unknown"),
                };
                let key = tagged_key_exec(hk, ppid, "?");
                b.node(NodeKind::Process, key.as_str(), pname.as_str(), ev.ts)
            },
        };
        b.edge(parent_id, proc_id, EdgeType::Spawned, ev.ts);
    }
}

fn session_link(b: &mut GraphBuilder, ev: &Event, hk: &str, host_id: NodeId, proc_id: NodeId)
    ensures
        final(b)@ == session_spec(old(b)@, *ev, hk@, host_id, proc_id),
{
    if let Some(sid) = lookup_nonempty(ev, "session.uid") {
        if !str_eq(sid.as_str(), "0x0") {
            let key = session_key(hk, sid.as_str());
            let label = concat("session ", sid.as_str());
            let s = b.node(NodeKind::LogonSession, key.as_str(), label.as_str(), ev.ts);
            b.edge(s, proc_id, EdgeType::Owns, ev.ts);
            b.edge(s, host_id, EdgeType::BelongsTo, ev.ts);
        }
    }
}

fn file_action(action: &str) -> (t: EdgeType)
    ensures
        t == file_action_type(action@),
        upper_is(action@, "CREATED"@) || upper_is(action@, "CREATE"@) ==> t == EdgeType::Created,
        upper_is(action@, "DELETED"@) || upper_is(action@, "DELETE"@) || upper_is(action@, "REMOVED"@) ==> t
            == EdgeType::Deleted,
{
    proof {
        law_file_action(action@);
    }
    let cs = chars_of(action);
    let up = ascii_upper(&cs);
    let u = string_from(&up);
    let us = u.as_str();
    if str_eq(us, "CREATED") || str_eq(us, "CREATE") {
        EdgeType::Created
    } else if str_eq(us, "DELETED") || str_eq(us, "DELETE") || str_eq(us, "REMOVED") {
        EdgeType::Deleted
    } else {
        EdgeType::Modified
    }
}

/// The views of some strings.
spec fn strings_v(s: Seq<String>) -> Seq<Seq<char>> {
    s.map_values(|x: String| x@)
}

fn split_privs(s: &str) -> (r: Vec<String>)
    ensures
        strings_v(r@) == priv_tokens(s@),
{
    let cs = chars_of(s);
    let mut acc: Vec<String> = Vec::new();
    let mut cur: Vec<char> = Vec::new();
    let mut i: usize = 0;
    while i < cs.len()
        invariant
            i <= cs@.len(),
            cs@ == s@,
            (strings_v(acc@), cur@) == split_state(s@, i as int),
        decreases cs@.len() - i,
    {
        let c = cs[i];
        if c == '\n' || c == '\t' || c == ' ' {
            if cur.len() > 0 {
                let t = string_from(&cur);
                let ghost before = acc@;
                acc.push(t);
                proof {
                    assert(strings_v(acc@) =~= strings_v(before).push(t@));
                }
                cur = Vec::new();
            }
        } else {
            cur.push(c);
        }
        i = i + 1;
    }
    if cur.len() > 0 {
        let t = string_from(&cur);
        let ghost before = acc@;
        acc.push(t);
        proof {
            assert(strings_v(acc@) =~= strings_v(before).push(t@));
        }
    }
    acc
}

fn privs_link(b: &mut GraphBuilder, toks: &Vec<String>, holder: Option<NodeId>, ts: Timestamp)
    ensures
        final(b)@ == privs_spec(old(b)@, strings_v(toks@), toks@.len() as int, holder, ts.0),
{
    let ghost b0 = b@;
    let mut k: usize = 0;
    while k < toks.len()
        invariant
            k <= toks@.len(),
            b@ == privs_spec(b0, strings_v(toks@), k as int, holder, ts.0),
        decreases toks@.len() - k,
    {
        let p = toks[k].as_str();
        let priv_id = b.node(NodeKind::Privilege, p, p, ts);
        if let Some(h) = holder {
            b.edge(h, priv_id, EdgeType::AcquiredPrivilege, ts);
        }
        k = k + 1;
    }
}

impl Correlator {
    /// An empty correlator.
    pub fn new() -> (c: Correlator)
        ensures
            c@ == (CorrV {
                b: BuilderV { nodes: Seq::empty(), edges: Seq::empty() },
                live: Seq::empty(),
                addr: Map::empty(),
            }),
    {
        let c = Correlator { builder: GraphBuilder::new(), live: Vec::new(), host_addr: StrMap::new() };
        proof {
            assert(lives_v(c.live@) =~= Seq::<LiveV>::empty());
        }
        c
    }

    /// Correlate a whole batch: learn topology, then build the graph.
    pub fn correlate_batch(&mut self, events: &[Event])
        ensures
            final(self)@ == correlate_all(
                register_all(old(self)@, events@, events@.len() as int),
                events@,
                events@.len() as int,
            ),
    {
        let ghost c0 = self@;
        let mut i: usize = 0;
        while i < events.len()
            invariant
                i <= events@.len(),
                self@ == register_all(c0, events@, i as int),
            decreases events@.len() - i,
        {
            self.register(&events[i]);
            i = i + 1;
        }
        let ghost c1 = self@;
        let mut j: usize = 0;
        while j < events.len()
            invariant
                j <= events@.len(),
                c1 == register_all(c0, events@, events@.len() as int),
                self@ == correlate_all(c1, events@, j as int),
            decreases events@.len() - j,
        {
            self.correlate(&events[j]);
            j = j + 1;
        }
    }

    /// Pass 1: record the endpoint's own IP → host mapping (used for lateral
    /// movement in pass 2).
    pub fn register(&mut self, ev: &Event)
        ensures
            final(self)@ == register_spec(old(self)@, *ev),
    {
        if let Some(host) = &ev.host {
            if let Some(ip) = ev.extra.get("env.source_ip") {
                if !ip.as_str().is_empty() {
                    let hk = host_key(host.as_str());
                    self.host_addr.insert(owned(ip.as_str()), hk);
                }
            }
        }
    }

    /// Pass 2: emit nodes/edges for one event.
    pub fn correlate(&mut self, ev: &Event)
        ensures
            final(self)@ == correlate_spec(old(self)@, *ev),
    {
        if ev.class_uid == 1007 {
            self.process(ev)
        } else if ev.class_uid == 4001 {
            self.network(ev)
        } else if ev.class_uid == 3002 {
            self.auth(ev)
        } else if ev.class_uid == 1001 {
            self.file(ev)
        } else if ev.class_uid == 3006 {
            self.account(ev)
        } else {
            self.generic(ev)
        }
    }

    /// Drain the accumulated graph, nodes and edges each sorted by id.
    pub fn finish(self) -> (r: (Vec<Node>, Vec<Edge>))
        ensures
            sorted_nodes(self@.b.nodes, crate::builder::nodes_v(r.0@)),
            sorted_edges(self@.b.edges, crate::builder::edges_v(r.1@)),
    {
        self.builder.into_parts()
    }

    fn process(&mut self, ev: &Event)
        ensures
            final(self)@ == process_spec(old(self)@, *ev),
    {
        let ts = ev.ts;
        let (host_id, hk) = match host_node(&mut self.builder, ev) {
            Some(x) => x,
            None => {
                return;
            },
        };
        let pid = match ev.process_pid {
            Some(p) => p,
            None => {
                return;
            },
        };
        let name: &str = match &ev.process_name {
            Some(n) => n.as_str(),
            None => "process",
        };
        let pkey = process_key(hk.as_str(), pid, ts.millis());
        let proc_id = self.builder.node(NodeKind::Process, pkey.as_str(), name, ts);
        live_put_exec(&mut self.live, owned(hk.as_str()), pid, proc_id);
        self.builder.edge(host_id, proc_id, EdgeType::Started, ts);
        match lookup_nonempty(ev, "process.file.path") {
            Some(path) => link_executable(&mut self.builder, proc_id, path.as_str(), ts),
            None => link_executable(&mut self.builder, proc_id, name, ts),
        }
        cmd_link(&mut self.builder, ev, proc_id);
        if let Some(u) = user_node(&mut self.builder, ev, false) {
            self.builder.edge(u, proc_id, EdgeType::RanAs, ts);
        }
        parent_link(&mut self.builder, &self.live, ev, hk.as_str(), proc_id);
        session_link(&mut self.builder, ev, hk.as_str(), host_id, proc_id);
    }

    fn network(&mut self, ev: &Event)
        ensures
            final(self)@ == network_spec(old(self)@, *ev),
    {
        let ts = ev.ts;
        let (host_id, hk) = match host_node(&mut self.builder, ev) {
            Some(x) => x,
            None => {
                return;
            },
        };
        let dst = match &ev.dst_ip {
            Some(d) => d,
            None => {
                return;
            },
        };
        let dst_id = self.builder.node(NodeKind::IpAddress, dst.as_str(), dst.as_str(), ts);
        let src = match ev.process_pid {
            Some(pid) => match live_get_exec(&self.live, hk.as_str(), pid) {
                Some(p) => p,
                None => {
                    let name: &str = match &ev.process_name {
                        Some(n) => n.as_str(),
                        None => "process",
                    };
                    let key = tagged_key_exec(hk.as_str(), pid, "net");
                    let p = self.builder.node(NodeKind::Process, key.as_str(), name, ts);
                    self.builder.edge(host_id, p, EdgeType::Started, ts);
                    live_put_exec(&mut self.live, owned(hk.as_str()), pid, p);
                    p
                },
            },
            None => host_id,
        };
        self.builder.edge(src, dst_id, EdgeType::ConnectedTo, ts);
    }

    fn auth(&mut self, ev: &Event)
        ensures
            final(self)@ == auth_spec(old(self)@, *ev),
    {
        let ts = ev.ts;
        let (host_id, hk) = match host_node(&mut self.builder, ev) {
            Some(x) => x,
            None => {
                return;
            },
        };
        let user_id = match user_node(&mut self.builder, ev, false) {
            Some(u) => u,
            None => {
                return;
            },
        };
        let success = match ev.event_code {
            Some(c) => c == 4624 || c == 4768 || c == 4769 || c == 4776,
            None => false,
        };
        let etype = if success {
            EdgeType::LoggedInTo
        } else {
            EdgeType::Authenticated
        };
        self.builder.edge(user_id, host_id, etype, ts);
        if let Some(src_ip) = &ev.src_ip {
            if let Some(src_hk) = self.host_addr.get(src_ip.as_str()) {
                if !str_eq(src_hk.as_str(), hk.as_str()) {
                    let sk = owned(src_hk.as_str());
                    let src_host = self.builder.node(NodeKind::Host, sk.as_str(), sk.as_str(), ts);
                    self.builder.edge(src_host, host_id, EdgeType::LateralMovement, ts);
                }
            }
        }
    }

    fn file(&mut self, ev: &Event)
        ensures
            final(self)@ == file_spec(old(self)@, *ev),
    {
        let ts = ev.ts;
        let (host_id, hk) = match host_node(&mut self.builder, ev) {
            Some(x) => x,
            None => {
                return;
            },
        };
        let path = match lookup_nonempty(ev, "file.path") {
            Some(p) => p,
            None => {
                return;
            },
        };
        let key = file_key(hk.as_str(), path.as_str());
        let label = basename(path.as_str());
        let file_id = self.builder.node(NodeKind::File, key.as_str(), label.as_str(), ts);
        let action = match lookup(ev, "activity_name") {
            Some(a) => a,
            None => String::new(),
        };
        let etype = file_action(action.as_str());
        self.builder.edge(host_id, file_id, etype, ts);
        if let Some(hash) = lookup(ev, "file.hash_md5") {
            self.builder.set_node_prop(file_id, "hash_md5", hash.as_str());
        }
    }

    fn account(&mut self, ev: &Event)
        ensures
            final(self)@ == account_spec(old(self)@, *ev),
    {
        let actor = user_node(&mut self.builder, ev, true);
        let target = user_node(&mut self.builder, ev, false);
        if let (Some(a), Some(t)) = (actor, target) {
            if a.0 != t.0 {
                self.builder.edge(a, t, EdgeType::Modified, ev.ts);
            }
        }
    }

    /// Events without a specific class (e.g. 4673 privilege use) still yield a
    /// useful subgraph from their generic fields.
    fn generic(&mut self, ev: &Event)
        ensures
            final(self)@ == generic_spec(old(self)@, *ev),
    {
        let ts = ev.ts;
        let host = match host_node(&mut self.builder, ev) {
            Some((id, _)) => Some(id),
            None => None,
        };
        let user = match user_node(&mut self.builder, ev, true) {
            Some(u) => Some(u),
            None => user_node(&mut self.builder, ev, false),
        };
        let proc = match (&ev.host, ev.process_pid) {
            (Some(h), Some(pid)) => {
                let hk = host_key(h.as_str());
                let pkey = process_key(hk.as_str(), pid, ts.millis());
                let pname: &str = match &ev.process_name {
                    Some(n) => n.as_str(),
                    None => "process",
                };
                let id = self.builder.node(NodeKind::Process, pkey.as_str(), pname, ts);
                if let Some(host_id) = host {
                    self.builder.edge(host_id, id, EdgeType::Started, ts);
                }
                if let Some(n) = &ev.process_name {
                    link_executable(&mut self.builder, id, n.as_str(), ts);
                }
                if let Some(u) = user {
                    self.builder.edge(u, id, EdgeType::RanAs, ts);
                }
                Some(id)
            },
            _ => None,
        };
        let privs = match lookup(ev, "PrivilegeList") {
            Some(p) => Some(p),
            None => match ev.extra.get("PrivilegeList") {
                Some(p) => Some(owned(p.as_str())),
                None => None,
            },
        };
        if let Some(p) = privs {
            let toks = split_privs(p.as_str());
            let holder = if user.is_some() {
                user
            } else {
                proc
            };
            privs_link(&mut self.builder, &toks, holder, ts);
        }
    }
}

} // verus!

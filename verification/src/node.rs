//! Graph node kinds and the [`Node`] record.
//!
//! Node identity is content-addressed: `node_id = xxh64(kind ++ 0x00 ++ identity_key)`
//! (see [`crate::ids::NodeId::of`]). A process is keyed `host:pid:start_time`,
//! which is what makes PID reuse unambiguous.

use vstd::prelude::*;

use crate::ids::NodeId;
use crate::strmap::StrMap;
use crate::time::{Timestamp, Validity, single};

verus! {

/// The kind of a graph node.
#[derive(Debug, Clone, Copy, PartialEq, Eq, Hash, PartialOrd, Ord)]
pub enum NodeKind {
    User,
    Host,
    Domain,
    Process,
    Executable,
    CommandLine,
    LogonSession,
    NetworkConnection,
    IpAddress,
    DnsName,
    File,
    RegistryKey,
    Service,
    Task,
    Sid,
    Privilege,
    Certificate,
    Ioc,
    Alert,
    Event,
}

impl NodeKind {
    /// The stored discriminant.
    pub open spec fn code(self) -> u8 {
        match self {
            NodeKind::User => 0u8,
            NodeKind::Host => 1u8,
            NodeKind::Domain => 2u8,
            NodeKind::Process => 3u8,
            NodeKind::Executable => 4u8,
            NodeKind::CommandLine => 5u8,
            NodeKind::LogonSession => 6u8,
            NodeKind::NetworkConnection => 7u8,
            NodeKind::IpAddress => 8u8,
            NodeKind::DnsName => 9u8,
            NodeKind::File => 10u8,
            NodeKind::RegistryKey => 11u8,
            NodeKind::Service => 12u8,
            NodeKind::Task => 13u8,
            NodeKind::Sid => 14u8,
            NodeKind::Privilege => 15u8,
            NodeKind::Certificate => 16u8,
            NodeKind::Ioc => 17u8,
            NodeKind::Alert => 18u8,
            NodeKind::Event => 19u8,
        }
    }

    /// The stable external name.
    pub open spec fn label(self) -> Seq<char> {
        match self {
            NodeKind::User => "user"@,
            NodeKind::Host => "host"@,
            NodeKind::Domain => "domain"@,
            NodeKind::Process => "process"@,
            NodeKind::Executable => "executable"@,
            NodeKind::CommandLine => "command_line"@,
            NodeKind::LogonSession => "logon_session"@,
            NodeKind::NetworkConnection => "network_connection"@,
            NodeKind::IpAddress => "ip_address"@,
            NodeKind::DnsName => "dns_name"@,
            NodeKind::File => "file"@,
            NodeKind::RegistryKey => "registry_key"@,
            NodeKind::Service => "service"@,
            NodeKind::Task => "task"@,
            NodeKind::Sid => "sid"@,
            NodeKind::Privilege => "privilege"@,
            NodeKind::Certificate => "certificate"@,
            NodeKind::Ioc => "ioc"@,
            NodeKind::Alert => "alert"@,
            NodeKind::Event => "event"@,
        }
    }

    /// The discriminant, as stored in the database and the CSR snapshot.
    pub fn as_u8(self) -> (v: u8)
        ensures
            v == self.code(),
    {
        match self {
            NodeKind::User => 0,
            NodeKind::Host => 1,
            NodeKind::Domain => 2,
            NodeKind::Process => 3,
            NodeKind::Executable => 4,
            NodeKind::CommandLine => 5,
            NodeKind::LogonSession => 6,
            NodeKind::NetworkConnection => 7,
            NodeKind::IpAddress => 8,
            NodeKind::DnsName => 9,
            NodeKind::File => 10,
            NodeKind::RegistryKey => 11,
            NodeKind::Service => 12,
            NodeKind::Task => 13,
            NodeKind::Sid => 14,
            NodeKind::Privilege => 15,
            NodeKind::Certificate => 16,
            NodeKind::Ioc => 17,
            NodeKind::Alert => 18,
            NodeKind::Event => 19,
        }
    }

    /// Reconstruct a value from its stored discriminant.
    pub fn from_u8(v: u8) -> (r: Option<NodeKind>)
        ensures
            r == nodekind_of_code(v),
    {
        match v {
            0 => Some(NodeKind::User),
            1 => Some(NodeKind::Host),
            2 => Some(NodeKind::Domain),
            3 => Some(NodeKind::Process),
            4 => Some(NodeKind::Executable),
            5 => Some(NodeKind::CommandLine),
            6 => Some(NodeKind::LogonSession),
            7 => Some(NodeKind::NetworkConnection),
            8 => Some(NodeKind::IpAddress),
            9 => Some(NodeKind::DnsName),
            10 => Some(NodeKind::File),
            11 => Some(NodeKind::RegistryKey),
            12 => Some(NodeKind::Service),
            13 => Some(NodeKind::Task),
            14 => Some(NodeKind::Sid),
            15 => Some(NodeKind::Privilege),
            16 => Some(NodeKind::Certificate),
            17 => Some(NodeKind::Ioc),
            18 => Some(NodeKind::Alert),
            19 => Some(NodeKind::Event),
            _ => None,
        }
    }

    /// The stable external name.
    pub fn name(self) -> (s: &'static str)
        ensures
            s@ == self.label(),
    {
        match self {
            NodeKind::User => "user",
            NodeKind::Host => "host",
            NodeKind::Domain => "domain",
            NodeKind::Process => "process",
            NodeKind::Executable => "executable",
            NodeKind::CommandLine => "command_line",
            NodeKind::LogonSession => "logon_session",
            NodeKind::NetworkConnection => "network_connection",
            NodeKind::IpAddress => "ip_address",
            NodeKind::DnsName => "dns_name",
            NodeKind::File => "file",
            NodeKind::RegistryKey => "registry_key",
            NodeKind::Service => "service",
            NodeKind::Task => "task",
            NodeKind::Sid => "sid",
            NodeKind::Privilege => "privilege",
            NodeKind::Certificate => "certificate",
            NodeKind::Ioc => "ioc",
            NodeKind::Alert => "alert",
            NodeKind::Event => "event",
        }
    }

    /// Parse a value from its [`NodeKind::name`] (first match in discriminant order).
    pub fn from_name(s: &str) -> (r: Option<NodeKind>)
        ensures
            r matches Some(k) ==> k.label() == s@ && forall|j: u8|
                j < k.code() ==> nodekind_of_code(j).unwrap().label() != s@,
            r is None ==> forall|k: NodeKind| k.label() != s@,
    {
        let mut v: u8 = 0;
        while v < 20
            invariant
                v <= 20,
                forall|j: u8| j < v ==> nodekind_of_code(j).unwrap().label() != s@,
            decreases 20 - v,
        {
            proof {
                lemma_code_complete(v);
            }
            let k = NodeKind::from_u8(v).unwrap();
            if crate::text::str_eq(k.name(), s) {
                return Some(k);
            }
            v = v + 1;
        }
        assert forall|k: NodeKind| k.label() != s@ by {
            lemma_code_roundtrip(k);
        }
        None
    }
}

/// The value with stored discriminant `v`.
pub open spec fn nodekind_of_code(v: u8) -> Option<NodeKind> {
    match v {
        0 => Some(NodeKind::User),
        1 => Some(NodeKind::Host),
        2 => Some(NodeKind::Domain),
        3 => Some(NodeKind::Process),
        4 => Some(NodeKind::Executable),
        5 => Some(NodeKind::CommandLine),
        6 => Some(NodeKind::LogonSession),
        7 => Some(NodeKind::NetworkConnection),
        8 => Some(NodeKind::IpAddress),
        9 => Some(NodeKind::DnsName),
        10 => Some(NodeKind::File),
        11 => Some(NodeKind::RegistryKey),
        12 => Some(NodeKind::Service),
        13 => Some(NodeKind::Task),
        14 => Some(NodeKind::Sid),
        15 => Some(NodeKind::Privilege),
        16 => Some(NodeKind::Certificate),
        17 => Some(NodeKind::Ioc),
        18 => Some(NodeKind::Alert),
        19 => Some(NodeKind::Event),
        _ => None,
    }
}

/// Discriminants round-trip: `from_u8(as_u8(k)) == Some(k)`, and every
/// in-range discriminant names a value.
pub proof fn lemma_code_roundtrip(k: NodeKind)
    ensures
        k.code() < 20,
        nodekind_of_code(k.code()) == Some(k),
{

}

/// Distinct values have distinct discriminants.
pub proof fn lemma_code_injective(a: NodeKind, b: NodeKind)
    requires
        a.code() == b.code(),
    ensures
        a == b,
{
}

/// Every discriminant below 20 decodes, and re-encodes to itself.
pub proof fn lemma_code_complete(v: u8)
    requires
        v < 20,
    ensures
        nodekind_of_code(v) matches Some(k) && k.code() == v,
{
    let k = match v {

        0 => NodeKind::User,
        1 => NodeKind::Host,
        2 => NodeKind::Domain,
        3 => NodeKind::Process,
        4 => NodeKind::Executable,
        5 => NodeKind::CommandLine,
        6 => NodeKind::LogonSession,
        7 => NodeKind::NetworkConnection,
        8 => NodeKind::IpAddress,
        9 => NodeKind::DnsName,
        10 => NodeKind::File,
        11 => NodeKind::RegistryKey,
        12 => NodeKind::Service,
        13 => NodeKind::Task,
        14 => NodeKind::Sid,
        15 => NodeKind::Privilege,
        16 => NodeKind::Certificate,
        17 => NodeKind::Ioc,
        18 => NodeKind::Alert,
        19 => NodeKind::Event,
        _ => NodeKind::Event,
    };
    assert(k.code() == v);
}

/// A temporal graph node: an entity reconstructed from telemetry.
#[derive(Debug, Clone)]
pub struct Node {
    pub id: NodeId,
    pub kind: NodeKind,
    /// Canonical dedup string, distinct from `label`.
    pub identity_key: String,
    /// Human-facing display text.
    pub label: String,
    pub validity: Validity,
    /// The composite risk score (an `f32`, carried as its IEEE-754 bits);
    /// `0` (that is, `0.0`) until computed by the analytics pass.
    pub risk_bits: u32,
    /// Kind-specific attributes.
    pub props: StrMap,
}

impl Node {
    /// Create a node, deriving its id from `(kind, identity_key)` and seeding
    /// a single-observation validity at `first_seen`.
    pub fn new(kind: NodeKind, identity_key: &str, label: &str, first_seen: Timestamp) -> (n: Node)
        ensures
            n.id == NodeId::of_spec(kind, identity_key@),
            n.kind == kind,
            n.identity_key@ == identity_key@,
            n.label@ == label@,
            n.validity == single(first_seen.0),
            n.risk_bits == 0,
            n.props@ == Map::<Seq<char>, Seq<char>>::empty(),
    {
        Node {
            id: NodeId::of(kind, identity_key),
            kind,
            identity_key: crate::text::owned(identity_key),
            label: crate::text::owned(label),
            validity: Validity::at(first_seen),
            risk_bits: 0,
            props: StrMap::new(),
        }
    }

    /// Attach a property, returning `self` for builder-style construction.
    pub fn with_prop(self, key: &str, value: &str) -> (n: Node)
        ensures
            n.id == self.id && n.kind == self.kind && n.identity_key == self.identity_key
                && n.label == self.label && n.validity == self.validity && n.risk_bits
                == self.risk_bits,
            n.props@ == self.props@.insert(key@, value@),
    {
        let mut n = self;
        n.props.insert(crate::text::owned(key), crate::text::owned(value));
        n
    }

    /// Record another observation of this entity at `at`.
    pub fn observe(&mut self, at: Timestamp)
        requires
            old(self).validity.event_count < u64::MAX,
        ensures
            final(self).validity == crate::time::observed(old(self).validity, at.0),
            final(self).id == old(self).id && final(self).kind == old(self).kind
                && final(self).identity_key == old(self).identity_key && final(self).label == old(
                self,
            ).label && final(self).risk_bits == old(self).risk_bits && final(self).props == old(
                self,
            ).props,
    {
        self.validity.observe(at);
    }
}

} // verus!

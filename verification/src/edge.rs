//! Graph edge types and the [`Edge`] record.
//!
//! Edges are aggregated: at most one edge per `(src, dst, etype)` triple,
//! identified by [`crate::ids::EdgeId::of`]. Repeated occurrences fold into the
//! edge's [`Validity`].

use vstd::prelude::*;

use crate::ids::{EdgeId, NodeId};
use crate::strmap::StrMap;
use crate::time::{Timestamp, Validity, single};

verus! {

/// The semantic type of a relationship between two nodes.
#[derive(Debug, Clone, Copy, PartialEq, Eq, Hash, PartialOrd, Ord)]
pub enum EdgeType {
    LoggedInTo,
    Authenticated,
    Started,
    Spawned,
    ParentOf,
    ChildOf,
    Executed,
    Used,
    RanAs,
    ConnectedTo,
    Resolved,
    Accessed,
    Created,
    Modified,
    Deleted,
    Owns,
    BelongsTo,
    Generated,
    RequestedTicket,
    AcquiredPrivilege,
    LateralMovement,
    Triggered,
}

impl EdgeType {
    /// The stored discriminant.
    pub open spec fn code(self) -> u8 {
        match self {
            EdgeType::LoggedInTo => 0u8,
            EdgeType::Authenticated => 1u8,
            EdgeType::Started => 2u8,
            EdgeType::Spawned => 3u8,
            EdgeType::ParentOf => 4u8,
            EdgeType::ChildOf => 5u8,
            EdgeType::Executed => 6u8,
            EdgeType::Used => 7u8,
            EdgeType::RanAs => 8u8,
            EdgeType::ConnectedTo => 9u8,
            EdgeType::Resolved => 10u8,
            EdgeType::Accessed => 11u8,
            EdgeType::Created => 12u8,
            EdgeType::Modified => 13u8,
            EdgeType::Deleted => 14u8,
            EdgeType::Owns => 15u8,
            EdgeType::BelongsTo => 16u8,
            EdgeType::Generated => 17u8,
            EdgeType::RequestedTicket => 18u8,
            EdgeType::AcquiredPrivilege => 19u8,
            EdgeType::LateralMovement => 20u8,
            EdgeType::Triggered => 21u8,
        }
    }

    /// The stable external name.
    pub open spec fn label(self) -> Seq<char> {
        match self {
            EdgeType::LoggedInTo => "LOGGED_IN_TO"@,
            EdgeType::Authenticated => "AUTHENTICATED"@,
            EdgeType::Started => "STARTED"@,
            EdgeType::Spawned => "SPAWNED"@,
            EdgeType::ParentOf => "PARENT_OF"@,
            EdgeType::ChildOf => "CHILD_OF"@,
            EdgeType::Executed => "EXECUTED"@,
            EdgeType::Used => "USED"@,
            EdgeType::RanAs => "RAN_AS"@,
            EdgeType::ConnectedTo => "CONNECTED_TO"@,
            EdgeType::Resolved => "RESOLVED"@,
            EdgeType::Accessed => "ACCESSED"@,
            EdgeType::Created => "CREATED"@,
            EdgeType::Modified => "MODIFIED"@,
            EdgeType::Deleted => "DELETED"@,
            EdgeType::Owns => "OWNS"@,
            EdgeType::BelongsTo => "BELONGS_TO"@,
            EdgeType::Generated => "GENERATED"@,
            EdgeType::RequestedTicket => "REQUESTED_TICKET"@,
            EdgeType::AcquiredPrivilege => "ACQUIRED_PRIVILEGE"@,
            EdgeType::LateralMovement => "LATERAL_MOVEMENT"@,
            EdgeType::Triggered => "TRIGGERED"@,
        }
    }

    /// The discriminant, as stored in the database and the CSR snapshot.
    pub fn as_u8(self) -> (v: u8)
        ensures
            v == self.code(),
    {
        match self {
            EdgeType::LoggedInTo => 0,
            EdgeType::Authenticated => 1,
            EdgeType::Started => 2,
            EdgeType::Spawned => 3,
            EdgeType::ParentOf => 4,
            EdgeType::ChildOf => 5,
            EdgeType::Executed => 6,
            EdgeType::Used => 7,
            EdgeType::RanAs => 8,
            EdgeType::ConnectedTo => 9,
            EdgeType::Resolved => 10,
            EdgeType::Accessed => 11,
            EdgeType::Created => 12,
            EdgeType::Modified => 13,
            EdgeType::Deleted => 14,
            EdgeType::Owns => 15,
            EdgeType::BelongsTo => 16,
            EdgeType::Generated => 17,
            EdgeType::RequestedTicket => 18,
            EdgeType::AcquiredPrivilege => 19,
            EdgeType::LateralMovement => 20,
            EdgeType::Triggered => 21,
        }
    }

    /// Reconstruct a value from its stored discriminant.
    pub fn from_u8(v: u8) -> (r: Option<EdgeType>)
        ensures
            r == edgetype_of_code(v),
    {
        match v {
            0 => Some(EdgeType::LoggedInTo),
            1 => Some(EdgeType::Authenticated),
            2 => Some(EdgeType::Started),
            3 => Some(EdgeType::Spawned),
            4 => Some(EdgeType::ParentOf),
            5 => Some(EdgeType::ChildOf),
            6 => Some(EdgeType::Executed),
            7 => Some(EdgeType::Used),
            8 => Some(EdgeType::RanAs),
            9 => Some(EdgeType::ConnectedTo),
            10 => Some(EdgeType::Resolved),
            11 => Some(EdgeType::Accessed),
            12 => Some(EdgeType::Created),
            13 => Some(EdgeType::Modified),
            14 => Some(EdgeType::Deleted),
            15 => Some(EdgeType::Owns),
            16 => Some(EdgeType::BelongsTo),
            17 => Some(EdgeType::Generated),
            18 => Some(EdgeType::RequestedTicket),
            19 => Some(EdgeType::AcquiredPrivilege),
            20 => Some(EdgeType::LateralMovement),
            21 => Some(EdgeType::Triggered),
            _ => None,
        }
    }

    /// The stable external name.
    pub fn name(self) -> (s: &'static str)
        ensures
            s@ == self.label(),
    {
        match self {
            EdgeType::LoggedInTo => "LOGGED_IN_TO",
            EdgeType::Authenticated => "AUTHENTICATED",
            EdgeType::Started => "STARTED",
            EdgeType::Spawned => "SPAWNED",
            EdgeType::ParentOf => "PARENT_OF",
            EdgeType::ChildOf => "CHILD_OF",
            EdgeType::Executed => "EXECUTED",
            EdgeType::Used => "USED",
            EdgeType::RanAs => "RAN_AS",
            EdgeType::ConnectedTo => "CONNECTED_TO",
            EdgeType::Resolved => "RESOLVED",
            EdgeType::Accessed => "ACCESSED",
            EdgeType::Created => "CREATED",
            EdgeType::Modified => "MODIFIED",
            EdgeType::Deleted => "DELETED",
            EdgeType::Owns => "OWNS",
            EdgeType::BelongsTo => "BELONGS_TO",
            EdgeType::Generated => "GENERATED",
            EdgeType::RequestedTicket => "REQUESTED_TICKET",
            EdgeType::AcquiredPrivilege => "ACQUIRED_PRIVILEGE",
            EdgeType::LateralMovement => "LATERAL_MOVEMENT",
            EdgeType::Triggered => "TRIGGERED",
        }
    }

    /// Parse a value from its [`EdgeType::name`] (first match in discriminant order).
    pub fn from_name(s: &str) -> (r: Option<EdgeType>)
        ensures
            r matches Some(k) ==> k.label() == s@ && forall|j: u8|
                j < k.code() ==> edgetype_of_code(j).unwrap().label() != s@,
            r is None ==> forall|k: EdgeType| k.label() != s@,
    {
        let mut v: u8 = 0;
        while v < 22
            invariant
                v <= 22,
                forall|j: u8| j < v ==> edgetype_of_code(j).unwrap().label() != s@,
            decreases 22 - v,
        {
            proof {
                lemma_code_complete(v);
            }
            let k = EdgeType::from_u8(v).unwrap();
            if crate::text::str_eq(k.name(), s) {
                return Some(k);
            }
            v = v + 1;
        }
        assert forall|k: EdgeType| k.label() != s@ by {
            lemma_code_roundtrip(k);
        }
        None
    }
}

/// The value with stored discriminant `v`.
pub open spec fn edgetype_of_code(v: u8) -> Option<EdgeType> {
    match v {
        0 => Some(EdgeType::LoggedInTo),
        1 => Some(EdgeType::Authenticated),
        2 => Some(EdgeType::Started),
        3 => Some(EdgeType::Spawned),
        4 => Some(EdgeType::ParentOf),
        5 => Some(EdgeType::ChildOf),
        6 => Some(EdgeType::Executed),
        7 => Some(EdgeType::Used),
        8 => Some(EdgeType::RanAs),
        9 => Some(EdgeType::ConnectedTo),
        10 => Some(EdgeType::Resolved),
        11 => Some(EdgeType::Accessed),
        12 => Some(EdgeType::Created),
        13 => Some(EdgeType::Modified),
        14 => Some(EdgeType::Deleted),
        15 => Some(EdgeType::Owns),
        16 => Some(EdgeType::BelongsTo),
        17 => Some(EdgeType::Generated),
        18 => Some(EdgeType::RequestedTicket),
        19 => Some(EdgeType::AcquiredPrivilege),
        20 => Some(EdgeType::LateralMovement),
        21 => Some(EdgeType::Triggered),
        _ => None,
    }
}

/// Discriminants round-trip: `from_u8(as_u8(k)) == Some(k)`, and every
/// in-range discriminant names a value.
pub proof fn lemma_code_roundtrip(k: EdgeType)
    ensures
        k.code() < 22,
        edgetype_of_code(k.code()) == Some(k),
{

}

/// Distinct values have distinct discriminants.
pub proof fn lemma_code_injective(a: EdgeType, b: EdgeType)
    requires
        a.code() == b.code(),
    ensures
        a == b,
{
}

/// Every discriminant below 22 decodes, and re-encodes to itself.
pub proof fn lemma_code_complete(v: u8)
    requires
        v < 22,
    ensures
        edgetype_of_code(v) matches Some(k) && k.code() == v,
{
    let k = match v {

        0 => EdgeType::LoggedInTo,
        1 => EdgeType::Authenticated,
        2 => EdgeType::Started,
        3 => EdgeType::Spawned,
        4 => EdgeType::ParentOf,
        5 => EdgeType::ChildOf,
        6 => EdgeType::Executed,
        7 => EdgeType::Used,
        8 => EdgeType::RanAs,
        9 => EdgeType::ConnectedTo,
        10 => EdgeType::Resolved,
        11 => EdgeType::Accessed,
        12 => EdgeType::Created,
        13 => EdgeType::Modified,
        14 => EdgeType::Deleted,
        15 => EdgeType::Owns,
        16 => EdgeType::BelongsTo,
        17 => EdgeType::Generated,
        18 => EdgeType::RequestedTicket,
        19 => EdgeType::AcquiredPrivilege,
        20 => EdgeType::LateralMovement,
        21 => EdgeType::Triggered,
        _ => EdgeType::Triggered,
    };
    assert(k.code() == v);
}

/// The IEEE-754 bits of `1.0f32`, the default edge weight.
pub const UNIT_WEIGHT_BITS: u32 = 0x3F80_0000u32;

/// A temporal, directed, aggregated relationship between two nodes.
#[derive(Debug, Clone)]
pub struct Edge {
    pub id: EdgeId,
    pub src: NodeId,
    pub dst: NodeId,
    pub etype: EdgeType,
    pub validity: Validity,
    /// Traversal/risk weight (an `f32`, carried as its IEEE-754 bits);
    /// defaults to `1.0`.
    pub weight_bits: u32,
    pub props: StrMap,
}

impl Edge {
    /// Create an edge, deriving its id from `(src, dst, etype)` and seeding a
    /// single-observation validity at `first_seen`.
    pub fn new(src: NodeId, dst: NodeId, etype: EdgeType, first_seen: Timestamp) -> (e: Edge)
        ensures
            e.id == EdgeId::of_spec(src, dst, etype),
            e.src == src,
            e.dst == dst,
            e.etype == etype,
            e.validity == single(first_seen.0),
            e.weight_bits == UNIT_WEIGHT_BITS,
            e.props@ == Map::<Seq<char>, Seq<char>>::empty(),
    {
        Edge {
            id: EdgeId::of(src, dst, etype),
            src,
            dst,
            etype,
            validity: Validity::at(first_seen),
            weight_bits: UNIT_WEIGHT_BITS,
            props: StrMap::new(),
        }
    }

    /// Attach a property, returning `self` for builder-style construction.
    pub fn with_prop(self, key: &str, value: &str) -> (e: Edge)
        ensures
            e.id == self.id && e.src == self.src && e.dst == self.dst && e.etype == self.etype
                && e.validity == self.validity && e.weight_bits == self.weight_bits,
            e.props@ == self.props@.insert(key@, value@),
    {
        let mut e = self;
        e.props.insert(crate::text::owned(key), crate::text::owned(value));
        e
    }

    /// Record another occurrence of this relationship at `at`.
    pub fn observe(&mut self, at: Timestamp)
        requires
            old(self).validity.event_count < u64::MAX,
        ensures
            final(self).validity == crate::time::observed(old(self).validity, at.0),
            final(self).id == old(self).id && final(self).src == old(self).src && final(self).dst
                == old(self).dst && final(self).etype == old(self).etype && final(self).weight_bits
                == old(self).weight_bits && final(self).props == old(self).props,
    {
        self.validity.observe(at);
    }
}

} // verus!

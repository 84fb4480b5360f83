//! Content-addressed identifiers.
//!
//! [`NodeId`] and [`EdgeId`] are deterministic 64-bit xxh64 hashes of an
//! entity's identity (kind + canonical key) or of a relationship's
//! `(src, dst, etype)` triple. [`EventId`] is an externally assigned id.

use vstd::prelude::*;
use vstd::utf8::encode_utf8;

use crate::edge::EdgeType;
use crate::node::NodeKind;

verus! {

/// Fixed seed for all content-addressed hashing ("LogHound" as bytes).
pub const HASH_SEED: u64 = 0x4C6F_6748_6F75_6E64u64;

/// What `xxhash_rust::xxh64::xxh64` returns for `data` and `seed`.
pub uninterp spec fn xxh64_digest(data: Seq<u8>, seed: u64) -> u64;

/// `xxhash_rust::xxh64::xxh64`: the 64-bit xxHash of `data` under `seed`.
/// Its value is a fixed function of the two arguments, named here and not
/// restated.
#[verifier::external_body]
fn xxh64(data: &[u8], seed: u64) -> (h: u64)
    ensures
        h == xxh64_digest(data@, seed),
{
    xxhash_rust::xxh64::xxh64(data, seed)
}

/// The bytes hashed for a node: `kind ++ 0x00 ++ utf8(identity_key)`.
pub open spec fn node_preimage(kind: NodeKind, key: Seq<char>) -> Seq<u8> {
    seq![kind.code(), 0u8] + encode_utf8(key)
}

/// Little-endian bytes of a `u64` (`u64::to_le_bytes`).
pub open spec fn le_bytes(n: u64) -> Seq<u8> {
    Seq::new(8, |i: int| ((n >> ((8 * i) as u64)) & 0xff) as u8)
}

/// The bytes hashed for an edge: `le(src) ++ le(dst) ++ etype`.
pub open spec fn edge_preimage(src: u64, dst: u64, etype: EdgeType) -> Seq<u8> {
    le_bytes(src) + le_bytes(dst) + seq![etype.code()]
}

/// Deterministic identity of a graph node.
#[derive(Debug, Clone, Copy, PartialEq, Eq, Hash, PartialOrd, Ord)]
pub struct NodeId(pub u64);

/// Deterministic identity of an aggregated edge, unique per `(src, dst, etype)`.
#[derive(Debug, Clone, Copy, PartialEq, Eq, Hash, PartialOrd, Ord)]
pub struct EdgeId(pub u64);

/// An event identifier, assigned by the ingest pipeline.
#[derive(Debug, Clone, Copy, PartialEq, Eq, Hash, PartialOrd, Ord)]
pub struct EventId(pub u64);

fn push_le(buf: &mut Vec<u8>, n: u64)
    ensures
        final(buf)@ == old(buf)@ + le_bytes(n),
{
    let ghost start = buf@;
    let mut i: u64 = 0;
    while i < 8
        invariant
            i <= 8,
            buf@ == start + le_bytes(n).take(i as int),
        decreases 8 - i,
    {
        buf.push(((n >> (8 * i)) & 0xff) as u8);
        i = i + 1;
        assert(buf@ =~= start + le_bytes(n).take(i as int));
    }
    assert(le_bytes(n).take(8) =~= le_bytes(n));
}

impl NodeId {
    /// The id of `(kind, identity_key)`.
    pub open spec fn of_spec(kind: NodeKind, key: Seq<char>) -> NodeId {
        NodeId(xxh64_digest(node_preimage(kind, key), HASH_SEED))
    }

    /// `node_id = xxh64(kind ++ 0x00 ++ identity_key)`. The `0x00` separator
    /// keeps distinct `(kind, key)` pairs from hashing the same bytes.
    pub fn of(kind: NodeKind, identity_key: &str) -> (id: NodeId)
        ensures
            id.0 == xxh64_digest(node_preimage(kind, identity_key@), HASH_SEED),
    {
        let bytes = identity_key.as_bytes();
        let mut buf: Vec<u8> = Vec::new();
        buf.push(kind.as_u8());
        buf.push(0u8);
        let mut i: usize = 0;
        while i < bytes.len()
            invariant
                i <= bytes@.len(),
                bytes@ == encode_utf8(identity_key@),
                buf@ == seq![kind.code(), 0u8] + bytes@.take(i as int),
            decreases bytes.len() - i,
        {
            buf.push(bytes[i]);
            i = i + 1;
            assert(buf@ =~= seq![kind.code(), 0u8] + bytes@.take(i as int));
        }
        assert(bytes@.take(i as int) =~= bytes@);
        NodeId(xxh64(buf.as_slice(), HASH_SEED))
    }

    /// The raw 64-bit value.
    pub fn raw(self) -> (v: u64)
        ensures
            v == self.0,
    {
        self.0
    }
}

impl EdgeId {
    /// The id of `(src, dst, etype)`.
    pub open spec fn of_spec(src: NodeId, dst: NodeId, etype: EdgeType) -> EdgeId {
        EdgeId(xxh64_digest(edge_preimage(src.0, dst.0, etype), HASH_SEED))
    }

    /// `edge_id = xxh64(le(src) ++ le(dst) ++ etype)`.
    pub fn of(src: NodeId, dst: NodeId, etype: EdgeType) -> (id: EdgeId)
        ensures
            id.0 == xxh64_digest(edge_preimage(src.0, dst.0, etype), HASH_SEED),
    {
        let mut buf: Vec<u8> = Vec::new();
        push_le(&mut buf, src.0);
        push_le(&mut buf, dst.0);
        buf.push(etype.as_u8());
        assert(buf@ =~= edge_preimage(src.0, dst.0, etype));
        EdgeId(xxh64(buf.as_slice(), HASH_SEED))
    }

    /// The raw 64-bit value.
    pub fn raw(self) -> (v: u64)
        ensures
            v == self.0,
    {
        self.0
    }
}

impl EventId {
    /// Wrap a raw id.
    pub fn new(v: u64) -> (id: EventId)
        ensures
            id.0 == v,
    {
        EventId(v)
    }

    /// The raw 64-bit value.
    pub fn raw(self) -> (v: u64)
        ensures
            v == self.0,
    {
        self.0
    }
}

// ---------------------------------------------------------------------------
// Laws
// ---------------------------------------------------------------------------

/// Distinct `(kind, identity_key)` pairs hash distinct byte strings: the
/// separator keeps a kind byte from merging into the start of a key.
pub proof fn law_node_preimage_injective(k1: NodeKind, key1: Seq<char>, k2: NodeKind, key2: Seq<char>)
    requires
        node_preimage(k1, key1) == node_preimage(k2, key2),
    ensures
        k1 == k2,
        key1 == key2,
{
    broadcast use vstd::utf8::encode_utf8_decode_utf8;

    let p1 = node_preimage(k1, key1);
    assert(p1[0] == k1.code());
    assert(node_preimage(k2, key2)[0] == k2.code());
    crate::node::lemma_code_injective(k1, k2);
    assert(encode_utf8(key1) =~= p1.subrange(2, p1.len() as int));
    assert(encode_utf8(key2) =~= node_preimage(k2, key2).subrange(2, p1.len() as int));
    vstd::utf8::encode_utf8_decode_utf8(key1);
    vstd::utf8::encode_utf8_decode_utf8(key2);
}

proof fn lemma_le_bytes_injective(a: u64, b: u64)
    requires
        le_bytes(a) == le_bytes(b),
    ensures
        a == b,
{
    assert(le_bytes(a)[0] == ((a >> 0u64) & 0xff) as u8);
    assert(le_bytes(b)[0] == ((b >> 0u64) & 0xff) as u8);
    assert(le_bytes(a)[1] == ((a >> 8u64) & 0xff) as u8);
    assert(le_bytes(b)[1] == ((b >> 8u64) & 0xff) as u8);
    assert(le_bytes(a)[2] == ((a >> 16u64) & 0xff) as u8);
    assert(le_bytes(b)[2] == ((b >> 16u64) & 0xff) as u8);
    assert(le_bytes(a)[3] == ((a >> 24u64) & 0xff) as u8);
    assert(le_bytes(b)[3] == ((b >> 24u64) & 0xff) as u8);
    assert(le_bytes(a)[4] == ((a >> 32u64) & 0xff) as u8);
    assert(le_bytes(b)[4] == ((b >> 32u64) & 0xff) as u8);
    assert(le_bytes(a)[5] == ((a >> 40u64) & 0xff) as u8);
    assert(le_bytes(b)[5] == ((b >> 40u64) & 0xff) as u8);
    assert(le_bytes(a)[6] == ((a >> 48u64) & 0xff) as u8);
    assert(le_bytes(b)[6] == ((b >> 48u64) & 0xff) as u8);
    assert(le_bytes(a)[7] == ((a >> 56u64) & 0xff) as u8);
    assert(le_bytes(b)[7] == ((b >> 56u64) & 0xff) as u8);
    assert(((a >> 0u64) & 0xff) as u8 == ((b >> 0u64) & 0xff) as u8 && ((a >> 8u64) & 0xff) as u8 == ((b >> 8u64) & 0xff) as u8 && ((a >> 16u64) & 0xff) as u8 == ((b >> 16u64) & 0xff) as u8 && ((a >> 24u64) & 0xff) as u8 == ((b >> 24u64) & 0xff) as u8 && ((a >> 32u64) & 0xff) as u8 == ((b >> 32u64) & 0xff) as u8 && ((a >> 40u64) & 0xff) as u8 == ((b >> 40u64) & 0xff) as u8 && ((a >> 48u64) & 0xff) as u8 == ((b >> 48u64) & 0xff) as u8 && ((a >> 56u64) & 0xff) as u8 == ((b >> 56u64) & 0xff) as u8);
    assert((((a >> 0u64) & 0xff) as u8 == ((b >> 0u64) & 0xff) as u8 && ((a >> 8u64) & 0xff) as u8 == ((b >> 8u64) & 0xff) as u8 && ((a >> 16u64) & 0xff) as u8 == ((b >> 16u64) & 0xff) as u8 && ((a >> 24u64) & 0xff) as u8 == ((b >> 24u64) & 0xff) as u8 && ((a >> 32u64) & 0xff) as u8 == ((b >> 32u64) & 0xff) as u8 && ((a >> 40u64) & 0xff) as u8 == ((b >> 40u64) & 0xff) as u8 && ((a >> 48u64) & 0xff) as u8 == ((b >> 48u64) & 0xff) as u8 && ((a >> 56u64) & 0xff) as u8 == ((b >> 56u64) & 0xff) as u8) ==> a == b) by (bit_vector);
}

/// Distinct `(src, dst, etype)` triples hash distinct byte strings; in
/// particular an edge and its reverse do.
pub proof fn law_edge_preimage_injective(
    s1: u64,
    d1: u64,
    t1: EdgeType,
    s2: u64,
    d2: u64,
    t2: EdgeType,
)
    requires
        edge_preimage(s1, d1, t1) == edge_preimage(s2, d2, t2),
    ensures
        s1 == s2,
        d1 == d2,
        t1 == t2,
{
    let p = edge_preimage(s1, d1, t1);
    let q = edge_preimage(s2, d2, t2);
    assert(le_bytes(s1) =~= p.subrange(0, 8));
    assert(le_bytes(s2) =~= q.subrange(0, 8));
    assert(le_bytes(d1) =~= p.subrange(8, 16));
    assert(le_bytes(d2) =~= q.subrange(8, 16));
    lemma_le_bytes_injective(s1, s2);
    lemma_le_bytes_injective(d1, d2);
    assert(p[16] == t1.code());
    assert(q[16] == t2.code());
    crate::edge::lemma_code_injective(t1, t2);
}

} // verus!

//! The in-memory graph index: an immutable compressed-sparse-row (CSR)
//! snapshot for fast, time-aware traversal.
//!
//! The snapshot stores topology, validity intervals and risk as parallel
//! arrays. Nodes get dense indices `0..n`; edge "slots" `0..m` are grouped by
//! source node (forward CSR) and indexed again by destination (reverse CSR).
//! Node ids are resolved to dense indices through an `ahash::AHashMap`.

mod components;
mod degree;
pub mod proximity;

use vstd::prelude::*;

use ahash::AHashMap;

use crate::edge::{Edge, EdgeType};
use crate::group::{cnt_eq, cnt_lt, group, group_by_key, keys_below, lemma_group};
use crate::ids::{EdgeId, NodeId};
use crate::node::{Node, NodeKind};
use crate::time::Timestamp;

verus! {

// ---------------------------------------------------------------------------
// The id → dense index map (an `ahash::AHashMap<u64, usize>`)
// ---------------------------------------------------------------------------

#[verifier::external_type_specification]
#[verifier::external_body]
#[verifier::reject_recursive_types(K)]
#[verifier::reject_recursive_types(V)]
#[verifier::reject_recursive_types(S)]
pub struct ExAHashMap<K, V, S>(AHashMap<K, V, S>);

#[verifier::external_type_specification]
#[verifier::external_body]
pub struct ExRandomState(ahash::RandomState);

/// An `ahash` map from node ids to dense indices.
pub type IdMap = AHashMap<u64, usize>;

/// The key/value contents of a dense-index map.
pub uninterp spec fn id_map_contents(m: IdMap) -> Map<u64, usize>;

/// `AHashMap::with_capacity`: an empty map (the capacity is only a hint).
#[verifier::external_body]
fn id_map_with_capacity(capacity: usize) -> (m: IdMap)
    ensures
        forall|k: u64| !id_map_contents(m).contains_key(k),
{
    AHashMap::with_capacity(capacity)
}

/// `AHashMap::insert`: afterwards `k` maps to `v`; other keys are unchanged.
#[verifier::external_body]
fn id_map_insert(m: &mut IdMap, k: u64, v: usize)
    ensures
        id_map_contents(*final(m)) == id_map_contents(*old(m)).insert(k, v),
{
    m.insert(k, v);
}

/// `AHashMap::get`: the value stored under `k`, if any.
#[verifier::external_body]
fn id_map_get(m: &IdMap, k: u64) -> (r: Option<usize>)
    ensures
        r == (if id_map_contents(*m).contains_key(k) {
            Some(id_map_contents(*m)[k])
        } else {
            None
        }),
{
    m.get(&k).copied()
}

/// The map from each id to the position of its last occurrence in `ids`.
pub open spec fn dense_map(ids: Seq<u64>) -> Map<u64, usize>
    decreases ids.len(),
{
    if ids.len() == 0 {
        Map::empty()
    } else {
        dense_map(ids.drop_last()).insert(ids.last(), (ids.len() - 1) as usize)
    }
}

/// `dense_map` sends each id to a position holding that id, and knows
/// exactly the ids that occur.
pub proof fn lemma_dense_map(ids: Seq<u64>)
    requires
        ids.len() <= usize::MAX,
    ensures
        forall|k: u64| #[trigger]
            dense_map(ids).contains_key(k) ==> dense_map(ids)[k] < ids.len() && ids[dense_map(
                ids,
            )[k] as int] == k,
        forall|i: int| 0 <= i < ids.len() ==> dense_map(ids).contains_key(#[trigger] ids[i]),
    decreases ids.len(),
{
    if ids.len() > 0 {
        let p = ids.drop_last();
        lemma_dense_map(p);
        assert forall|k: u64| #[trigger]
            dense_map(ids).contains_key(k) implies dense_map(ids)[k] < ids.len() && ids[dense_map(
                ids,
            )[k] as int] == k by {
            if k != ids.last() {
                assert(p[dense_map(p)[k] as int] == ids[dense_map(p)[k] as int]);
            }
        }
        assert forall|i: int| 0 <= i < ids.len() implies dense_map(ids).contains_key(
            #[trigger] ids[i],
        ) by {
            if i < ids.len() - 1 {
                assert(p[i] == ids[i]);
            }
        }
    }
}

// ---------------------------------------------------------------------------
// Traversal options and results
// ---------------------------------------------------------------------------

/// Traversal direction relative to edge orientation.
#[derive(Debug, Clone, Copy, PartialEq, Eq, Structural)]
pub enum Dir {
    Out,
    In,
    Both,
}

/// A bitmask over [`EdgeType`] discriminants (22 types fit in a `u32`).
#[derive(Debug, Clone, Copy, PartialEq, Eq, Structural)]
pub struct EdgeTypeMask(pub u32);

/// The bits of a mask built from `ts`: the OR of `1 << code` over its types.
pub open spec fn mask_bits(ts: Seq<EdgeType>) -> u32
    decreases ts.len(),
{
    if ts.len() == 0 {
        0
    } else {
        mask_bits(ts.drop_last()) | (1u32 << ts.last().code())
    }
}

/// Only the bits of the edge-type codes (below 22) may be set.
pub open spec fn code_bits_only(bits: u32) -> bool {
    bits < (1u32 << 22u32)
}

/// Bit `code` of `bits` is set.
pub open spec fn bit_set(bits: u32, code: u8) -> bool {
    bits & (1u32 << code) != 0
}

impl EdgeTypeMask {
    /// `t` is in the mask.
    pub open spec fn has(self, t: EdgeType) -> bool {
        bit_set(self.0, t.code())
    }

    /// The empty mask.
    pub fn none() -> (m: EdgeTypeMask)
        ensures
            m.0 == 0,
            forall|t: EdgeType| !m.has(t),
    {
        proof {
            assert forall|t: EdgeType| !EdgeTypeMask(0).has(t) by {
                let c = t.code();
                assert(0u32 & (1u32 << c) == 0) by (bit_vector);
            }
        }
        EdgeTypeMask(0)
    }

    /// The mask holding exactly the given types.
    pub fn of(types: &[EdgeType]) -> (m: EdgeTypeMask)
        ensures
            m.0 == mask_bits(types@),
            code_bits_only(m.0),
            forall|t: EdgeType| m.has(t) <==> types@.contains(t),
    {
        let mut bits: u32 = 0;
        let mut i: usize = 0;
        proof {
            assert(types@.take(0) =~= Seq::<EdgeType>::empty());
            assert(0u32 < (1u32 << 22u32)) by (bit_vector);
            assert forall|t: EdgeType| !bit_set(0, t.code()) by {
                let c = t.code();
                assert(0u32 & (1u32 << c) == 0) by (bit_vector);
            }
        }
        while i < types.len()
            invariant
                i <= types@.len(),
                bits == mask_bits(types@.take(i as int)),
                code_bits_only(bits),
                forall|t: EdgeType| bit_set(bits, t.code()) <==> types@.take(i as int).contains(t),
            decreases types.len() - i,
        {
            let c = types[i].as_u8();
            let old_bits = bits;
            bits = bits | (1u32 << c);
            proof {
                assert(types@.take(i + 1) =~= types@.take(i as int).push(types@[i as int]));
                assert(types@.take(i + 1).drop_last() =~= types@.take(i as int));
                assert(c < 22);
                assert(old_bits < (1u32 << 22u32) ==> (old_bits | (1u32 << c)) < (1u32 << 22u32)) by (bit_vector)
                    requires
                        c < 22,
                ;
                assert forall|t: EdgeType| bit_set(bits, t.code()) <==> types@.take(
                    i + 1,
                ).contains(t) by {
                    let d = t.code();
                    if c == d {
                        crate::edge::lemma_code_injective(t, types@[i as int]);
                    }
                    assert(c < 22 && d < 22);
                    assert((old_bits | (1u32 << c)) & (1u32 << d) != 0 <==> (old_bits & (1u32
                        << d) != 0 || c == d)) by (bit_vector)
                        requires
                            c < 22,
                            d < 22,
                    ;
                    if types@.take(i + 1).contains(t) && t != types@[i as int] {
                        let k = choose|k: int| 0 <= k < i + 1 && #[trigger] types@.take(i + 1)[k] == t;
                        assert(types@.take(i as int)[k] == t);
                    }
                    if types@.take(i as int).contains(t) {
                        let k = choose|k: int| 0 <= k < i && #[trigger] types@.take(i as int)[k] == t;
                        assert(types@.take(i + 1)[k] == t);
                    }
                    if t == types@[i as int] {
                        assert(types@.take(i + 1)[i as int] == t);
                    }
                }
            }
            i = i + 1;
        }
        assert(types@.take(types@.len() as int) =~= types@);
        EdgeTypeMask(bits)
    }

    /// `true` iff `t` is in the mask.
    pub fn contains(self, t: EdgeType) -> (b: bool)
        ensures
            b == self.has(t),
    {
        self.0 & (1u32 << t.as_u8()) != 0
    }
}

/// A mask with only edge-type bits set is determined by its members: two
/// such masks that hold the same types are equal. So `of` gives equal masks
/// for lists with the same types, and `of` of no types is `none()`.
pub proof fn law_mask_determined_by_members(a: EdgeTypeMask, b: EdgeTypeMask)
    requires
        code_bits_only(a.0),
        code_bits_only(b.0),
        forall|t: EdgeType| a.has(t) == b.has(t),
    ensures
        a == b,
{
    assert forall|c: u8| c < 22 implies #[trigger] bit_set(a.0, c) == bit_set(b.0, c) by {
        crate::edge::lemma_code_complete(c);
        let k = crate::edge::edgetype_of_code(c)->Some_0;
        assert(a.has(k) == b.has(k));
    }
    assert(bit_set(a.0, 0u8) == bit_set(b.0, 0u8));
    assert(bit_set(a.0, 1u8) == bit_set(b.0, 1u8));
    assert(bit_set(a.0, 2u8) == bit_set(b.0, 2u8));
    assert(bit_set(a.0, 3u8) == bit_set(b.0, 3u8));
    assert(bit_set(a.0, 4u8) == bit_set(b.0, 4u8));
    assert(bit_set(a.0, 5u8) == bit_set(b.0, 5u8));
    assert(bit_set(a.0, 6u8) == bit_set(b.0, 6u8));
    assert(bit_set(a.0, 7u8) == bit_set(b.0, 7u8));
    assert(bit_set(a.0, 8u8) == bit_set(b.0, 8u8));
    assert(bit_set(a.0, 9u8) == bit_set(b.0, 9u8));
    assert(bit_set(a.0, 10u8) == bit_set(b.0, 10u8));
    assert(bit_set(a.0, 11u8) == bit_set(b.0, 11u8));
    assert(bit_set(a.0, 12u8) == bit_set(b.0, 12u8));
    assert(bit_set(a.0, 13u8) == bit_set(b.0, 13u8));
    assert(bit_set(a.0, 14u8) == bit_set(b.0, 14u8));
    assert(bit_set(a.0, 15u8) == bit_set(b.0, 15u8));
    assert(bit_set(a.0, 16u8) == bit_set(b.0, 16u8));
    assert(bit_set(a.0, 17u8) == bit_set(b.0, 17u8));
    assert(bit_set(a.0, 18u8) == bit_set(b.0, 18u8));
    assert(bit_set(a.0, 19u8) == bit_set(b.0, 19u8));
    assert(bit_set(a.0, 20u8) == bit_set(b.0, 20u8));
    assert(bit_set(a.0, 21u8) == bit_set(b.0, 21u8));
    let x = a.0;
    let y = b.0;
    assert(x == y) by (bit_vector)
        requires
            x < (1u32 << 22u32),
            y < (1u32 << 22u32),
            ((x & (1u32 << 0u8)) != 0) == ((y & (1u32 << 0u8)) != 0),
            ((x & (1u32 << 1u8)) != 0) == ((y & (1u32 << 1u8)) != 0),
            ((x & (1u32 << 2u8)) != 0) == ((y & (1u32 << 2u8)) != 0),
            ((x & (1u32 << 3u8)) != 0) == ((y & (1u32 << 3u8)) != 0),
            ((x & (1u32 << 4u8)) != 0) == ((y & (1u32 << 4u8)) != 0),
            ((x & (1u32 << 5u8)) != 0) == ((y & (1u32 << 5u8)) != 0),
            ((x & (1u32 << 6u8)) != 0) == ((y & (1u32 << 6u8)) != 0),
            ((x & (1u32 << 7u8)) != 0) == ((y & (1u32 << 7u8)) != 0),
            ((x & (1u32 << 8u8)) != 0) == ((y & (1u32 << 8u8)) != 0),
            ((x & (1u32 << 9u8)) != 0) == ((y & (1u32 << 9u8)) != 0),
            ((x & (1u32 << 10u8)) != 0) == ((y & (1u32 << 10u8)) != 0),
            ((x & (1u32 << 11u8)) != 0) == ((y & (1u32 << 11u8)) != 0),
            ((x & (1u32 << 12u8)) != 0) == ((y & (1u32 << 12u8)) != 0),
            ((x & (1u32 << 13u8)) != 0) == ((y & (1u32 << 13u8)) != 0),
            ((x & (1u32 << 14u8)) != 0) == ((y & (1u32 << 14u8)) != 0),
            ((x & (1u32 << 15u8)) != 0) == ((y & (1u32 << 15u8)) != 0),
            ((x & (1u32 << 16u8)) != 0) == ((y & (1u32 << 16u8)) != 0),
            ((x & (1u32 << 17u8)) != 0) == ((y & (1u32 << 17u8)) != 0),
            ((x & (1u32 << 18u8)) != 0) == ((y & (1u32 << 18u8)) != 0),
            ((x & (1u32 << 19u8)) != 0) == ((y & (1u32 << 19u8)) != 0),
            ((x & (1u32 << 20u8)) != 0) == ((y & (1u32 << 20u8)) != 0),
            ((x & (1u32 << 21u8)) != 0) == ((y & (1u32 << 21u8)) != 0),
    ;
}

/// Options controlling a traversal.
#[derive(Debug, Clone, Copy)]
pub struct TraversalOpts {
    /// Optional inclusive time window `[lo, hi]`; edges must overlap it.
    pub time: Option<(Timestamp, Timestamp)>,
    /// Optional edge-type filter; `None` means all types.
    pub etypes: Option<EdgeTypeMask>,
    pub max_hops: u32,
    pub direction: Dir,
}

impl Default for TraversalOpts {
    fn default() -> (o: TraversalOpts)
        ensures
            o.time is None,
            o.etypes is None,
            o.max_hops == 1,
            o.direction == Dir::Both,
    {
        TraversalOpts { time: None, etypes: None, max_hops: 1, direction: Dir::Both }
    }
}

/// Edges are followed from source to destination.
pub open spec fn follows_out(d: Dir) -> bool {
    d == Dir::Out || d == Dir::Both
}

/// Edges are followed from destination to source.
pub open spec fn follows_in(d: Dir) -> bool {
    d == Dir::In || d == Dir::Both
}

/// A lightweight node projection returned by traversals.
#[derive(Debug, Clone, Copy, PartialEq)]
pub struct NodeView {
    pub id: NodeId,
    pub kind: NodeKind,
    pub first_seen: Timestamp,
    pub last_seen: Timestamp,
    /// The node's risk (an `f32`, as its IEEE-754 bits).
    pub risk_bits: u32,
}

/// A lightweight edge projection returned by traversals.
#[derive(Debug, Clone, Copy, PartialEq)]
pub struct EdgeView {
    pub id: EdgeId,
    pub src: NodeId,
    pub dst: NodeId,
    pub etype: EdgeType,
    pub first_seen: Timestamp,
    pub last_seen: Timestamp,
    pub event_count: u64,
    /// The edge weight (an `f32`, as its IEEE-754 bits).
    pub weight_bits: u32,
}

/// The view of a node record.
pub open spec fn view_of_node(n: Node) -> NodeView {
    NodeView {
        id: n.id,
        kind: n.kind,
        first_seen: n.validity.first_seen,
        last_seen: n.validity.last_seen,
        risk_bits: n.risk_bits,
    }
}

/// The view of an edge record.
pub open spec fn view_of_edge(e: Edge) -> EdgeView {
    EdgeView {
        id: e.id,
        src: e.src,
        dst: e.dst,
        etype: e.etype,
        first_seen: e.validity.first_seen,
        last_seen: e.validity.last_seen,
        event_count: e.validity.event_count,
        weight_bits: e.weight_bits,
    }
}

/// The materialized result of a neighborhood/path traversal.
#[derive(Debug, Clone, PartialEq)]
pub struct Subgraph {
    pub nodes: Vec<NodeView>,
    pub edges: Vec<EdgeView>,
}

impl Default for Subgraph {
    fn default() -> (s: Subgraph)
        ensures
            s.nodes@.len() == 0,
            s.edges@.len() == 0,
    {
        Subgraph { nodes: Vec::new(), edges: Vec::new() }
    }
}

// ---------------------------------------------------------------------------
// Which edges a snapshot keeps
// ---------------------------------------------------------------------------

/// The view of dense node `d` over the snapshot's raw arrays.
pub open spec fn node_view_raw(
    node_id: Seq<u64>,
    node_kind: Seq<NodeKind>,
    node_first: Seq<i64>,
    node_last: Seq<i64>,
    node_risk_bits: Seq<u32>,
    d: int,
) -> NodeView {
    NodeView {
        id: NodeId(node_id[d]),
        kind: node_kind[d],
        first_seen: Timestamp(node_first[d]),
        last_seen: Timestamp(node_last[d]),
        risk_bits: node_risk_bits[d],
    }
}

/// The view of edge slot `e` over the snapshot's raw arrays.
pub open spec fn slot_view(
    node_id: Seq<u64>,
    col_dst: Seq<usize>,
    edge_src: Seq<usize>,
    edge_id: Seq<u64>,
    edge_type: Seq<EdgeType>,
    edge_first: Seq<i64>,
    edge_last: Seq<i64>,
    edge_count: Seq<u64>,
    edge_weight_bits: Seq<u32>,
    e: int,
) -> EdgeView {
    EdgeView {
        id: EdgeId(edge_id[e]),
        src: NodeId(node_id[edge_src[e] as int]),
        dst: NodeId(node_id[col_dst[e] as int]),
        etype: edge_type[e],
        first_seen: Timestamp(edge_first[e]),
        last_seen: Timestamp(edge_last[e]),
        event_count: edge_count[e],
        weight_bits: edge_weight_bits[e],
    }
}

/// The hop bound of a reachability query: `max_hops`, but at least `u32::MAX / 2`.
pub open spec fn reach_bound(max_hops: u32) -> nat {
    if max_hops >= u32::MAX / 2 {
        max_hops as nat
    } else {
        (u32::MAX / 2) as nat
    }
}

/// `e` occurs in segment `v` (`offs[v] .. offs[v + 1]`) of `refs`.
pub open spec fn listed_in(offs: Seq<usize>, refs: Seq<usize>, v: int, e: int) -> bool {
    exists|k: int| offs[v] <= k < offs[v + 1] && #[trigger] refs[k] == e
}

/// Dense index `d` is the one its id resolves to under `dm`.
pub open spec fn canon_in(dm: Map<u64, usize>, ids: Seq<u64>, d: int) -> bool {
    0 <= d < ids.len() && dm.contains_key(ids[d]) && dm[ids[d]] == d
}

/// The raw ids of a node list.
pub open spec fn node_ids(nodes: Seq<Node>) -> Seq<u64> {
    nodes.map_values(|n: Node| n.id.0)
}

/// An edge is kept when both endpoints are known nodes.
pub open spec fn edge_known(dm: Map<u64, usize>, e: Edge) -> bool {
    dm.contains_key(e.src.0) && dm.contains_key(e.dst.0)
}

/// The positions of the kept edges, in input order.
pub open spec fn kept(dm: Map<u64, usize>, edges: Seq<Edge>) -> Seq<int>
    decreases edges.len(),
{
    if edges.len() == 0 {
        Seq::empty()
    } else {
        let k = kept(dm, edges.drop_last());
        if edge_known(dm, edges.last()) {
            k.push(edges.len() - 1)
        } else {
            k
        }
    }
}

/// The dense source index of each kept edge.
pub open spec fn kept_src(dm: Map<u64, usize>, edges: Seq<Edge>) -> Seq<usize> {
    kept(dm, edges).map_values(|j: int| dm[edges[j].src.0])
}

/// The dense destination index of each kept edge.
pub open spec fn kept_dst(dm: Map<u64, usize>, edges: Seq<Edge>) -> Seq<usize> {
    kept(dm, edges).map_values(|j: int| dm[edges[j].dst.0])
}

/// `kept` lists exactly the known edges, in increasing position order.
pub proof fn lemma_kept(dm: Map<u64, usize>, edges: Seq<Edge>)
    ensures
        forall|t: int|
            0 <= t < kept(dm, edges).len() ==> 0 <= #[trigger] kept(dm, edges)[t] < edges.len()
                && edge_known(dm, edges[kept(dm, edges)[t]]),
        forall|j: int|
            0 <= j < edges.len() && edge_known(dm, edges[j]) ==> exists|t: int|
                0 <= t < kept(dm, edges).len() && #[trigger] kept(dm, edges)[t] == j,
        kept(dm, edges).len() <= edges.len(),
    decreases edges.len(),
{
    if edges.len() > 0 {
        let p = edges.drop_last();
        lemma_kept(dm, p);
        assert forall|t: int| 0 <= t < kept(dm, edges).len() implies 0 <= #[trigger] kept(
            dm,
            edges,
        )[t] < edges.len() && edge_known(dm, edges[kept(dm, edges)[t]]) by {
            if t < kept(dm, p).len() {
                assert(p[kept(dm, p)[t]] == edges[kept(dm, p)[t]]);
            }
        }
        assert forall|j: int| 0 <= j < edges.len() && edge_known(dm, edges[j]) implies exists|t: int|
            0 <= t < kept(dm, edges).len() && #[trigger] kept(dm, edges)[t] == j by {
            if j < edges.len() - 1 {
                assert(p[j] == edges[j]);
                let t = choose|t: int| 0 <= t < kept(dm, p).len() && #[trigger] kept(dm, p)[t] == j;
                assert(kept(dm, edges)[t] == j);
            } else {
                assert(kept(dm, edges)[kept(dm, edges).len() - 1] == j);
            }
        }
    }
}

// ---------------------------------------------------------------------------
// The snapshot
// ---------------------------------------------------------------------------

/// Immutable compressed-sparse-row snapshot of the temporal graph.
#[derive(Debug)]
pub struct CsrSnapshot {
    // dense node arrays (index = dense id in 0..n)
    node_id: Vec<u64>,
    node_kind: Vec<NodeKind>,
    node_first: Vec<i64>,
    node_last: Vec<i64>,
    node_risk_bits: Vec<u32>,
    // forward CSR; edge attribute arrays are aligned to forward slot order
    row_offsets: Vec<usize>,
    col_dst: Vec<usize>,
    edge_src: Vec<usize>,
    edge_id: Vec<u64>,
    edge_type: Vec<EdgeType>,
    edge_first: Vec<i64>,
    edge_last: Vec<i64>,
    edge_count: Vec<u64>,
    edge_weight_bits: Vec<u32>,
    // reverse CSR: for each dense node, its incoming edges (by forward slot)
    rev_offsets: Vec<usize>,
    rev_src: Vec<usize>,
    rev_edge_ref: Vec<usize>,
    dense_of_id: IdMap,
}

impl CsrSnapshot {
    /// Number of nodes.
    pub closed spec fn nc(&self) -> int {
        self.node_id@.len() as int
    }

    /// Number of edge slots.
    pub closed spec fn ec(&self) -> int {
        self.col_dst@.len() as int
    }

    /// The id → dense index map.
    pub closed spec fn ids(&self) -> Map<u64, usize> {
        id_map_contents(self.dense_of_id)
    }

    /// Dense source of edge slot `e`.
    pub closed spec fn src_of(&self, e: int) -> int {
        self.edge_src@[e] as int
    }

    /// Dense destination of edge slot `e`.
    pub closed spec fn dst_of(&self, e: int) -> int {
        self.col_dst@[e] as int
    }

    /// The first slot of node `u`'s out-edges.
    pub closed spec fn row(&self, u: int) -> int {
        self.row_offsets@[u] as int
    }

    /// The view of dense node `d`.
    pub closed spec fn node_at(&self, d: int) -> NodeView {
        node_view_raw(
            self.node_id@,
            self.node_kind@,
            self.node_first@,
            self.node_last@,
            self.node_risk_bits@,
            d,
        )
    }

    /// The view of edge slot `e`.
    pub closed spec fn edge_at(&self, e: int) -> EdgeView {
        slot_view(
            self.node_id@,
            self.col_dst@,
            self.edge_src@,
            self.edge_id@,
            self.edge_type@,
            self.edge_first@,
            self.edge_last@,
            self.edge_count@,
            self.edge_weight_bits@,
            e,
        )
    }

    /// Dense node `d` is the one its id resolves to.
    pub closed spec fn canonical(&self, d: int) -> bool {
        0 <= d < self.nc() && self.ids().contains_key(self.node_id@[d]) && self.ids()[self.node_id@[d]]
            == d
    }

    /// Edge slot `row(u) + t` holds the `t`-th kept edge (in input order) whose
    /// source is dense node `u`.
    #[verifier::opaque]
    pub open spec fn slots_match(&self, edges: Seq<Edge>) -> bool {
        forall|u: int, t: int|
            0 <= u < self.nc() && 0 <= t < cnt_eq(kept_src(self.ids(), edges), u) ==> self.edge_at(
                self.row(u) + t,
            ) == view_of_edge(
                edges[kept(self.ids(), edges)[#[trigger] group(kept_src(self.ids(), edges), u)[t]]],
            )
    }

    /// Dense node `d` shows `nodes[d]`, and ids resolve to last occurrences.
    #[verifier::opaque]
    pub open spec fn nodes_match(&self, nodes: Seq<Node>) -> bool {
        &&& self.nc() == nodes.len()
        &&& self.ids() == dense_map(node_ids(nodes))
        &&& forall|d: int| 0 <= d < nodes.len() ==> #[trigger] self.node_at(d) == view_of_node(nodes[d])
    }

    /// Dense node `u` has one out-slot per kept edge whose source is `u`.
    pub open spec fn rows_count(&self, edges: Seq<Edge>) -> bool {
        forall|u: int| 0 <= u < self.nc() ==> self.row(u + 1) - self.row(u) == #[trigger] cnt_eq(kept_src(self.ids(), edges), u)
    }

    /// The node arrays and forward CSR arrays are consistent over node ids `ids`.
    #[verifier::opaque]
    closed spec fn fwd_ok(&self, ids: Seq<u64>) -> bool {
        let dm = dense_map(ids);
        &&& ids.len() < usize::MAX
        &&& self.node_id@ == ids
        &&& self.node_kind@.len() == ids.len() && self.node_first@.len() == ids.len()
            && self.node_last@.len() == ids.len() && self.node_risk_bits@.len() == ids.len()
        &&& self.ids() == dm
        &&& forall|k: u64| #[trigger]
            dm.contains_key(k) ==> dm[k] < ids.len() && ids[dm[k] as int] == k
        &&& self.row_offsets@.len() == ids.len() + 1
        &&& self.row_offsets@[0] == 0
        &&& self.row_offsets@[ids.len() as int] == self.col_dst@.len()
        &&& forall|a: int, b: int|
            0 <= a <= b <= ids.len() ==> self.row_offsets@[a] <= self.row_offsets@[b]
        &&& self.edge_src@.len() == self.col_dst@.len() && self.edge_id@.len() == self.col_dst@.len()
            && self.edge_type@.len() == self.col_dst@.len() && self.edge_first@.len()
            == self.col_dst@.len() && self.edge_last@.len() == self.col_dst@.len()
            && self.edge_count@.len() == self.col_dst@.len() && self.edge_weight_bits@.len()
            == self.col_dst@.len()
        &&& forall|w: int, e: int|
            #![trigger self.row_offsets@[w], self.edge_src@[e]]
            0 <= w < ids.len() && self.row_offsets@[w] <= e < self.row_offsets@[w + 1]
                ==> self.edge_src@[e] == w
        &&& forall|e: int|
            0 <= e < self.col_dst@.len() ==> canon_in(dm, ids, #[trigger] self.col_dst@[e] as int)
                && canon_in(dm, ids, self.edge_src@[e] as int)
    }

    /// Slot `e` is listed among the incoming edges of its destination.
    pub closed spec fn rev_has(&self, e: int) -> bool {
        listed_in(self.rev_offsets@, self.rev_edge_ref@, self.dst_of(e), e)
    }

    /// The structural invariant of a snapshot.
    #[verifier::opaque]
    pub closed spec fn wf(&self) -> bool {
        let n = self.nc();
        let m = self.ec();
        &&& self.node_kind@.len() == n && self.node_first@.len() == n && self.node_last@.len()
            == n && self.node_risk_bits@.len() == n
        &&& self.edge_src@.len() == m && self.edge_id@.len() == m && self.edge_type@.len() == m
            && self.edge_first@.len() == m && self.edge_last@.len() == m && self.edge_count@.len()
            == m && self.edge_weight_bits@.len() == m
        &&& self.row_offsets@.len() == n + 1 && self.rev_offsets@.len() == n + 1
        &&& self.rev_src@.len() == m && self.rev_edge_ref@.len() == m
        &&& self.row_offsets@[0] == 0 && self.row_offsets@[n] == m
        &&& self.rev_offsets@[0] == 0 && self.rev_offsets@[n] == m
        &&& forall|a: int, b: int|
            0 <= a <= b <= n ==> self.row_offsets@[a] <= self.row_offsets@[b]
        &&& forall|a: int, b: int|
            0 <= a <= b <= n ==> self.rev_offsets@[a] <= self.rev_offsets@[b]
        &&& forall|u: int, e: int|
            #![trigger self.row_offsets@[u], self.edge_src@[e]]
            0 <= u < n && self.row_offsets@[u] <= e < self.row_offsets@[u + 1]
                ==> self.edge_src@[e] == u
        &&& forall|e: int| 0 <= e < m ==> self.canonical(#[trigger] self.dst_of(e))
        &&& forall|e: int| 0 <= e < m ==> self.canonical(#[trigger] self.src_of(e))
        &&& forall|v: int, k: int|
            #![trigger self.rev_offsets@[v], self.rev_edge_ref@[k]]
            0 <= v < n && self.rev_offsets@[v] <= k < self.rev_offsets@[v + 1] ==> {
                let e = self.rev_edge_ref@[k] as int;
                0 <= e < m && self.col_dst@[e] == v && self.rev_src@[k] == self.edge_src@[e]
            }
        &&& forall|e: int|
            0 <= e < m ==> #[trigger] self.rev_has(e)
        &&& forall|k: u64| #[trigger]
            self.ids().contains_key(k) ==> self.canonical(self.ids()[k] as int)
        &&& forall|v: int|
            0 <= v < n ==> self.rev_offsets@[v + 1] - self.rev_offsets@[v] == #[trigger] cnt_eq(
                self.col_dst@,
                v,
            )
        &&& n < usize::MAX
    }

    /// The snapshot of no nodes and no edges.
    pub fn empty() -> (s: CsrSnapshot)
        ensures
            s.wf(),
            s.nc() == 0,
            s.ec() == 0,
    {
        proof {
            reveal(CsrSnapshot::wf);
        }
        let mut row_offsets: Vec<usize> = Vec::new();
        row_offsets.push(0);
        let mut rev_offsets: Vec<usize> = Vec::new();
        rev_offsets.push(0);
        CsrSnapshot {
            node_id: Vec::new(),
            node_kind: Vec::new(),
            node_first: Vec::new(),
            node_last: Vec::new(),
            node_risk_bits: Vec::new(),
            row_offsets,
            col_dst: Vec::new(),
            edge_src: Vec::new(),
            edge_id: Vec::new(),
            edge_type: Vec::new(),
            edge_first: Vec::new(),
            edge_last: Vec::new(),
            edge_count: Vec::new(),
            edge_weight_bits: Vec::new(),
            rev_offsets,
            rev_src: Vec::new(),
            rev_edge_ref: Vec::new(),
            dense_of_id: id_map_with_capacity(0),
        }
    }

    /// Number of nodes.
    pub fn node_count(&self) -> (n: usize)
        ensures
            n == self.nc(),
    {
        self.node_id.len()
    }

    /// Number of edges.
    pub fn edge_count(&self) -> (m: usize)
        ensures
            m == self.ec(),
    {
        self.col_dst.len()
    }

    /// Build a snapshot from the full node and edge sets. Edges referencing an
    /// unknown node are skipped. A node id that occurs twice resolves to its
    /// last occurrence.
    pub fn build(nodes: &[Node], edges: &[Edge]) -> (s: CsrSnapshot)
        requires
            nodes@.len() < usize::MAX,
        ensures
            s.wf(),
            s.nodes_match(nodes@),
            s.slots_match(edges@),
            s.ec() == kept(s.ids(), edges@).len(),
            s.rows_count(edges@),
    {
        let n = nodes.len();
        let ghost ids = node_ids(nodes@);
        let s0 = CsrSnapshot::skeleton(nodes);
        let ghost dm = dense_map(ids);
        let (kept_pos, keys, dsts) = kept_edges(&s0.dense_of_id, edges, Ghost(ids));
        let fwd = forward_arrays(edges, &kept_pos, &keys, &dsts, n, Ghost(dm), Ghost(ids));
        let ghost offs = fwd.0;
        let s1 = s0.with_forward(fwd, Ghost(edges@), Ghost(keys@), Ghost(dm), Ghost(ids));
        let s = s1.with_reverse(Ghost(ids));
        proof {
            assert(keys@.len() == kept(dm, edges@).len());
            lemma_nodes_match_same(&s0, &s1, nodes@);
            lemma_nodes_match_same(&s1, &s, nodes@);
            assert(s.row_offsets == offs);
            assert forall|u: int| 0 <= u < s.nc() implies s.row(u + 1) - s.row(u) == #[trigger] cnt_eq(kept_src(s.ids(), edges@), u) by {
                assert(offs@[u + 1] == offs@[u] + cnt_eq(keys@, u));
            }
        }
        s
    }
}

impl CsrSnapshot {
    /// A snapshot holding the nodes and the id map, with no edges yet.
    fn skeleton(nodes: &[Node]) -> (s: CsrSnapshot)
        requires
            nodes@.len() < usize::MAX,
        ensures
            s.node_id@ == node_ids(nodes@),
            s.node_kind@.len() == nodes@.len() && s.node_first@.len() == nodes@.len()
                && s.node_last@.len() == nodes@.len() && s.node_risk_bits@.len() == nodes@.len(),
            s.nodes_match(nodes@),
            s.ids() == dense_map(node_ids(nodes@)),
            forall|k: u64| #[trigger]
                dense_map(node_ids(nodes@)).contains_key(k) ==> dense_map(node_ids(nodes@))[k]
                    < nodes@.len() && node_ids(nodes@)[dense_map(node_ids(nodes@))[k] as int] == k,
    {
        let (node_id, node_kind, node_first, node_last, node_risk_bits, dense_of_id) = node_arrays(
            nodes,
        );
        let s = CsrSnapshot {
            node_id,
            node_kind,
            node_first,
            node_last,
            node_risk_bits,
            row_offsets: Vec::new(),
            col_dst: Vec::new(),
            edge_src: Vec::new(),
            edge_id: Vec::new(),
            edge_type: Vec::new(),
            edge_first: Vec::new(),
            edge_last: Vec::new(),
            edge_count: Vec::new(),
            edge_weight_bits: Vec::new(),
            rev_offsets: Vec::new(),
            rev_src: Vec::new(),
            rev_edge_ref: Vec::new(),
            dense_of_id,
        };
        proof {
            reveal(CsrSnapshot::nodes_match);
        }
        s
    }

    /// Install the forward CSR arrays.
    fn with_forward(
        self,
        fwd: (
            Vec<usize>,
            Vec<usize>,
            Vec<usize>,
            Vec<u64>,
            Vec<EdgeType>,
            Vec<i64>,
            Vec<i64>,
            Vec<u64>,
            Vec<u32>,
        ),
        Ghost(edges): Ghost<Seq<Edge>>,
        Ghost(keys): Ghost<Seq<usize>>,
        Ghost(dm): Ghost<Map<u64, usize>>,
        Ghost(ids): Ghost<Seq<u64>>,
    ) -> (s: CsrSnapshot)
        requires
            self.node_id@ == ids,
            ids.len() < usize::MAX,
            self.node_kind@.len() == ids.len() && self.node_first@.len() == ids.len()
                && self.node_last@.len() == ids.len() && self.node_risk_bits@.len() == ids.len(),
            self.ids() == dm,
            dm == dense_map(ids),
            forall|k: u64| #[trigger]
                dm.contains_key(k) ==> dm[k] < ids.len() && ids[dm[k] as int] == k,
            keys == kept_src(dm, edges),
            fwd.0@.len() == ids.len() + 1,
            fwd.0@[0] == 0,
            fwd.0@[ids.len() as int] == keys.len(),
            forall|a: int, b: int| 0 <= a <= b <= ids.len() ==> fwd.0@[a] <= fwd.0@[b],
            fwd.1@.len() == keys.len(),
            fwd.2@.len() == keys.len() && fwd.3@.len() == keys.len() && fwd.4@.len() == keys.len()
                && fwd.5@.len() == keys.len() && fwd.6@.len() == keys.len() && fwd.7@.len()
                == keys.len() && fwd.8@.len() == keys.len(),
            forall|w: int, e: int|
                #![trigger fwd.0@[w], fwd.2@[e]]
                0 <= w < ids.len() && fwd.0@[w] <= e < fwd.0@[w + 1] ==> fwd.2@[e] == w,
            forall|e: int|
                0 <= e < keys.len() ==> canon_in(dm, ids, #[trigger] fwd.1@[e] as int) && canon_in(
                    dm,
                    ids,
                    fwd.2@[e] as int,
                ),
            forall|w: int, t: int|
                0 <= w < ids.len() && 0 <= t < cnt_eq(keys, w) ==> slot_view(
                    ids,
                    fwd.1@,
                    fwd.2@,
                    fwd.3@,
                    fwd.4@,
                    fwd.5@,
                    fwd.6@,
                    fwd.7@,
                    fwd.8@,
                    fwd.0@[w] + t,
                ) == view_of_edge(edges[kept(dm, edges)[#[trigger] group(keys, w)[t]]]),
        ensures
            s.node_id == self.node_id && s.node_kind == self.node_kind && s.node_first
                == self.node_first && s.node_last == self.node_last && s.node_risk_bits
                == self.node_risk_bits && s.dense_of_id == self.dense_of_id,
            s.ids() == self.ids(),
            s.fwd_ok(ids),
            s.slots_match(edges),
            s.col_dst@.len() == keys.len(),
            s.row_offsets == fwd.0,
    {
        let s = CsrSnapshot {
            row_offsets: fwd.0,
            col_dst: fwd.1,
            edge_src: fwd.2,
            edge_id: fwd.3,
            edge_type: fwd.4,
            edge_first: fwd.5,
            edge_last: fwd.6,
            edge_count: fwd.7,
            edge_weight_bits: fwd.8,
            ..self
        };
        proof {
            reveal(CsrSnapshot::slots_match);
            reveal(CsrSnapshot::fwd_ok);
            assert(s.node_id == self.node_id && s.node_kind == self.node_kind && s.node_first
                == self.node_first && s.node_last == self.node_last && s.node_risk_bits
                == self.node_risk_bits && s.dense_of_id == self.dense_of_id);
            assert forall|u: int, t: int|
                0 <= u < s.nc() && 0 <= t < cnt_eq(kept_src(s.ids(), edges), u) implies s.edge_at(
                s.row(u) + t,
            ) == view_of_edge(
                edges[kept(s.ids(), edges)[#[trigger] group(kept_src(s.ids(), edges), u)[t]]],
            ) by {
                assert(group(keys, u)[t] == group(kept_src(s.ids(), edges), u)[t]);
            }
        }
        s
    }

    /// Install the reverse CSR arrays, computed from the forward ones.
    fn with_reverse(self, Ghost(ids): Ghost<Seq<u64>>) -> (s: CsrSnapshot)
        requires
            self.fwd_ok(ids),
        ensures
            s.node_id == self.node_id && s.node_kind == self.node_kind && s.node_first
                == self.node_first && s.node_last == self.node_last && s.node_risk_bits
                == self.node_risk_bits && s.dense_of_id == self.dense_of_id,
            forall|es: Seq<Edge>| #[trigger] s.slots_match(es) == self.slots_match(es),
            s.ids() == self.ids(),
            s.ec() == self.ec(),
            s.row_offsets == self.row_offsets,
            s.edge_src == self.edge_src,
            s.wf(),
    {
        proof {
            reveal(CsrSnapshot::fwd_ok);
            assert(keys_below(self.col_dst@, self.node_id@.len() as int)) by {
                assert forall|j: int| 0 <= j < self.col_dst@.len() implies self.col_dst@[j]
                    < self.node_id@.len() by {
                    assert(canon_in(dense_map(ids), ids, self.col_dst@[j] as int));
                }
            }
        }
        let rev = reverse_arrays(&self.col_dst, &self.edge_src, self.node_id.len());
        let s = CsrSnapshot { rev_offsets: rev.0, rev_edge_ref: rev.1, rev_src: rev.2, ..self };
        proof {
            reveal(CsrSnapshot::slots_match);
            reveal(CsrSnapshot::nodes_match);
            assert forall|es: Seq<Edge>| #[trigger] s.slots_match(es) == self.slots_match(es) by {
                assert(s.ids() == self.ids());
            }
            assert(s.node_id == self.node_id && s.node_kind == self.node_kind && s.node_first
                == self.node_first && s.node_last == self.node_last && s.node_risk_bits
                == self.node_risk_bits && s.dense_of_id == self.dense_of_id);
            lemma_snapshot_wf(&s, ids);
        }
        s
    }
}

/// Snapshots with the same node arrays and id map show the same nodes.
proof fn lemma_nodes_match_same(a: &CsrSnapshot, b: &CsrSnapshot, ns: Seq<Node>)
    requires
        a.node_id == b.node_id && a.node_kind == b.node_kind && a.node_first == b.node_first
            && a.node_last == b.node_last && a.node_risk_bits == b.node_risk_bits && a.dense_of_id
            == b.dense_of_id,
        a.nodes_match(ns),
    ensures
        b.nodes_match(ns),
{
    reveal(CsrSnapshot::nodes_match);
    assert forall|d: int| 0 <= d < ns.len() implies #[trigger] b.node_at(d) == view_of_node(ns[d]) by {
        assert(a.node_at(d) == view_of_node(ns[d]));
    }
}

/// The arrays of a freshly built snapshot satisfy its structural invariant.
proof fn lemma_snapshot_wf(s: &CsrSnapshot, ids: Seq<u64>)
    requires
        s.node_id@ == ids,
        ids.len() < usize::MAX,
        s.node_kind@.len() == ids.len() && s.node_first@.len() == ids.len() && s.node_last@.len()
            == ids.len() && s.node_risk_bits@.len() == ids.len(),
        s.ids() == dense_map(ids),
        forall|k: u64| #[trigger]
            dense_map(ids).contains_key(k) ==> dense_map(ids)[k] < ids.len() && ids[dense_map(
                ids,
            )[k] as int] == k,
        s.row_offsets@.len() == ids.len() + 1,
        s.row_offsets@[0] == 0,
        s.row_offsets@[ids.len() as int] == s.col_dst@.len(),
        forall|a: int, b: int|
            0 <= a <= b <= ids.len() ==> s.row_offsets@[a] <= s.row_offsets@[b],
        s.edge_src@.len() == s.col_dst@.len() && s.edge_id@.len() == s.col_dst@.len()
            && s.edge_type@.len() == s.col_dst@.len() && s.edge_first@.len() == s.col_dst@.len()
            && s.edge_last@.len() == s.col_dst@.len() && s.edge_count@.len() == s.col_dst@.len()
            && s.edge_weight_bits@.len() == s.col_dst@.len(),
        forall|w: int, e: int|
            #![trigger s.row_offsets@[w], s.edge_src@[e]]
            0 <= w < ids.len() && s.row_offsets@[w] <= e < s.row_offsets@[w + 1] ==> s.edge_src@[e]
                == w,
        forall|e: int|
            0 <= e < s.col_dst@.len() ==> canon_in(dense_map(ids), ids, #[trigger] s.col_dst@[e] as int)
                && canon_in(dense_map(ids), ids, s.edge_src@[e] as int),
        s.rev_offsets@.len() == ids.len() + 1,
        s.rev_edge_ref@.len() == s.col_dst@.len(),
        s.rev_src@.len() == s.col_dst@.len(),
        s.rev_offsets@[0] == 0,
        s.rev_offsets@[ids.len() as int] == s.col_dst@.len(),
        forall|a: int, b: int|
            0 <= a <= b <= ids.len() ==> s.rev_offsets@[a] <= s.rev_offsets@[b],
        forall|v: int, k: int|
            #![trigger s.rev_offsets@[v], s.rev_edge_ref@[k]]
            0 <= v < ids.len() && s.rev_offsets@[v] <= k < s.rev_offsets@[v + 1] ==> {
                let e = s.rev_edge_ref@[k] as int;
                0 <= e < s.col_dst@.len() && s.col_dst@[e] == v && s.rev_src@[k] == s.edge_src@[e]
            },
        forall|e: int|
            0 <= e < s.col_dst@.len() ==> listed_in(
                s.rev_offsets@,
                s.rev_edge_ref@,
                #[trigger] s.col_dst@[e] as int,
                e,
            ),
        forall|w: int|
            0 <= w < ids.len() ==> s.rev_offsets@[w + 1] == s.rev_offsets@[w] + cnt_eq(s.col_dst@, w),
    ensures
        s.wf(),
{
    reveal(CsrSnapshot::wf);
    assert forall|k: u64| #[trigger] s.ids().contains_key(k) implies s.canonical(
        s.ids()[k] as int,
    ) by {}
    assert forall|e: int| 0 <= e < s.ec() implies s.canonical(#[trigger] s.dst_of(e)) by {
        assert(canon_in(dense_map(ids), ids, s.col_dst@[e] as int));
    }
    assert forall|e: int| 0 <= e < s.ec() implies s.canonical(#[trigger] s.src_of(e)) by {
        assert(canon_in(dense_map(ids), ids, s.col_dst@[e] as int));
    }
    assert forall|e: int| 0 <= e < s.ec() implies #[trigger] s.rev_has(e) by {
        assert(s.col_dst@[e] == s.dst_of(e));
    }
}

/// The per-node arrays of a snapshot and its id → dense index map.
fn node_arrays(nodes: &[Node]) -> (r: (Vec<u64>, Vec<NodeKind>, Vec<i64>, Vec<i64>, Vec<u32>, IdMap))
    requires
        nodes@.len() < usize::MAX,
    ensures
        r.0@ == node_ids(nodes@),
        r.1@.len() == nodes@.len() && r.2@.len() == nodes@.len() && r.3@.len() == nodes@.len()
            && r.4@.len() == nodes@.len(),
        forall|d: int|
            0 <= d < nodes@.len() ==> node_view_raw(r.0@, r.1@, r.2@, r.3@, r.4@, d)
                == view_of_node(nodes@[d]),
        id_map_contents(r.5) == dense_map(node_ids(nodes@)),
        forall|k: u64| #[trigger]
            dense_map(node_ids(nodes@)).contains_key(k) ==> dense_map(node_ids(nodes@))[k]
                < nodes@.len() && node_ids(nodes@)[dense_map(node_ids(nodes@))[k] as int] == k,
{
    let n = nodes.len();
    let ghost ids = node_ids(nodes@);
    let mut dense_of_id = id_map_with_capacity(n);
    assert(id_map_contents(dense_of_id) =~= dense_map(ids.take(0)));
    let mut node_id: Vec<u64> = Vec::new();
    let mut node_kind: Vec<NodeKind> = Vec::new();
    let mut node_first: Vec<i64> = Vec::new();
    let mut node_last: Vec<i64> = Vec::new();
    let mut node_risk_bits: Vec<u32> = Vec::new();
    let mut i: usize = 0;
    while i < n
        invariant
            i <= n,
            n == nodes@.len(),
            ids == node_ids(nodes@),
            node_id@ == ids.take(i as int),
            node_kind@.len() == i && node_first@.len() == i && node_last@.len() == i
                && node_risk_bits@.len() == i,
            forall|d: int|
                0 <= d < i ==> (NodeView {
                    id: NodeId(node_id@[d]),
                    kind: node_kind@[d],
                    first_seen: Timestamp(node_first@[d]),
                    last_seen: Timestamp(node_last@[d]),
                    risk_bits: node_risk_bits@[d],
                }) == view_of_node(nodes@[d]),
            id_map_contents(dense_of_id) == dense_map(ids.take(i as int)),
        decreases n - i,
    {
        let nd = &nodes[i];
        id_map_insert(&mut dense_of_id, nd.id.0, i);
        node_id.push(nd.id.0);
        node_kind.push(nd.kind);
        node_first.push(nd.validity.first_seen.0);
        node_last.push(nd.validity.last_seen.0);
        node_risk_bits.push(nd.risk_bits);
        proof {
            assert(ids.take(i + 1).drop_last() =~= ids.take(i as int));
            assert(node_id@ =~= ids.take(i + 1));
        }
        i = i + 1;
    }
    proof {
        assert(ids.take(n as int) =~= ids);
        lemma_dense_map(ids);
    }
    (node_id, node_kind, node_first, node_last, node_risk_bits, dense_of_id)
}

/// The kept edges (both endpoints known): their positions, dense sources and
/// dense destinations, in input order.
fn kept_edges(dense_of_id: &IdMap, edges: &[Edge], Ghost(ids): Ghost<Seq<u64>>) -> (r: (
    Vec<usize>,
    Vec<usize>,
    Vec<usize>,
))
    requires
        ids.len() < usize::MAX,
        id_map_contents(*dense_of_id) == dense_map(ids),
        forall|k: u64| #[trigger]
            dense_map(ids).contains_key(k) ==> dense_map(ids)[k] < ids.len() && ids[dense_map(
                ids,
            )[k] as int] == k,
    ensures
        r.0@.map_values(|x: usize| x as int) == kept(dense_map(ids), edges@),
        r.1@ == kept_src(dense_map(ids), edges@),
        r.2@ == kept(dense_map(ids), edges@).map_values(
            |x: int| dense_map(ids)[edges@[x].dst.0],
        ),
        r.0@.len() == r.1@.len() && r.1@.len() == r.2@.len(),
        keys_below(r.1@, ids.len() as int),
        keys_below(r.2@, ids.len() as int),
        forall|t: int|
            0 <= t < kept(dense_map(ids), edges@).len() ==> 0 <= #[trigger] kept(
                dense_map(ids),
                edges@,
            )[t] < edges@.len() && edge_known(dense_map(ids), edges@[kept(dense_map(ids), edges@)[t]]),
{
    let ghost dm = dense_map(ids);
    let mut kept_pos: Vec<usize> = Vec::new();
    let mut keys: Vec<usize> = Vec::new();
    let mut dsts: Vec<usize> = Vec::new();
    let mut j: usize = 0;
    while j < edges.len()
        invariant
            j <= edges@.len(),
            id_map_contents(*dense_of_id) == dm,
            dm == dense_map(ids),
            kept_pos@.map_values(|x: usize| x as int) == kept(dm, edges@.take(j as int)),
            keys@ == kept(dm, edges@.take(j as int)).map_values(|x: int| dm[edges@[x].src.0]),
            dsts@ == kept(dm, edges@.take(j as int)).map_values(|x: int| dm[edges@[x].dst.0]),
        decreases edges.len() - j,
    {
        let e = &edges[j];
        let s = id_map_get(dense_of_id, e.src.0);
        let d = id_map_get(dense_of_id, e.dst.0);
        proof {
            assert(edges@.take(j + 1).drop_last() =~= edges@.take(j as int));
            assert(edges@.take(j + 1).last() == edges@[j as int]);
            lemma_kept(dm, edges@.take(j as int));
            assert forall|t: int| 0 <= t < kept(dm, edges@.take(j as int)).len() implies #[trigger] edges@.take(
                j as int,
            )[kept(dm, edges@.take(j as int))[t]] == edges@[kept(dm, edges@.take(j as int))[t]] by {}
        }
        match (s, d) {
            (Some(sd), Some(dd)) => {
                kept_pos.push(j);
                keys.push(sd);
                dsts.push(dd);
                proof {
                    assert(kept_pos@.map_values(|x: usize| x as int) =~= kept(
                        dm,
                        edges@.take(j + 1),
                    ));
                    assert(keys@ =~= kept(dm, edges@.take(j + 1)).map_values(
                        |x: int| dm[edges@[x].src.0],
                    ));
                    assert(dsts@ =~= kept(dm, edges@.take(j + 1)).map_values(
                        |x: int| dm[edges@[x].dst.0],
                    ));
                }
            },
            _ => {
                proof {
                    assert(kept(dm, edges@.take(j + 1)) == kept(dm, edges@.take(j as int)));
                }
            },
        }
        j = j + 1;
    }
    proof {
        assert(edges@.take(edges@.len() as int) =~= edges@);
        lemma_kept(dm, edges@);
        assert(keys@ =~= kept_src(dm, edges@));
        let kp = kept(dm, edges@);
        assert forall|t: int| 0 <= t < keys@.len() implies keys@[t] < ids.len() by {
            assert(edge_known(dm, edges@[kp[t]]));
        }
        assert forall|t: int| 0 <= t < dsts@.len() implies dsts@[t] < ids.len() by {
            assert(edge_known(dm, edges@[kp[t]]));
        }
    }
    (kept_pos, keys, dsts)
}

/// The forward CSR: row offsets and the per-slot edge arrays, slots grouped by
/// dense source in input order.
#[verifier::rlimit(40)]
fn forward_arrays(
    edges: &[Edge],
    kept_pos: &Vec<usize>,
    keys: &Vec<usize>,
    dsts: &Vec<usize>,
    n: usize,
    Ghost(dm): Ghost<Map<u64, usize>>,
    Ghost(ids): Ghost<Seq<u64>>,
) -> (r: (
    Vec<usize>,
    Vec<usize>,
    Vec<usize>,
    Vec<u64>,
    Vec<EdgeType>,
    Vec<i64>,
    Vec<i64>,
    Vec<u64>,
    Vec<u32>,
))
    requires
        n == ids.len(),
        n < usize::MAX,
        dm == dense_map(ids),
        forall|k: u64| #[trigger]
            dm.contains_key(k) ==> dm[k] < ids.len() && ids[dm[k] as int] == k,
        kept_pos@.map_values(|x: usize| x as int) == kept(dm, edges@),
        keys@ == kept_src(dm, edges@),
        dsts@ == kept(dm, edges@).map_values(|x: int| dm[edges@[x].dst.0]),
        kept_pos@.len() == keys@.len() && keys@.len() == dsts@.len(),
        keys_below(keys@, n as int),
        keys_below(dsts@, n as int),
        forall|t: int|
            0 <= t < kept(dm, edges@).len() ==> 0 <= #[trigger] kept(dm, edges@)[t] < edges@.len()
                && edge_known(dm, edges@[kept(dm, edges@)[t]]),
    ensures
        r.0@.len() == n + 1,
        r.0@[0] == 0,
        r.0@[n as int] == keys@.len(),
        forall|a: int, b: int| 0 <= a <= b <= n ==> r.0@[a] <= r.0@[b],
        forall|w: int| 0 <= w < n ==> r.0@[w + 1] == r.0@[w] + cnt_eq(keys@, w),
        r.1@.len() == keys@.len(),
        r.2@.len() == keys@.len() && r.3@.len() == keys@.len() && r.4@.len() == keys@.len()
            && r.5@.len() == keys@.len() && r.6@.len() == keys@.len() && r.7@.len() == keys@.len()
            && r.8@.len() == keys@.len(),
        forall|w: int, e: int|
            #![trigger r.0@[w], r.2@[e]]
            0 <= w < n && r.0@[w] <= e < r.0@[w + 1] ==> r.2@[e] == w,
        forall|e: int|
            0 <= e < keys@.len() ==> canon_in(dm, ids, #[trigger] r.1@[e] as int) && canon_in(
                dm,
                ids,
                r.2@[e] as int,
            ),
        forall|w: int, t: int|
            0 <= w < n && 0 <= t < cnt_eq(keys@, w) ==> slot_view(
                ids,
                r.1@,
                r.2@,
                r.3@,
                r.4@,
                r.5@,
                r.6@,
                r.7@,
                r.8@,
                r.0@[w] + t,
            ) == view_of_edge(edges@[kept(dm, edges@)[#[trigger] group(keys@, w)[t]]]),
        forall|w: int, t: int|
            0 <= w < n && 0 <= t < cnt_eq(keys@, w) ==> {
                let e = r.0@[w] + t;
                let x = kept(dm, edges@)[#[trigger] group(keys@, w)[t]];
                &&& r.1@[e] == dm[edges@[x].dst.0]
                &&& r.3@[e] == edges@[x].id.0
                &&& r.4@[e] == edges@[x].etype
                &&& r.5@[e] == edges@[x].validity.first_seen.0
                &&& r.6@[e] == edges@[x].validity.last_seen.0
                &&& r.7@[e] == edges@[x].validity.event_count
                &&& r.8@[e] == edges@[x].weight_bits
            },
{
    let ghost kp = kept(dm, edges@);
    let m = keys.len();
    let (row_offsets, order) = group_by_key(keys, n);
    let mut col_dst: Vec<usize> = Vec::new();
    let mut edge_src: Vec<usize> = Vec::new();
    let mut edge_id: Vec<u64> = Vec::new();
    let mut edge_type: Vec<EdgeType> = Vec::new();
    let mut edge_first: Vec<i64> = Vec::new();
    let mut edge_last: Vec<i64> = Vec::new();
    let mut edge_count: Vec<u64> = Vec::new();
    let mut edge_weight_bits: Vec<u32> = Vec::new();
    let mut u: usize = 0;
    while u < n
        invariant
            u <= n,
            m == keys@.len(),
            kept_pos@.map_values(|x: usize| x as int) == kp,
            keys@ == kp.map_values(|x: int| dm[edges@[x].src.0]),
            dsts@ == kp.map_values(|x: int| dm[edges@[x].dst.0]),
            kept_pos@.len() == m && dsts@.len() == m,
            forall|t: int| 0 <= t < kp.len() ==> 0 <= #[trigger] kp[t] < edges@.len(),
            forall|t: int| 0 <= t < kp.len() ==> edge_known(dm, #[trigger] edges@[kp[t]]),
            row_offsets@.len() == n + 1,
            order@.len() == m,
            forall|a: int, b: int| 0 <= a <= b <= n ==> row_offsets@[a] <= row_offsets@[b],
            row_offsets@[n as int] == m,
            forall|w: int|
                0 <= w < n ==> row_offsets@[w + 1] == row_offsets@[w] + cnt_eq(keys@, w),
            forall|w: int, t: int|
                0 <= w < n && 0 <= t < cnt_eq(keys@, w) ==> order@[row_offsets@[w] + t]
                    == #[trigger] group(keys@, w)[t],
            keys_below(dsts@, n as int),
            keys_below(keys@, n as int),
            dm == dense_map(ids),
            ids.len() == n,
            forall|k: u64| #[trigger]
                dm.contains_key(k) ==> dm[k] < ids.len() && ids[dm[k] as int] == k,
            col_dst@.len() == row_offsets@[u as int],
            edge_src@.len() == col_dst@.len() && edge_id@.len() == col_dst@.len()
                && edge_type@.len() == col_dst@.len() && edge_first@.len() == col_dst@.len()
                && edge_last@.len() == col_dst@.len() && edge_count@.len() == col_dst@.len()
                && edge_weight_bits@.len() == col_dst@.len(),
            forall|w: int, e: int|
                #![trigger row_offsets@[w], edge_src@[e]]
                0 <= w < u && row_offsets@[w] <= e < row_offsets@[w + 1] ==> edge_src@[e] == w,
            forall|e: int|
                0 <= e < col_dst@.len() ==> canon_in(dm, ids, #[trigger] col_dst@[e] as int)
                    && canon_in(dm, ids, edge_src@[e] as int),
            forall|w: int, t: int|
                0 <= w < u && 0 <= t < cnt_eq(keys@, w) ==> {
                    let e = row_offsets@[w] + t;
                    let x = kp[#[trigger] group(keys@, w)[t]];
                    &&& col_dst@[e] == dm[edges@[x].dst.0]
                    &&& edge_id@[e] == edges@[x].id.0
                    &&& edge_type@[e] == edges@[x].etype
                    &&& edge_first@[e] == edges@[x].validity.first_seen.0
                    &&& edge_last@[e] == edges@[x].validity.last_seen.0
                    &&& edge_count@[e] == edges@[x].validity.event_count
                    &&& edge_weight_bits@[e] == edges@[x].weight_bits
                },
        decreases n - u,
    {
        let hi = row_offsets[u + 1];
        let mut e = row_offsets[u];
        proof {
            lemma_group(keys@, u as int);
        }
        while e < hi
            invariant
                row_offsets@[u as int] <= e <= hi,
                hi == row_offsets@[u + 1],
                u < n,
                m == keys@.len(),
                kept_pos@.map_values(|x: usize| x as int) == kp,
                keys@ == kp.map_values(|x: int| dm[edges@[x].src.0]),
                dsts@ == kp.map_values(|x: int| dm[edges@[x].dst.0]),
                kept_pos@.len() == m && dsts@.len() == m,
                forall|t: int| 0 <= t < kp.len() ==> 0 <= #[trigger] kp[t] < edges@.len(),
                forall|t: int| 0 <= t < kp.len() ==> edge_known(dm, #[trigger] edges@[kp[t]]),
                row_offsets@.len() == n + 1,
                order@.len() == m,
                forall|a: int, b: int| 0 <= a <= b <= n ==> row_offsets@[a] <= row_offsets@[b],
                row_offsets@[n as int] == m,
                forall|w: int|
                    0 <= w < n ==> row_offsets@[w + 1] == row_offsets@[w] + cnt_eq(keys@, w),
                forall|w: int, t: int|
                    0 <= w < n && 0 <= t < cnt_eq(keys@, w) ==> order@[row_offsets@[w] + t]
                        == #[trigger] group(keys@, w)[t],
                forall|t: int|
                    0 <= t < group(keys@, u as int).len() ==> 0 <= #[trigger] group(
                        keys@,
                        u as int,
                    )[t] < keys@.len() && keys@[group(keys@, u as int)[t]] == u,
                group(keys@, u as int).len() == cnt_eq(keys@, u as int),
                keys_below(dsts@, n as int),
                keys_below(keys@, n as int),
                dm == dense_map(ids),
                ids.len() == n,
                forall|k: u64| #[trigger]
                    dm.contains_key(k) ==> dm[k] < ids.len() && ids[dm[k] as int] == k,
                col_dst@.len() == e,
                edge_src@.len() == col_dst@.len() && edge_id@.len() == col_dst@.len()
                    && edge_type@.len() == col_dst@.len() && edge_first@.len() == col_dst@.len()
                    && edge_last@.len() == col_dst@.len() && edge_count@.len() == col_dst@.len()
                    && edge_weight_bits@.len() == col_dst@.len(),
                forall|w: int, x: int|
                    #![trigger row_offsets@[w], edge_src@[x]]
                    0 <= w < u && row_offsets@[w] <= x < row_offsets@[w + 1] ==> edge_src@[x] == w,
                forall|x: int| row_offsets@[u as int] <= x < e ==> #[trigger] edge_src@[x] == u,
                forall|x: int|
                    0 <= x < col_dst@.len() ==> canon_in(dm, ids, #[trigger] col_dst@[x] as int)
                        && canon_in(dm, ids, edge_src@[x] as int),
                forall|w: int, t: int|
                    0 <= w < u && 0 <= t < cnt_eq(keys@, w) ==> {
                        let e = row_offsets@[w] + t;
                        let x = kp[#[trigger] group(keys@, w)[t]];
                        &&& col_dst@[e] == dm[edges@[x].dst.0]
                        &&& edge_id@[e] == edges@[x].id.0
                        &&& edge_type@[e] == edges@[x].etype
                        &&& edge_first@[e] == edges@[x].validity.first_seen.0
                        &&& edge_last@[e] == edges@[x].validity.last_seen.0
                        &&& edge_count@[e] == edges@[x].validity.event_count
                        &&& edge_weight_bits@[e] == edges@[x].weight_bits
                    },
                forall|t: int|
                    0 <= t < e - row_offsets@[u as int] ==> {
                        let e = row_offsets@[u as int] + t;
                        let x = kp[#[trigger] group(keys@, u as int)[t]];
                        &&& col_dst@[e] == dm[edges@[x].dst.0]
                        &&& edge_id@[e] == edges@[x].id.0
                        &&& edge_type@[e] == edges@[x].etype
                        &&& edge_first@[e] == edges@[x].validity.first_seen.0
                        &&& edge_last@[e] == edges@[x].validity.last_seen.0
                        &&& edge_count@[e] == edges@[x].validity.event_count
                        &&& edge_weight_bits@[e] == edges@[x].weight_bits
                    },
            decreases hi - e,
        {
            let ghost t = e - row_offsets@[u as int];
            let k = order[e];
            assert(k == group(keys@, u as int)[t]);
            let x = kept_pos[k];
            proof {
                assert(x as int == kp[k as int]);
                assert(keys@[k as int] == u);
                assert(edge_known(dm, edges@[kp[k as int]]));
                assert(canon_in(dm, ids, u as int));
                assert(canon_in(dm, ids, dsts@[k as int] as int));
            }
            let ed = &edges[x];
            col_dst.push(dsts[k]);
            edge_src.push(u);
            edge_id.push(ed.id.0);
            edge_type.push(ed.etype);
            edge_first.push(ed.validity.first_seen.0);
            edge_last.push(ed.validity.last_seen.0);
            edge_count.push(ed.validity.event_count);
            edge_weight_bits.push(ed.weight_bits);
            e = e + 1;
        }
        u = u + 1;
    }
    proof {
        assert forall|w: int, t: int|
            0 <= w < n && 0 <= t < cnt_eq(keys@, w) implies slot_view(
            ids,
            col_dst@,
            edge_src@,
            edge_id@,
            edge_type@,
            edge_first@,
            edge_last@,
            edge_count@,
            edge_weight_bits@,
            row_offsets@[w] + t,
        ) == view_of_edge(edges@[kept(dm, edges@)[#[trigger] group(keys@, w)[t]]]) by {
            lemma_group(keys@, w);
            let j = group(keys@, w)[t];
            let x = kp[j];
            let e = row_offsets@[w] + t;
            assert(row_offsets@[w] <= e < row_offsets@[w + 1]);
            assert(edge_src@[e] == w);
            assert(keys@[j] == w);
            assert(edge_known(dm, edges@[x]));
        }
    }
    (
        row_offsets,
        col_dst,
        edge_src,
        edge_id,
        edge_type,
        edge_first,
        edge_last,
        edge_count,
        edge_weight_bits,
    )
}

/// The reverse CSR: offsets per destination, the forward slot of each incoming
/// edge, and that edge's source.
fn reverse_arrays(col_dst: &Vec<usize>, edge_src: &Vec<usize>, n: usize) -> (r: (
    Vec<usize>,
    Vec<usize>,
    Vec<usize>,
))
    requires
        n < usize::MAX,
        keys_below(col_dst@, n as int),
        edge_src@.len() == col_dst@.len(),
    ensures
        r.0@.len() == n + 1,
        r.1@.len() == col_dst@.len(),
        r.2@.len() == col_dst@.len(),
        r.0@[0] == 0,
        r.0@[n as int] == col_dst@.len(),
        forall|a: int, b: int| 0 <= a <= b <= n ==> r.0@[a] <= r.0@[b],
        forall|w: int| 0 <= w < n ==> r.0@[w + 1] == r.0@[w] + cnt_eq(col_dst@, w),
        forall|v: int, k: int|
            #![trigger r.0@[v], r.1@[k]]
            0 <= v < n && r.0@[v] <= k < r.0@[v + 1] ==> {
                let e = r.1@[k] as int;
                0 <= e < col_dst@.len() && col_dst@[e] == v && r.2@[k] == edge_src@[e]
            },
        forall|e: int|
            0 <= e < col_dst@.len() ==> listed_in(r.0@, r.1@, #[trigger] col_dst@[e] as int, e),
{
    let m = col_dst.len();
    let (rev_offsets, rev_edge_ref) = group_by_key(col_dst, n);
    let mut rev_src: Vec<usize> = Vec::new();
    let mut v: usize = 0;
    while v < n
        invariant
            v <= n,
            col_dst@.len() == m,
            edge_src@.len() == m,
            rev_offsets@.len() == n + 1,
            rev_edge_ref@.len() == m,
            forall|a: int, b: int| 0 <= a <= b <= n ==> rev_offsets@[a] <= rev_offsets@[b],
            rev_offsets@[n as int] == m,
            forall|w: int|
                0 <= w < n ==> rev_offsets@[w + 1] == rev_offsets@[w] + cnt_eq(col_dst@, w),
            forall|w: int, t: int|
                0 <= w < n && 0 <= t < cnt_eq(col_dst@, w) ==> rev_edge_ref@[rev_offsets@[w] + t]
                    == #[trigger] group(col_dst@, w)[t],
            rev_src@.len() == rev_offsets@[v as int],
            forall|w: int, t: int|
                0 <= w < v && 0 <= t < cnt_eq(col_dst@, w) ==> rev_src@[rev_offsets@[w] + t]
                    == edge_src@[#[trigger] group(col_dst@, w)[t]],
        decreases n - v,
    {
        let hi = rev_offsets[v + 1];
        let mut k = rev_offsets[v];
        proof {
            lemma_group(col_dst@, v as int);
        }
        while k < hi
            invariant
                rev_offsets@[v as int] <= k <= hi,
                hi == rev_offsets@[v + 1],
                v < n,
                col_dst@.len() == m,
                edge_src@.len() == m,
                rev_offsets@.len() == n + 1,
                rev_edge_ref@.len() == m,
                forall|a: int, b: int| 0 <= a <= b <= n ==> rev_offsets@[a] <= rev_offsets@[b],
                rev_offsets@[n as int] == m,
                forall|w: int|
                    0 <= w < n ==> rev_offsets@[w + 1] == rev_offsets@[w] + cnt_eq(col_dst@, w),
                forall|w: int, t: int|
                    0 <= w < n && 0 <= t < cnt_eq(col_dst@, w) ==> rev_edge_ref@[rev_offsets@[w]
                        + t] == #[trigger] group(col_dst@, w)[t],
                forall|t: int|
                    0 <= t < group(col_dst@, v as int).len() ==> 0 <= #[trigger] group(
                        col_dst@,
                        v as int,
                    )[t] < m,
                group(col_dst@, v as int).len() == cnt_eq(col_dst@, v as int),
                rev_src@.len() == k,
                forall|w: int, t: int|
                    0 <= w < v && 0 <= t < cnt_eq(col_dst@, w) ==> rev_src@[rev_offsets@[w] + t]
                        == edge_src@[#[trigger] group(col_dst@, w)[t]],
                forall|t: int|
                    0 <= t < k - rev_offsets@[v as int] ==> rev_src@[rev_offsets@[v as int] + t]
                        == edge_src@[#[trigger] group(col_dst@, v as int)[t]],
            decreases hi - k,
        {
            let ghost t = k - rev_offsets@[v as int];
            let slot = rev_edge_ref[k];
            assert(slot == group(col_dst@, v as int)[t]);
            rev_src.push(edge_src[slot]);
            k = k + 1;
        }
        v = v + 1;
    }
    proof {
        assert forall|e: int|
            0 <= e < col_dst@.len() implies listed_in(
            rev_offsets@,
            rev_edge_ref@,
            #[trigger] col_dst@[e] as int,
            e,
        ) by {
            let v = col_dst@[e] as int;
            lemma_group(col_dst@, v);
            let t = choose|t: int|
                0 <= t < group(col_dst@, v).len() && #[trigger] group(col_dst@, v)[t] == e;
            assert(0 <= v < n);
            assert(rev_offsets@[v + 1] == rev_offsets@[v] + cnt_eq(col_dst@, v));
            assert(rev_edge_ref@[rev_offsets@[v] + t] == e);
            assert(rev_offsets@[v] <= rev_offsets@[v] + t < rev_offsets@[v + 1]);
        }
        assert forall|w: int, k: int|
            #![trigger rev_offsets@[w], rev_edge_ref@[k]]
            0 <= w < n && rev_offsets@[w] <= k < rev_offsets@[w + 1] implies {
                let e = rev_edge_ref@[k] as int;
                0 <= e < col_dst@.len() && col_dst@[e] == w && rev_src@[k] == edge_src@[e]
            } by {
            let t = k - rev_offsets@[w];
            lemma_group(col_dst@, w);
            assert(rev_edge_ref@[rev_offsets@[w] + t] == group(col_dst@, w)[t]);
        }
    }
    (rev_offsets, rev_edge_ref, rev_src)
}

// ---------------------------------------------------------------------------
// Traversal
// ---------------------------------------------------------------------------

impl CsrSnapshot {
    /// Edge slot `e` passes the time window and type filter of `opts`.
    pub closed spec fn passes(&self, e: int, opts: TraversalOpts) -> bool {
        &&& match opts.time {
            Some((lo, hi)) => self.edge_first@[e] <= hi.0 && self.edge_last@[e] >= lo.0,
            None => true,
        }
        &&& match opts.etypes {
            Some(mask) => mask.has(self.edge_type@[e]),
            None => true,
        }
    }

    /// What `passes` says, in terms of the slot's edge view: its validity
    /// overlaps the window, and the mask holds its type.
    pub proof fn lemma_passes(&self, e: int, opts: TraversalOpts)
        ensures
            self.passes(e, opts) == ({
                &&& match opts.time {
                    Some((lo, hi)) => self.edge_at(e).first_seen.0 <= hi.0 && self.edge_at(e).last_seen.0 >= lo.0,
                    None => true,
                }
                &&& match opts.etypes {
                    Some(mask) => mask.has(self.edge_at(e).etype),
                    None => true,
                }
            }),
    {
    }

    /// Following slot `e` from dense node `u` under `opts` leads to `v`.
    pub open spec fn step(&self, opts: TraversalOpts, u: int, e: int, v: int) -> bool {
        &&& 0 <= e < self.ec()
        &&& self.passes(e, opts)
        &&& {
            ||| follows_out(opts.direction) && self.src_of(e) == u && self.dst_of(e) == v
            ||| follows_in(opts.direction) && self.dst_of(e) == u && self.src_of(e) == v
        }
    }

    /// Slot `e` can be followed from `u`.
    pub open spec fn uses(&self, opts: TraversalOpts, u: int, e: int) -> bool {
        exists|v: int| #[trigger] self.step(opts, u, e, v)
    }

    /// Some slot leads from `u` to `v`.
    pub open spec fn adj(&self, opts: TraversalOpts, u: int, v: int) -> bool {
        exists|e: int| #[trigger] self.step(opts, u, e, v)
    }

    /// `v` is at most `k` steps from `seed`.
    pub open spec fn within(&self, opts: TraversalOpts, seed: int, k: nat, v: int) -> bool
        decreases k,
    {
        if k == 0 {
            v == seed
        } else {
            self.within(opts, seed, (k - 1) as nat, v) || exists|u: int|
                self.within(opts, seed, (k - 1) as nat, u) && #[trigger] self.adj(opts, u, v)
        }
    }

    /// `v` is exactly `k` steps from `seed`.
    pub open spec fn layer(&self, opts: TraversalOpts, seed: int, k: nat, v: int) -> bool {
        self.within(opts, seed, k, v) && !(k > 0 && self.within(opts, seed, (k - 1) as nat, v))
    }

    /// `u` had its neighbors expanded by the time `k` hops were reached.
    pub open spec fn expanded(&self, opts: TraversalOpts, seed: int, k: nat, u: int) -> bool {
        k > 0 && self.within(opts, seed, (k - 1) as nat, u)
    }

    /// `e` is followed from some node expanded within `k` hops.
    pub open spec fn edge_seen(&self, opts: TraversalOpts, seed: int, k: nat, e: int) -> bool {
        exists|u: int| #[trigger] self.expanded(opts, seed, k, u) && self.uses(opts, u, e)
    }
}

impl CsrSnapshot {
    /// Every slot lies in the out-segment of its source.
    proof fn lemma_slot_segment(&self, e: int)
        requires
            self.wf(),
            0 <= e < self.ec(),
        ensures
            0 <= self.src_of(e) < self.nc(),
            self.row(self.src_of(e)) <= e < self.row(self.src_of(e) + 1),
    {
        reveal(CsrSnapshot::wf);
        self.lemma_segment_search(e, 0);
    }

    proof fn lemma_segment_search(&self, e: int, w: int)
        requires
            self.wf(),
            0 <= e < self.ec(),
            0 <= w <= self.nc(),
            self.row_offsets@[w] <= e,
        ensures
            0 <= self.src_of(e) < self.nc(),
            self.row(self.src_of(e)) <= e < self.row(self.src_of(e) + 1),
        decreases self.nc() - w,
    {
        reveal(CsrSnapshot::wf);
        if w == self.nc() {
            assert(self.row_offsets@[w] == self.ec());
        } else if e < self.row_offsets@[w + 1] {
            assert(self.edge_src@[e] == w);
        } else {
            self.lemma_segment_search(e, w + 1);
        }
    }

    /// Monotonicity of `within` in the hop bound.
    proof fn lemma_within_mono(&self, opts: TraversalOpts, seed: int, a: nat, b: nat, v: int)
        requires
            a <= b,
            self.within(opts, seed, a, v),
        ensures
            self.within(opts, seed, b, v),
        decreases b - a,
    {
        if a < b {
            self.lemma_within_mono(opts, seed, a, (b - 1) as nat, v);
        }
    }

    /// Nodes within reach of a canonical seed are canonical dense nodes.
    proof fn lemma_within_canonical(&self, opts: TraversalOpts, seed: int, k: nat, v: int)
        requires
            self.wf(),
            self.canonical(seed),
            self.within(opts, seed, k, v),
        ensures
            self.canonical(v),
        decreases k,
    {
        reveal(CsrSnapshot::wf);
        if k > 0 {
            if !self.within(opts, seed, (k - 1) as nat, v) {
                let u = choose|u: int|
                    self.within(opts, seed, (k - 1) as nat, u) && #[trigger] self.adj(opts, u, v);
                assert(self.adj(opts, u, v));
                let e = choose|e: int| #[trigger] self.step(opts, u, e, v);
                assert(self.step(opts, u, e, v));
                assert(0 <= e < self.ec());
                assert(self.canonical(self.dst_of(e)));
                assert(self.canonical(self.src_of(e)));
            } else {
                self.lemma_within_canonical(opts, seed, (k - 1) as nat, v);
            }
        }
    }

    /// The dense index of a node id.
    pub fn dense(&self, id: NodeId) -> (r: Option<usize>)
        requires
            self.wf(),
        ensures
            r == (if self.ids().contains_key(id.0) {
                Some(self.ids()[id.0])
            } else {
                None
            }),
            r matches Some(d) ==> self.canonical(d as int),
    {
        proof {
            reveal(CsrSnapshot::wf);
        }
        let r = id_map_get(&self.dense_of_id, id.0);
        proof {
            if self.ids().contains_key(id.0) {
                assert(self.canonical(self.ids()[id.0] as int));
            }
        }
        r
    }

    /// The view of dense node `d`.
    pub fn node_view(&self, d: usize) -> (v: NodeView)
        requires
            self.wf(),
            d < self.nc(),
        ensures
            v == self.node_at(d as int),
    {
        proof {
            reveal(CsrSnapshot::wf);
        }
        NodeView {
            id: NodeId(self.node_id[d]),
            kind: self.node_kind[d],
            first_seen: Timestamp(self.node_first[d]),
            last_seen: Timestamp(self.node_last[d]),
            risk_bits: self.node_risk_bits[d],
        }
    }

    /// The view of edge slot `e`.
    pub fn edge_view(&self, e: usize) -> (v: EdgeView)
        requires
            self.wf(),
            e < self.ec(),
        ensures
            v == self.edge_at(e as int),
    {
        proof {
            reveal(CsrSnapshot::wf);
            assert(self.canonical(self.src_of(e as int)) && self.canonical(self.dst_of(e as int)));
        }
        EdgeView {
            id: EdgeId(self.edge_id[e]),
            src: NodeId(self.node_id[self.edge_src[e]]),
            dst: NodeId(self.node_id[self.col_dst[e]]),
            etype: self.edge_type[e],
            first_seen: Timestamp(self.edge_first[e]),
            last_seen: Timestamp(self.edge_last[e]),
            event_count: self.edge_count[e],
            weight_bits: self.edge_weight_bits[e],
        }
    }

    /// `true` iff slot `e` passes the time window and type filter.
    pub fn slot_passes(&self, e: usize, opts: &TraversalOpts) -> (b: bool)
        requires
            self.wf(),
            e < self.ec(),
        ensures
            b == self.passes(e as int, *opts),
    {
        proof {
            reveal(CsrSnapshot::wf);
        }
        match opts.time {
            Some((lo, hi)) => {
                if !(self.edge_first[e] <= hi.0 && self.edge_last[e] >= lo.0) {
                    return false;
                }
            },
            None => {},
        }
        match opts.etypes {
            Some(mask) => {
                if !mask.contains(self.edge_type[e]) {
                    return false;
                }
            },
            None => {},
        }
        true
    }
}

impl CsrSnapshot {
    /// Some out-slot of `u` below `x` passes and leads to `v`.
    closed spec fn out_upto(&self, opts: TraversalOpts, u: int, x: int, v: int) -> bool {
        follows_out(opts.direction) && exists|y: int|
            self.row(u) <= y < x && self.passes(y, opts) && #[trigger] self.dst_of(y) == v
    }

    /// Some in-entry of `u` below `k` passes and leads to `v`.
    closed spec fn in_upto(&self, opts: TraversalOpts, u: int, k: int, v: int) -> bool {
        follows_in(opts.direction) && exists|z: int|
            self.rev_offsets@[u] <= z < k && self.passes(self.rev_edge_ref@[z] as int, opts)
                && #[trigger] self.rev_src@[z] == v
    }

    /// Slot `e` is an out-slot of `u` below `x` that passes.
    closed spec fn out_edge_upto(&self, opts: TraversalOpts, u: int, x: int, e: int) -> bool {
        follows_out(opts.direction) && self.row(u) <= e < x && self.passes(e, opts)
    }

    /// Slot `e` is referenced by an in-entry of `u` below `k` and passes.
    closed spec fn in_edge_upto(&self, opts: TraversalOpts, u: int, k: int, e: int) -> bool {
        follows_in(opts.direction) && self.passes(e, opts) && exists|z: int|
            self.rev_offsets@[u] <= z < k && #[trigger] self.rev_edge_ref@[z] == e
    }

    /// Some node of `us` is adjacent to `v`.
    closed spec fn adj_any(&self, opts: TraversalOpts, us: Seq<usize>, v: int) -> bool {
        exists|j: int| 0 <= j < us.len() && #[trigger] self.adj(opts, us[j] as int, v)
    }

    /// Some node of `us` follows slot `e`.
    closed spec fn uses_any(&self, opts: TraversalOpts, us: Seq<usize>, e: int) -> bool {
        exists|j: int| 0 <= j < us.len() && #[trigger] self.uses(opts, us[j] as int, e)
    }

    /// The full out- and in-lists of `u` give exactly its neighbors and slots.
    proof fn lemma_lists_complete(&self, opts: TraversalOpts, u: int)
        requires
            self.wf(),
            0 <= u < self.nc(),
        ensures
            forall|v: int|
                #[trigger] self.adj(opts, u, v) <==> (self.out_upto(opts, u, self.row(u + 1), v)
                    || self.in_upto(opts, u, self.rev_offsets@[u + 1] as int, v)),
            forall|e: int|
                #[trigger] self.uses(opts, u, e) <==> (self.out_edge_upto(
                    opts,
                    u,
                    self.row(u + 1),
                    e,
                ) || self.in_edge_upto(opts, u, self.rev_offsets@[u + 1] as int, e)),
    {
        reveal(CsrSnapshot::wf);
        let hi = self.row(u + 1);
        let khi = self.rev_offsets@[u + 1] as int;
        assert forall|v: int| #[trigger] self.adj(opts, u, v) implies (self.out_upto(opts, u, hi, v)
            || self.in_upto(opts, u, khi, v)) by {
            let e = choose|e: int| #[trigger] self.step(opts, u, e, v);
            if follows_out(opts.direction) && self.src_of(e) == u && self.dst_of(e) == v {
                self.lemma_slot_segment(e);
                assert(self.row(u) <= e < hi && self.dst_of(e) == v);
            } else {
                assert(self.rev_has(e));
                let z = choose|z: int|
                    self.rev_offsets@[self.dst_of(e)] <= z < self.rev_offsets@[self.dst_of(e) + 1]
                        && #[trigger] self.rev_edge_ref@[z] == e;
                assert(self.rev_src@[z] == v);
            }
        }
        assert forall|v: int| (self.out_upto(opts, u, hi, v) || self.in_upto(opts, u, khi, v)) implies #[trigger] self.adj(opts, u, v) by {
            if self.out_upto(opts, u, hi, v) {
                let y = choose|y: int|
                    self.row(u) <= y < hi && self.passes(y, opts) && #[trigger] self.dst_of(y) == v;
                assert(self.edge_src@[y] == u);
                assert(self.step(opts, u, y, v));
            } else {
                let z = choose|z: int|
                    self.rev_offsets@[u] <= z < khi && self.passes(self.rev_edge_ref@[z] as int, opts)
                        && #[trigger] self.rev_src@[z] == v;
                let e = self.rev_edge_ref@[z] as int;
                assert(0 <= e < self.ec() && self.col_dst@[e] == u && self.rev_src@[z]
                    == self.edge_src@[e]);
                assert(self.step(opts, u, e, v));
            }
        }
        assert forall|e: int| #[trigger] self.uses(opts, u, e) implies (self.out_edge_upto(
            opts,
            u,
            hi,
            e,
        ) || self.in_edge_upto(opts, u, khi, e)) by {
            let v = choose|v: int| #[trigger] self.step(opts, u, e, v);
            if follows_out(opts.direction) && self.src_of(e) == u && self.dst_of(e) == v {
                self.lemma_slot_segment(e);
            } else {
                assert(self.rev_has(e));
            }
        }
        assert forall|e: int| (self.out_edge_upto(opts, u, hi, e) || self.in_edge_upto(opts, u, khi, e)) implies #[trigger] self.uses(opts, u, e) by {
            if self.out_edge_upto(opts, u, hi, e) {
                assert(self.edge_src@[e] == u);
                assert(self.step(opts, u, e, self.dst_of(e)));
            } else {
                let z = choose|z: int| self.rev_offsets@[u] <= z < khi && #[trigger] self.rev_edge_ref@[z] == e;
                assert(0 <= e < self.ec() && self.col_dst@[e] == u);
                assert(self.step(opts, u, e, self.src_of(e)));
            }
        }
    }
}

impl CsrSnapshot {
    proof fn lemma_any_push(&self, opts: TraversalOpts, us: Seq<usize>, u: usize)
        ensures
            forall|v: int| #[trigger] self.adj_any(opts, us.push(u), v) == (self.adj_any(opts, us, v) || self.adj(opts, u as int, v)),
            forall|e: int| #[trigger] self.uses_any(opts, us.push(u), e) == (self.uses_any(opts, us, e) || self.uses(opts, u as int, e)),
    {
        let p = us.push(u);
        assert forall|v: int| #[trigger] self.adj_any(opts, p, v) == (self.adj_any(opts, us, v) || self.adj(opts, u as int, v)) by {
            if self.adj_any(opts, p, v) {
                let j = choose|j: int| 0 <= j < p.len() && #[trigger] self.adj(opts, p[j] as int, v);
                if j < us.len() {
                    assert(p[j] == us[j]);
                }
            }
            if self.adj_any(opts, us, v) {
                let j = choose|j: int| 0 <= j < us.len() && #[trigger] self.adj(opts, us[j] as int, v);
                assert(p[j] == us[j]);
            }
            if self.adj(opts, u as int, v) {
                assert(p[us.len() as int] == u);
            }
        }
        assert forall|e: int| #[trigger] self.uses_any(opts, p, e) == (self.uses_any(opts, us, e) || self.uses(opts, u as int, e)) by {
            if self.uses_any(opts, p, e) {
                let j = choose|j: int| 0 <= j < p.len() && #[trigger] self.uses(opts, p[j] as int, e);
                if j < us.len() {
                    assert(p[j] == us[j]);
                }
            }
            if self.uses_any(opts, us, e) {
                let j = choose|j: int| 0 <= j < us.len() && #[trigger] self.uses(opts, us[j] as int, e);
                assert(p[j] == us[j]);
            }
            if self.uses(opts, u as int, e) {
                assert(p[us.len() as int] == u);
            }
        }
    }

    /// Visiting the neighbors of an exact layer extends reach by one hop.
    proof fn lemma_layer_close(&self, opts: TraversalOpts, seed: int, h: nat, h1: nat, frontier: Seq<usize>)
        requires
            h1 == h + 1,
            self.wf(),
            forall|x: int|
                0 <= x < frontier.len() ==> 0 <= #[trigger] frontier[x] < self.nc() && self.layer(
                    opts,
                    seed,
                    h,
                    frontier[x] as int,
                ),
            forall|v: int|
                0 <= v < self.nc() && self.layer(opts, seed, h, v) ==> frontier.contains(v as usize),
            self.canonical(seed),
        ensures
            forall|v: int|
                0 <= v < self.nc() ==> (self.within(opts, seed, h, v) || self.adj_any(
                    opts,
                    frontier,
                    v,
                )) == #[trigger] self.within(opts, seed, h1, v),
            forall|e: int|
                (self.edge_seen(opts, seed, h, e) || self.uses_any(opts, frontier, e))
                    == #[trigger] self.edge_seen(opts, seed, h1, e),
    {
        assert(h1 == h + 1);
        assert forall|v: int| 0 <= v < self.nc() implies (self.within(opts, seed, h, v) || self.adj_any(
            opts,
            frontier,
            v,
        )) == #[trigger] self.within(opts, seed, h + 1, v) by {
            if self.adj_any(opts, frontier, v) {
                let j = choose|j: int| 0 <= j < frontier.len() && #[trigger] self.adj(opts, frontier[j] as int, v);
                assert(self.within(opts, seed, h, frontier[j] as int));
            }
            if self.within(opts, seed, h + 1, v) && !self.within(opts, seed, h, v) {
                let u = choose|u: int| self.within(opts, seed, h, u) && #[trigger] self.adj(opts, u, v);
                let e = choose|e: int| #[trigger] self.step(opts, u, e, v);
                self.lemma_within_canonical(opts, seed, h, u);
                if h > 0 && self.within(opts, seed, (h - 1) as nat, u) {
                    assert(self.within(opts, seed, h, v));
                } else {
                    assert(self.layer(opts, seed, h, u));
                    assert(frontier.contains(u as usize));
                    let j = choose|j: int| 0 <= j < frontier.len() && frontier[j] == u as usize;
                    assert(self.adj(opts, frontier[j] as int, v));
                }
            }
        }
        assert forall|e: int| (self.edge_seen(opts, seed, h, e) || self.uses_any(opts, frontier, e))
            == #[trigger] self.edge_seen(opts, seed, h + 1, e) by {
            if self.edge_seen(opts, seed, h, e) {
                let u = choose|u: int| #[trigger] self.expanded(opts, seed, h, u) && self.uses(opts, u, e);
                self.lemma_within_mono(opts, seed, (h - 1) as nat, h, u);
                assert(self.expanded(opts, seed, h + 1, u));
            }
            if self.uses_any(opts, frontier, e) {
                let j = choose|j: int| 0 <= j < frontier.len() && #[trigger] self.uses(opts, frontier[j] as int, e);
                assert(self.expanded(opts, seed, h + 1, frontier[j] as int));
            }
            if self.edge_seen(opts, seed, h + 1, e) {
                let u = choose|u: int| #[trigger] self.expanded(opts, seed, h + 1, u) && self.uses(opts, u, e);
                self.lemma_within_canonical(opts, seed, h, u);
                if h > 0 && self.within(opts, seed, (h - 1) as nat, u) {
                    assert(self.expanded(opts, seed, h, u));
                } else {
                    assert(self.layer(opts, seed, h, u));
                    assert(frontier.contains(u as usize));
                    let j = choose|j: int| 0 <= j < frontier.len() && frontier[j] == u as usize;
                    assert(self.uses(opts, frontier[j] as int, e));
                }
            }
        }
    }
}

impl CsrSnapshot {
    proof fn lemma_out_step(&self, opts: TraversalOpts, u: int, x: int)
        requires
            self.wf(),
            0 <= u < self.nc(),
            self.row(u) <= x < self.row(u + 1),
        ensures
            forall|v: int| #[trigger] self.out_upto(opts, u, x + 1, v) == (self.out_upto(opts, u, x, v)
                || (follows_out(opts.direction) && self.passes(x, opts) && self.dst_of(x) == v)),
            forall|e: int| #[trigger] self.out_edge_upto(opts, u, x + 1, e) == (self.out_edge_upto(opts, u, x, e)
                || (follows_out(opts.direction) && e == x && self.passes(x, opts))),
    {
        assert forall|v: int| #[trigger] self.out_upto(opts, u, x + 1, v) == (self.out_upto(opts, u, x, v)
            || (follows_out(opts.direction) && self.passes(x, opts) && self.dst_of(x) == v)) by {
            if self.out_upto(opts, u, x + 1, v) && !self.out_upto(opts, u, x, v) {
                let y = choose|y: int|
                    self.row(u) <= y < x + 1 && self.passes(y, opts) && #[trigger] self.dst_of(y) == v;
                assert(y == x);
            }
            if follows_out(opts.direction) && self.passes(x, opts) && self.dst_of(x) == v {
                assert(self.row(u) <= x < x + 1 && self.passes(x, opts) && self.dst_of(x) == v);
            }
            if self.out_upto(opts, u, x, v) {
                let y = choose|y: int|
                    self.row(u) <= y < x && self.passes(y, opts) && #[trigger] self.dst_of(y) == v;
                assert(self.row(u) <= y < x + 1);
            }
        }
    }

    proof fn lemma_in_step(&self, opts: TraversalOpts, u: int, k: int)
        requires
            self.wf(),
            0 <= u < self.nc(),
            self.rev_offsets@[u] <= k < self.rev_offsets@[u + 1],
        ensures
            forall|v: int| #[trigger] self.in_upto(opts, u, k + 1, v) == (self.in_upto(opts, u, k, v)
                || (follows_in(opts.direction) && self.passes(self.rev_edge_ref@[k] as int, opts)
                && self.rev_src@[k] == v)),
            forall|e: int| #[trigger] self.in_edge_upto(opts, u, k + 1, e) == (self.in_edge_upto(opts, u, k, e)
                || (follows_in(opts.direction) && e == self.rev_edge_ref@[k] && self.passes(e, opts))),
    {
        assert forall|v: int| #[trigger] self.in_upto(opts, u, k + 1, v) == (self.in_upto(opts, u, k, v)
            || (follows_in(opts.direction) && self.passes(self.rev_edge_ref@[k] as int, opts)
            && self.rev_src@[k] == v)) by {
            if self.in_upto(opts, u, k + 1, v) && !self.in_upto(opts, u, k, v) {
                let z = choose|z: int|
                    self.rev_offsets@[u] <= z < k + 1 && self.passes(self.rev_edge_ref@[z] as int, opts)
                        && #[trigger] self.rev_src@[z] == v;
                assert(z == k);
            }
            if follows_in(opts.direction) && self.passes(self.rev_edge_ref@[k] as int, opts)
                && self.rev_src@[k] == v {
                assert(self.rev_offsets@[u] <= k < k + 1);
            }
            if self.in_upto(opts, u, k, v) {
                let z = choose|z: int|
                    self.rev_offsets@[u] <= z < k && self.passes(self.rev_edge_ref@[z] as int, opts)
                        && #[trigger] self.rev_src@[z] == v;
                assert(self.rev_offsets@[u] <= z < k + 1);
            }
        }
        assert forall|e: int| #[trigger] self.in_edge_upto(opts, u, k + 1, e) == (self.in_edge_upto(opts, u, k, e)
            || (follows_in(opts.direction) && e == self.rev_edge_ref@[k] && self.passes(e, opts))) by {
            if self.in_edge_upto(opts, u, k + 1, e) && !self.in_edge_upto(opts, u, k, e) {
                let z = choose|z: int| self.rev_offsets@[u] <= z < k + 1 && #[trigger] self.rev_edge_ref@[z] == e;
                assert(z == k);
            }
            if follows_in(opts.direction) && e == self.rev_edge_ref@[k] && self.passes(e, opts) {
                assert(self.rev_offsets@[u] <= k < k + 1 && self.rev_edge_ref@[k] == e);
            }
            if self.in_edge_upto(opts, u, k, e) {
                let z = choose|z: int| self.rev_offsets@[u] <= z < k && #[trigger] self.rev_edge_ref@[z] == e;
                assert(self.rev_offsets@[u] <= z < k + 1);
            }
        }
    }
}

impl CsrSnapshot {
    /// Record that slot `slot` was followed from `u` to `nbr`: mark the edge
    /// and the node seen, emitting each the first time.
    fn visit(
        &self,
        slot: usize,
        nbr: usize,
        u: usize,
        visited: &mut Vec<bool>,
        seen_edge: &mut Vec<bool>,
        parent: &mut Vec<usize>,
        pslot: &mut Vec<usize>,
        nodes_out: &mut Vec<NodeView>,
        edges_out: &mut Vec<EdgeView>,
        next: &mut Vec<usize>,
        Ghost(new_edges): Ghost<Seq<int>>,
    ) -> (r: Ghost<Seq<int>>)
        requires
            self.wf(),
            slot < self.ec(),
            nbr < self.nc(),
            old(visited)@.len() == self.nc(),
            old(seen_edge)@.len() == self.ec(),
            old(parent)@.len() == self.nc(),
            old(pslot)@.len() == self.nc(),
        ensures
            final(visited)@ == old(visited)@.update(nbr as int, true),
            final(seen_edge)@ == old(seen_edge)@.update(slot as int, true),
            !old(seen_edge)@[slot as int] ==> final(edges_out)@ == old(edges_out)@.push(self.edge_at(slot as int))
                && r@ == new_edges.push(slot as int),
            old(seen_edge)@[slot as int] ==> final(edges_out)@ == old(edges_out)@ && r@ == new_edges,
            !old(visited)@[nbr as int] ==> final(nodes_out)@ == old(nodes_out)@.push(self.node_at(nbr as int))
                && final(next)@ == old(next)@.push(nbr) && final(parent)@ == old(parent)@.update(nbr as int, u)
                && final(pslot)@ == old(pslot)@.update(nbr as int, slot),
            old(visited)@[nbr as int] ==> final(nodes_out)@ == old(nodes_out)@ && final(next)@ == old(next)@
                && final(parent)@ == old(parent)@ && final(pslot)@ == old(pslot)@,
    {
        let mut ne = Ghost(new_edges);
        if !seen_edge[slot] {
            seen_edge.set(slot, true);
            let ev = self.edge_view(slot);
            edges_out.push(ev);
            ne = Ghost(new_edges.push(slot as int));
        } else {
            assert(seen_edge@ =~= old(seen_edge)@.update(slot as int, true));
        }
        if !visited[nbr] {
            visited.set(nbr, true);
            parent.set(nbr, u);
            pslot.set(nbr, slot);
            let nv = self.node_view(nbr);
            nodes_out.push(nv);
            next.push(nbr);
        } else {
            assert(visited@ =~= old(visited)@.update(nbr as int, true));
        }
        ne
    }
}

impl CsrSnapshot {
    /// Expand one breadth-first layer: visit the neighbors of every frontier
    /// node (out-slots, then in-entries, as `opts` allows), recording newly
    /// seen edges and nodes in discovery order. Returns the next frontier and
    /// the newly seen slots.
    #[verifier::rlimit(60)]
    fn expand(
        &self,
        opts: &TraversalOpts,
        Ghost(seed): Ghost<int>,
        Ghost(h): Ghost<nat>,
        Ghost(h1): Ghost<nat>,
        frontier: &Vec<usize>,
        visited: &mut Vec<bool>,
        seen_edge: &mut Vec<bool>,
        parent: &mut Vec<usize>,
        pslot: &mut Vec<usize>,
        nodes_out: &mut Vec<NodeView>,
        edges_out: &mut Vec<EdgeView>,
    ) -> (r: (Vec<usize>, Ghost<Seq<int>>))
        requires
            h1 == h + 1,
            self.wf(),
            self.canonical(seed),
            old(visited)@.len() == self.nc(),
            old(seen_edge)@.len() == self.ec(),
            old(parent)@.len() == self.nc(),
            old(pslot)@.len() == self.nc(),
            forall|v: int| 0 <= v < self.nc() ==> old(visited)@[v] == self.within(*opts, seed, h, v),
            forall|x: int|
                0 <= x < frontier@.len() ==> 0 <= #[trigger] frontier@[x] < self.nc() && self.layer(
                    *opts,
                    seed,
                    h,
                    frontier@[x] as int,
                ),
            forall|v: int|
                0 <= v < self.nc() && self.layer(*opts, seed, h, v) ==> frontier@.contains(
                    v as usize,
                ),
            forall|e: int|
                0 <= e < self.ec() ==> old(seen_edge)@[e] == self.edge_seen(*opts, seed, h, e),
        ensures
            final(visited)@.len() == self.nc(),
            final(seen_edge)@.len() == self.ec(),
            final(parent)@.len() == self.nc(),
            final(pslot)@.len() == self.nc(),
            forall|v: int|
                0 <= v < self.nc() ==> final(visited)@[v] == self.within(*opts, seed, h1, v),
            forall|x: int|
                0 <= x < r.0@.len() ==> 0 <= #[trigger] r.0@[x] < self.nc() && self.layer(
                    *opts,
                    seed,
                    h1,
                    r.0@[x] as int,
                ),
            forall|x: int, y: int| 0 <= x < y < r.0@.len() ==> r.0@[x] != r.0@[y],
            forall|v: int|
                0 <= v < self.nc() && self.layer(*opts, seed, h1, v) ==> r.0@.contains(
                    v as usize,
                ),
            forall|e: int|
                0 <= e < self.ec() ==> final(seen_edge)@[e] == self.edge_seen(*opts, seed, h1, e),
            final(nodes_out)@ == old(nodes_out)@ + r.0@.map_values(
                |d: usize| self.node_at(d as int),
            ),
            final(edges_out)@ == old(edges_out)@ + r.1@.map_values(|e: int| self.edge_at(e)),
            forall|x: int|
                0 <= x < r.1@.len() ==> 0 <= #[trigger] r.1@[x] < self.ec() && !old(
                    seen_edge,
                )@[r.1@[x]] && final(seen_edge)@[r.1@[x]],
            forall|x: int, y: int| 0 <= x < y < r.1@.len() ==> r.1@[x] != r.1@[y],
            forall|e: int|
                0 <= e < self.ec() && final(seen_edge)@[e] && !old(seen_edge)@[e]
                    ==> r.1@.contains(e),
            forall|v: int|
                0 <= v < self.nc() && old(visited)@[v] ==> final(parent)@[v] == old(parent)@[v]
                    && final(pslot)@[v] == old(pslot)@[v],
            forall|v: int|
                0 <= v < self.nc() && !old(visited)@[v] && #[trigger] final(visited)@[v]
                    ==> self.step(*opts, final(parent)@[v] as int, final(pslot)@[v] as int, v)
                    && self.layer(*opts, seed, h, final(parent)@[v] as int),
    {
        proof {
            reveal(CsrSnapshot::wf);
        }
        let ghost o = *opts;
        let ghost vis0 = visited@;
        let ghost seen0 = seen_edge@;
        let ghost par0 = parent@;
        let ghost ps0 = pslot@;
        let ghost nodes0 = nodes_out@;
        let ghost edges0 = edges_out@;
        let mut next: Vec<usize> = Vec::new();
        let mut new_edges: Ghost<Seq<int>> = Ghost(Seq::empty());
        let mut fi: usize = 0;
        proof {
            assert(next@.map_values(|d: usize| self.node_at(d as int)) =~= Seq::<NodeView>::empty());
            assert(new_edges@.map_values(|e: int| self.edge_at(e)) =~= Seq::<EdgeView>::empty());
            assert(nodes_out@ =~= nodes0 + next@.map_values(|d: usize| self.node_at(d as int)));
            assert(edges_out@ =~= edges0 + new_edges@.map_values(|e: int| self.edge_at(e)));
            assert forall|v: int| 0 <= v < self.nc() implies visited@[v] == (vis0[v] || self.adj_any(
                o,
                frontier@.take(0),
                v,
            )) by {}
            assert forall|e: int| 0 <= e < self.ec() implies seen_edge@[e] == (seen0[e]
                || self.uses_any(o, frontier@.take(0), e)) by {}
        }
        while fi < frontier.len()
            invariant
                self.wf(),
                self.canonical(seed),
                o == *opts,
                0 <= fi <= frontier@.len(),
                visited@.len() == self.nc(),
                seen_edge@.len() == self.ec(),
                parent@.len() == self.nc(),
                pslot@.len() == self.nc(),
                vis0.len() == self.nc(),
                seen0.len() == self.ec(),
                forall|v: int| 0 <= v < self.nc() ==> vis0[v] == self.within(o, seed, h, v),
                forall|x: int|
                    0 <= x < frontier@.len() ==> 0 <= #[trigger] frontier@[x] < self.nc()
                        && self.layer(o, seed, h, frontier@[x] as int),
                forall|v: int|
                    0 <= v < self.nc() ==> #[trigger] visited@[v] == (vis0[v] || self.adj_any(
                        o,
                        frontier@.take(fi as int),
                        v,
                    )),
                forall|e: int|
                    0 <= e < self.ec() ==> #[trigger] seen_edge@[e] == (seen0[e] || self.uses_any(
                        o,
                        frontier@.take(fi as int),
                        e,
                    )),
                forall|x: int|
                    0 <= x < next@.len() ==> 0 <= #[trigger] next@[x] < self.nc()
                        && !vis0[next@[x] as int] && visited@[next@[x] as int],
                forall|x: int, y: int| 0 <= x < y < next@.len() ==> next@[x] != next@[y],
                forall|v: int|
                    0 <= v < self.nc() && visited@[v] && !vis0[v] ==> next@.contains(v as usize),
                nodes_out@ == nodes0 + next@.map_values(|d: usize| self.node_at(d as int)),
                edges_out@ == edges0 + new_edges@.map_values(|e: int| self.edge_at(e)),
                forall|x: int|
                    0 <= x < new_edges@.len() ==> 0 <= #[trigger] new_edges@[x] < self.ec()
                        && !seen0[new_edges@[x]] && seen_edge@[new_edges@[x]],
                forall|x: int, y: int|
                    0 <= x < y < new_edges@.len() ==> new_edges@[x] != new_edges@[y],
                forall|e: int|
                    0 <= e < self.ec() && seen_edge@[e] && !seen0[e] ==> new_edges@.contains(e),
                forall|v: int|
                    0 <= v < self.nc() && vis0[v] ==> parent@[v] == par0[v] && pslot@[v] == ps0[v],
                forall|v: int|
                    0 <= v < self.nc() && !vis0[v] && #[trigger] visited@[v] ==> self.step(
                        o,
                        parent@[v] as int,
                        pslot@[v] as int,
                        v,
                    ) && self.layer(o, seed, h, parent@[v] as int),
            decreases frontier@.len() - fi,
        {
            proof {
                reveal(CsrSnapshot::wf);
            }
            let u = frontier[fi];
            proof {
                self.lemma_lists_complete(o, u as int);
            }
            let rows = self.row_offsets.len();
            assert(u + 1 < rows);
            let follow_out = match opts.direction {
                Dir::Out | Dir::Both => true,
                Dir::In => false,
            };
            let follow_in = match opts.direction {
                Dir::In | Dir::Both => true,
                Dir::Out => false,
            };
            let hi = self.row_offsets[u + 1];
            let mut x = if follow_out {
                self.row_offsets[u]
            } else {
                hi
            };
            proof {
                assert forall|v: int| !#[trigger] self.out_upto(o, u as int, x as int, v) by {
                    if self.out_upto(o, u as int, x as int, v) {
                        let y = choose|y: int|
                            self.row(u as int) <= y < x && self.passes(y, o) && #[trigger] self.dst_of(y) == v;
                    }
                }
                assert forall|e: int| !#[trigger] self.out_edge_upto(o, u as int, x as int, e) by {}
            }
            while x < hi
                invariant
                    self.wf(),
                    o == *opts,
                    u < self.nc(),
                    follow_out == follows_out(o.direction),
                    hi == self.row(u + 1),
                    self.row(u as int) <= x <= hi,
                    !follow_out ==> x == hi,
                    0 <= fi < frontier@.len(),
                    u == frontier@[fi as int],
                    visited@.len() == self.nc(),
                    seen_edge@.len() == self.ec(),
                    parent@.len() == self.nc(),
                    pslot@.len() == self.nc(),
                    vis0.len() == self.nc(),
                    seen0.len() == self.ec(),
                    self.layer(o, seed, h, u as int),
                    forall|v: int|
                        0 <= v < self.nc() ==> #[trigger] visited@[v] == (vis0[v] || self.adj_any(
                            o,
                            frontier@.take(fi as int),
                            v,
                        ) || self.out_upto(o, u as int, x as int, v)),
                    forall|e: int|
                        0 <= e < self.ec() ==> #[trigger] seen_edge@[e] == (seen0[e] || self.uses_any(
                            o,
                            frontier@.take(fi as int),
                            e,
                        ) || self.out_edge_upto(o, u as int, x as int, e)),
                    forall|y: int|
                        0 <= y < next@.len() ==> 0 <= #[trigger] next@[y] < self.nc()
                            && !vis0[next@[y] as int] && visited@[next@[y] as int],
                    forall|y: int, z: int| 0 <= y < z < next@.len() ==> next@[y] != next@[z],
                    forall|v: int|
                        0 <= v < self.nc() && visited@[v] && !vis0[v] ==> next@.contains(v as usize),
                    nodes_out@ == nodes0 + next@.map_values(|d: usize| self.node_at(d as int)),
                    edges_out@ == edges0 + new_edges@.map_values(|e: int| self.edge_at(e)),
                    forall|y: int|
                        0 <= y < new_edges@.len() ==> 0 <= #[trigger] new_edges@[y] < self.ec()
                            && !seen0[new_edges@[y]] && seen_edge@[new_edges@[y]],
                    forall|y: int, z: int|
                        0 <= y < z < new_edges@.len() ==> new_edges@[y] != new_edges@[z],
                    forall|e: int|
                        0 <= e < self.ec() && seen_edge@[e] && !seen0[e] ==> new_edges@.contains(e),
                    forall|v: int|
                        0 <= v < self.nc() && vis0[v] ==> parent@[v] == par0[v] && pslot@[v]
                            == ps0[v],
                    forall|v: int|
                        0 <= v < self.nc() && !vis0[v] && #[trigger] visited@[v] ==> self.step(
                            o,
                            parent@[v] as int,
                            pslot@[v] as int,
                            v,
                        ) && self.layer(o, seed, h, parent@[v] as int),
                decreases hi - x,
            {
                proof {
                    reveal(CsrSnapshot::wf);
                    self.lemma_out_step(o, u as int, x as int);
                    assert(self.edge_src@[x as int] == u);
                }
                if self.slot_passes(x, opts) {
                    let d = self.col_dst[x];
                    proof {
                        assert(self.canonical(self.dst_of(x as int)));
                        assert(self.step(o, u as int, x as int, d as int));
                    }
                    let ghost vis_b = visited@;
                    let ghost seen_b = seen_edge@;
                    let ghost next_b = next@;
                    let ghost ne_b = new_edges@;
                    let ghost nodes_b = nodes_out@;
                    let ghost edges_b = edges_out@;
                    new_edges = self.visit(
                        x, d, u, visited, seen_edge, parent, pslot, nodes_out, edges_out, &mut next,
                        new_edges,
                    );
                    proof {
                        if !vis_b[d as int] {
                            assert(next@.map_values(|d: usize| self.node_at(d as int)) =~= next_b.map_values(|d: usize| self.node_at(d as int)).push(self.node_at(d as int)));
                            assert(nodes_out@ =~= nodes0 + next@.map_values(|d: usize| self.node_at(d as int)));
                            assert forall|v: int| 0 <= v < self.nc() && visited@[v] && !vis0[v] implies next@.contains(v as usize) by {
                                if v != d {
                                    let t = choose|t: int| 0 <= t < next_b.len() && next_b[t] == v as usize;
                                    assert(next@[t] == v as usize);
                                } else {
                                    assert(next@[next_b.len() as int] == d);
                                }
                            }
                        }
                        if !seen_b[x as int] {
                            assert(new_edges@.map_values(|e: int| self.edge_at(e)) =~= ne_b.map_values(|e: int| self.edge_at(e)).push(self.edge_at(x as int)));
                            assert(edges_out@ =~= edges0 + new_edges@.map_values(|e: int| self.edge_at(e)));
                            assert forall|e: int| 0 <= e < self.ec() && seen_edge@[e] && !seen0[e] implies new_edges@.contains(e) by {
                                if e != x {
                                    let t = choose|t: int| 0 <= t < ne_b.len() && ne_b[t] == e;
                                    assert(new_edges@[t] == e);
                                } else {
                                    assert(new_edges@[ne_b.len() as int] == x);
                                }
                            }
                        }
                        assert forall|v: int| 0 <= v < self.nc() implies visited@[v] == (vis0[v] || self.adj_any(
                            o,
                            frontier@.take(fi as int),
                            v,
                        ) || self.out_upto(o, u as int, x + 1, v)) by {
                            assert(vis_b[v] == (vis0[v] || self.adj_any(o, frontier@.take(fi as int), v) || self.out_upto(o, u as int, x as int, v)));
                            assert(self.out_upto(o, u as int, x + 1, v) == (self.out_upto(o, u as int, x as int, v) || (follows_out(o.direction) && self.passes(x as int, o) && self.dst_of(x as int) == v)));
                        }
                        assert forall|e: int| 0 <= e < self.ec() implies seen_edge@[e] == (seen0[e] || self.uses_any(
                            o,
                            frontier@.take(fi as int),
                            e,
                        ) || self.out_edge_upto(o, u as int, x + 1, e)) by {
                            assert(seen_b[e] == (seen0[e] || self.uses_any(o, frontier@.take(fi as int), e) || self.out_edge_upto(o, u as int, x as int, e)));
                            assert(self.out_edge_upto(o, u as int, x + 1, e) == (self.out_edge_upto(o, u as int, x as int, e) || (follows_out(o.direction) && e == x && self.passes(x as int, o))));
                        }
                    }
                } else {
                    proof {
                        assert forall|v: int| 0 <= v < self.nc() implies visited@[v] == (vis0[v] || self.adj_any(
                            o,
                            frontier@.take(fi as int),
                            v,
                        ) || self.out_upto(o, u as int, x + 1, v)) by {
                            assert(self.out_upto(o, u as int, x + 1, v) == (self.out_upto(o, u as int, x as int, v) || (follows_out(o.direction) && self.passes(x as int, o) && self.dst_of(x as int) == v)));
                        }
                        assert forall|e: int| 0 <= e < self.ec() implies seen_edge@[e] == (seen0[e] || self.uses_any(
                            o,
                            frontier@.take(fi as int),
                            e,
                        ) || self.out_edge_upto(o, u as int, x + 1, e)) by {
                            assert(self.out_edge_upto(o, u as int, x + 1, e) == (self.out_edge_upto(o, u as int, x as int, e) || (follows_out(o.direction) && e == x && self.passes(x as int, o))));
                        }
                    }
                }
                x = x + 1;
            }
            proof {
                assert(x == hi);
            }
            let khi = self.rev_offsets[u + 1];
            let mut k = if follow_in {
                self.rev_offsets[u]
            } else {
                khi
            };
            proof {
                assert forall|v: int| !#[trigger] self.in_upto(o, u as int, k as int, v) by {
                    if self.in_upto(o, u as int, k as int, v) {
                        let z = choose|z: int|
                            self.rev_offsets@[u as int] <= z < k && self.passes(self.rev_edge_ref@[z] as int, o)
                                && #[trigger] self.rev_src@[z] == v;
                    }
                }
                assert forall|e: int| !#[trigger] self.in_edge_upto(o, u as int, k as int, e) by {
                    if self.in_edge_upto(o, u as int, k as int, e) {
                        let z = choose|z: int| self.rev_offsets@[u as int] <= z < k && #[trigger] self.rev_edge_ref@[z] == e;
                    }
                }
            }
            while k < khi
                invariant
                    self.wf(),
                    o == *opts,
                    u < self.nc(),
                    follow_in == follows_in(o.direction),
                    khi == self.rev_offsets@[u + 1],
                    hi == self.row(u + 1),
                    self.rev_offsets@[u as int] <= k <= khi,
                    !follow_in ==> k == khi,
                    0 <= fi < frontier@.len(),
                    u == frontier@[fi as int],
                    visited@.len() == self.nc(),
                    seen_edge@.len() == self.ec(),
                    parent@.len() == self.nc(),
                    pslot@.len() == self.nc(),
                    vis0.len() == self.nc(),
                    seen0.len() == self.ec(),
                    self.layer(o, seed, h, u as int),
                    forall|v: int|
                        0 <= v < self.nc() ==> #[trigger] visited@[v] == (vis0[v] || self.adj_any(
                            o,
                            frontier@.take(fi as int),
                            v,
                        ) || self.out_upto(o, u as int, hi as int, v) || self.in_upto(o, u as int, k as int, v)),
                    forall|e: int|
                        0 <= e < self.ec() ==> #[trigger] seen_edge@[e] == (seen0[e] || self.uses_any(
                            o,
                            frontier@.take(fi as int),
                            e,
                        ) || self.out_edge_upto(o, u as int, hi as int, e) || self.in_edge_upto(o, u as int, k as int, e)),
                    forall|y: int|
                        0 <= y < next@.len() ==> 0 <= #[trigger] next@[y] < self.nc()
                            && !vis0[next@[y] as int] && visited@[next@[y] as int],
                    forall|y: int, z: int| 0 <= y < z < next@.len() ==> next@[y] != next@[z],
                    forall|v: int|
                        0 <= v < self.nc() && visited@[v] && !vis0[v] ==> next@.contains(v as usize),
                    nodes_out@ == nodes0 + next@.map_values(|d: usize| self.node_at(d as int)),
                    edges_out@ == edges0 + new_edges@.map_values(|e: int| self.edge_at(e)),
                    forall|y: int|
                        0 <= y < new_edges@.len() ==> 0 <= #[trigger] new_edges@[y] < self.ec()
                            && !seen0[new_edges@[y]] && seen_edge@[new_edges@[y]],
                    forall|y: int, z: int|
                        0 <= y < z < new_edges@.len() ==> new_edges@[y] != new_edges@[z],
                    forall|e: int|
                        0 <= e < self.ec() && seen_edge@[e] && !seen0[e] ==> new_edges@.contains(e),
                    forall|v: int|
                        0 <= v < self.nc() && vis0[v] ==> parent@[v] == par0[v] && pslot@[v]
                            == ps0[v],
                    forall|v: int|
                        0 <= v < self.nc() && !vis0[v] && #[trigger] visited@[v] ==> self.step(
                            o,
                            parent@[v] as int,
                            pslot@[v] as int,
                            v,
                        ) && self.layer(o, seed, h, parent@[v] as int),
                decreases khi - k,
            {
                proof {
                    reveal(CsrSnapshot::wf);
                    self.lemma_in_step(o, u as int, k as int);
                }
                let slot = self.rev_edge_ref[k];
                proof {
                    assert(0 <= slot < self.ec() && self.col_dst@[slot as int] == u
                        && self.rev_src@[k as int] == self.edge_src@[slot as int]);
                }
                if self.slot_passes(slot, opts) {
                    let src = self.rev_src[k];
                    proof {
                        assert(self.canonical(self.src_of(slot as int)));
                        assert(self.step(o, u as int, slot as int, src as int));
                    }
                    let ghost vis_b = visited@;
                    let ghost seen_b = seen_edge@;
                    let ghost next_b = next@;
                    let ghost ne_b = new_edges@;
                    new_edges = self.visit(
                        slot, src, u, visited, seen_edge, parent, pslot, nodes_out, edges_out, &mut next,
                        new_edges,
                    );
                    proof {
                        if !vis_b[src as int] {
                            assert(next@.map_values(|d: usize| self.node_at(d as int)) =~= next_b.map_values(|d: usize| self.node_at(d as int)).push(self.node_at(src as int)));
                            assert(nodes_out@ =~= nodes0 + next@.map_values(|d: usize| self.node_at(d as int)));
                            assert forall|v: int| 0 <= v < self.nc() && visited@[v] && !vis0[v] implies next@.contains(v as usize) by {
                                if v != src {
                                    let t = choose|t: int| 0 <= t < next_b.len() && next_b[t] == v as usize;
                                    assert(next@[t] == v as usize);
                                } else {
                                    assert(next@[next_b.len() as int] == src);
                                }
                            }
                        }
                        if !seen_b[slot as int] {
                            assert(new_edges@.map_values(|e: int| self.edge_at(e)) =~= ne_b.map_values(|e: int| self.edge_at(e)).push(self.edge_at(slot as int)));
                            assert(edges_out@ =~= edges0 + new_edges@.map_values(|e: int| self.edge_at(e)));
                            assert forall|e: int| 0 <= e < self.ec() && seen_edge@[e] && !seen0[e] implies new_edges@.contains(e) by {
                                if e != slot {
                                    let t = choose|t: int| 0 <= t < ne_b.len() && ne_b[t] == e;
                                    assert(new_edges@[t] == e);
                                } else {
                                    assert(new_edges@[ne_b.len() as int] == slot);
                                }
                            }
                        }
                        assert forall|v: int| 0 <= v < self.nc() implies visited@[v] == (vis0[v] || self.adj_any(
                            o,
                            frontier@.take(fi as int),
                            v,
                        ) || self.out_upto(o, u as int, hi as int, v) || self.in_upto(o, u as int, k + 1, v)) by {
                            assert(vis_b[v] == (vis0[v] || self.adj_any(o, frontier@.take(fi as int), v) || self.out_upto(o, u as int, hi as int, v) || self.in_upto(o, u as int, k as int, v)));
                            assert(self.in_upto(o, u as int, k + 1, v) == (self.in_upto(o, u as int, k as int, v) || (follows_in(o.direction) && self.passes(self.rev_edge_ref@[k as int] as int, o) && self.rev_src@[k as int] == v)));
                        }
                        assert forall|e: int| 0 <= e < self.ec() implies seen_edge@[e] == (seen0[e] || self.uses_any(
                            o,
                            frontier@.take(fi as int),
                            e,
                        ) || self.out_edge_upto(o, u as int, hi as int, e) || self.in_edge_upto(o, u as int, k + 1, e)) by {
                            assert(seen_b[e] == (seen0[e] || self.uses_any(o, frontier@.take(fi as int), e) || self.out_edge_upto(o, u as int, hi as int, e) || self.in_edge_upto(o, u as int, k as int, e)));
                            assert(self.in_edge_upto(o, u as int, k + 1, e) == (self.in_edge_upto(o, u as int, k as int, e) || (follows_in(o.direction) && e == self.rev_edge_ref@[k as int] && self.passes(e, o))));
                        }
                    }
                } else {
                    proof {
                        assert forall|v: int| 0 <= v < self.nc() implies visited@[v] == (vis0[v] || self.adj_any(
                            o,
                            frontier@.take(fi as int),
                            v,
                        ) || self.out_upto(o, u as int, hi as int, v) || self.in_upto(o, u as int, k + 1, v)) by {
                            assert(self.in_upto(o, u as int, k + 1, v) == (self.in_upto(o, u as int, k as int, v) || (follows_in(o.direction) && self.passes(self.rev_edge_ref@[k as int] as int, o) && self.rev_src@[k as int] == v)));
                        }
                        assert forall|e: int| 0 <= e < self.ec() implies seen_edge@[e] == (seen0[e] || self.uses_any(
                            o,
                            frontier@.take(fi as int),
                            e,
                        ) || self.out_edge_upto(o, u as int, hi as int, e) || self.in_edge_upto(o, u as int, k + 1, e)) by {
                            assert(self.in_edge_upto(o, u as int, k + 1, e) == (self.in_edge_upto(o, u as int, k as int, e) || (follows_in(o.direction) && e == self.rev_edge_ref@[k as int] && self.passes(e, o))));
                        }
                    }
                }
                k = k + 1;
            }
            proof {
                assert(frontier@.take(fi + 1) =~= frontier@.take(fi as int).push(u));
                self.lemma_any_push(o, frontier@.take(fi as int), u);
            }
            fi = fi + 1;
        }
        proof {
            reveal(CsrSnapshot::wf);
            assert(frontier@.take(frontier@.len() as int) =~= frontier@);
            self.lemma_layer_close(o, seed, h, h1, frontier@);
            assert((h1 - 1) as nat == h);
            assert forall|v: int|
                0 <= v < self.nc() && self.layer(o, seed, h1, v) implies next@.contains(
                v as usize,
            ) by {
                assert(self.within(o, seed, h1, v));
                assert(!self.within(o, seed, h, v));
                assert(visited@[v]);
                assert(!vis0[v]);
            }
            assert forall|x: int| 0 <= x < next@.len() implies 0 <= #[trigger] next@[x] < self.nc() && self.layer(
                o,
                seed,
                h1,
                next@[x] as int,
            ) by {
                assert(visited@[next@[x] as int]);
            }
        }
        (next, new_edges)
    }
}

impl CsrSnapshot {
    /// Reach stops growing once a layer comes out empty.
    proof fn lemma_within_stable(&self, opts: TraversalOpts, seed: int, h: nat, k: nat)
        requires
            h > 0,
            h <= k,
            forall|v: int| #[trigger] self.within(opts, seed, h, v) ==> self.within(opts, seed, (h - 1) as nat, v),
        ensures
            forall|v: int| #[trigger] self.within(opts, seed, k, v) == self.within(opts, seed, (h - 1) as nat, v),
            forall|e: int| #[trigger] self.edge_seen(opts, seed, k, e) == self.edge_seen(opts, seed, h, e),
        decreases k - h,
    {
        assert forall|v: int| #[trigger] self.within(opts, seed, h, v) == self.within(opts, seed, (h - 1) as nat, v) by {
            if self.within(opts, seed, (h - 1) as nat, v) {
                self.lemma_within_mono(opts, seed, (h - 1) as nat, h, v);
            }
        }
        if k > h {
            self.lemma_within_stable(opts, seed, h, (k - 1) as nat);
            assert forall|v: int| #[trigger] self.within(opts, seed, k, v) == self.within(opts, seed, (h - 1) as nat, v) by {
                if self.within(opts, seed, k, v) && !self.within(opts, seed, (k - 1) as nat, v) {
                    let u = choose|u: int| self.within(opts, seed, (k - 1) as nat, u) && #[trigger] self.adj(opts, u, v);
                    assert(self.within(opts, seed, (h - 1) as nat, u));
                    assert(self.within(opts, seed, h, v));
                }
                if self.within(opts, seed, (h - 1) as nat, v) {
                    self.lemma_within_mono(opts, seed, (h - 1) as nat, k, v);
                }
            }
            assert forall|e: int| #[trigger] self.edge_seen(opts, seed, k, e) == self.edge_seen(opts, seed, h, e) by {
                if self.edge_seen(opts, seed, k, e) {
                    let u = choose|u: int| #[trigger] self.expanded(opts, seed, k, u) && self.uses(opts, u, e);
                    assert(self.within(opts, seed, (h - 1) as nat, u));
                    assert(self.expanded(opts, seed, h, u));
                }
                if self.edge_seen(opts, seed, h, e) {
                    let u = choose|u: int| #[trigger] self.expanded(opts, seed, h, u) && self.uses(opts, u, e);
                    self.lemma_within_mono(opts, seed, (h - 1) as nat, (k - 1) as nat, u);
                    assert(self.expanded(opts, seed, k, u));
                }
            }
        }
    }

    /// `ord` lists the nodes and `eord` the slots of a `hops`-hop expansion
    /// from dense node `s`, each once, in discovery order.
    pub open spec fn khop_witness(
        &self,
        opts: TraversalOpts,
        s: int,
        hops: nat,
        sub: Subgraph,
        ord: Seq<int>,
        eord: Seq<int>,
    ) -> bool {
        &&& ord.len() > 0 && ord[0] == s
        &&& forall|x: int, y: int| 0 <= x < y < ord.len() ==> ord[x] != ord[y]
        &&& forall|x: int, y: int| 0 <= x < y < eord.len() ==> eord[x] != eord[y]
        &&& forall|x: int| 0 <= x < ord.len() ==> 0 <= #[trigger] ord[x] < self.nc()
        &&& forall|x: int| 0 <= x < eord.len() ==> 0 <= #[trigger] eord[x] < self.ec()
        &&& forall|v: int| 0 <= v < self.nc() ==> (ord.contains(v) <==> #[trigger] self.within(opts, s, hops, v))
        &&& forall|e: int| 0 <= e < self.ec() ==> (eord.contains(e) <==> #[trigger] self.edge_seen(opts, s, hops, e))
        &&& sub.nodes@ == ord.map_values(|d: int| self.node_at(d))
        &&& sub.edges@ == eord.map_values(|e: int| self.edge_at(e))
    }

    /// `sub` is the `hops`-hop neighborhood of `seed` under `opts`: every node
    /// reachable in at most `hops` steps once (the seed first), and every edge
    /// followed from a node reachable in fewer than `hops` steps once. An
    /// unknown seed gives the empty subgraph.
    pub open spec fn is_khop(&self, seed: NodeId, hops: nat, opts: TraversalOpts, sub: Subgraph) -> bool {
        if self.ids().contains_key(seed.0) {
            exists|ord: Seq<int>, eord: Seq<int>|
                #[trigger] self.khop_witness(opts, self.ids()[seed.0] as int, hops, sub, ord, eord)
        } else {
            sub.nodes@.len() == 0 && sub.edges@.len() == 0
        }
    }

    /// Breadth-first expansion up to `max_hops` from `seed`, returning the
    /// induced subgraph of visited nodes and traversed edges.
    pub fn k_hop(&self, seed: NodeId, max_hops: u32, opts: &TraversalOpts) -> (sub: Subgraph)
        requires
            self.wf(),
        ensures
            self.is_khop(seed, max_hops as nat, *opts, sub),
    {
        let mut sub = Subgraph::default();
        let sd = match self.dense(seed) {
            Some(d) => d,
            None => {
                return sub;
            },
        };
        let ghost o = *opts;
        let ghost s = sd as int;
        let n = self.node_count();
        let m = self.edge_count();
        let mut visited: Vec<bool> = Vec::new();
        let mut parent: Vec<usize> = Vec::new();
        let mut pslot: Vec<usize> = Vec::new();
        let mut i: usize = 0;
        while i < n
            invariant
                i <= n,
                visited@.len() == i && parent@.len() == i && pslot@.len() == i,
                forall|v: int| 0 <= v < i ==> !visited@[v],
            decreases n - i,
        {
            visited.push(false);
            parent.push(0);
            pslot.push(0);
            i = i + 1;
        }
        let mut seen_edge: Vec<bool> = Vec::new();
        let mut j: usize = 0;
        while j < m
            invariant
                j <= m,
                seen_edge@.len() == j,
                forall|e: int| 0 <= e < j ==> !seen_edge@[e],
            decreases m - j,
        {
            seen_edge.push(false);
            j = j + 1;
        }
        let mut frontier: Vec<usize> = Vec::new();
        frontier.push(sd);
        visited.set(sd, true);
        let nv = self.node_view(sd);
        sub.nodes.push(nv);
        let ghost mut ord: Seq<int> = seq![s];
        let ghost mut eord: Seq<int> = Seq::empty();
        let mut hops: u32 = 0;
        proof {
            assert forall|v: int| 0 <= v < self.nc() implies visited@[v] == self.within(o, s, 0, v) by {}
            assert forall|e: int| 0 <= e < self.ec() implies !#[trigger] self.edge_seen(o, s, 0, e) by {}
            assert forall|v: int| 0 <= v < self.nc() && self.layer(o, s, 0, v) implies frontier@.contains(v as usize) by {
                assert(frontier@[0] == sd);
            }
            assert(sub.nodes@ =~= ord.map_values(|d: int| self.node_at(d)));
            assert(sub.edges@ =~= eord.map_values(|e: int| self.edge_at(e)));
            assert forall|v: int| 0 <= v < self.nc() implies (ord.contains(v) <==> visited@[v]) by {
                if v == s {
                    assert(ord[0] == s);
                }
            }
        }
        while hops < max_hops && frontier.len() > 0
            invariant
                self.wf(),
                self.canonical(s),
                o == *opts,
                hops <= max_hops,
                hops == 0 ==> frontier@.len() == 1,
                visited@.len() == self.nc(),
                seen_edge@.len() == self.ec(),
                parent@.len() == self.nc(),
                pslot@.len() == self.nc(),
                forall|v: int| 0 <= v < self.nc() ==> visited@[v] == self.within(o, s, hops as nat, v),
                forall|x: int|
                    0 <= x < frontier@.len() ==> 0 <= #[trigger] frontier@[x] < self.nc() && self.layer(
                        o,
                        s,
                        hops as nat,
                        frontier@[x] as int,
                    ),
                forall|v: int|
                    0 <= v < self.nc() && self.layer(o, s, hops as nat, v) ==> frontier@.contains(
                        v as usize,
                    ),
                forall|e: int|
                    0 <= e < self.ec() ==> seen_edge@[e] == self.edge_seen(o, s, hops as nat, e),
                ord.len() > 0 && ord[0] == s,
                forall|x: int, y: int| 0 <= x < y < ord.len() ==> ord[x] != ord[y],
                forall|x: int, y: int| 0 <= x < y < eord.len() ==> eord[x] != eord[y],
                forall|x: int| 0 <= x < ord.len() ==> 0 <= #[trigger] ord[x] < self.nc(),
                forall|x: int| 0 <= x < eord.len() ==> 0 <= #[trigger] eord[x] < self.ec(),
                forall|v: int| 0 <= v < self.nc() ==> (ord.contains(v) <==> visited@[v]),
                forall|e: int| 0 <= e < self.ec() ==> (eord.contains(e) <==> seen_edge@[e]),
                sub.nodes@ == ord.map_values(|d: int| self.node_at(d)),
                sub.edges@ == eord.map_values(|e: int| self.edge_at(e)),
            decreases max_hops - hops,
        {
            let ghost vis_b = visited@;
            let ghost seen_b = seen_edge@;
            let (next, ne) = self.expand(
                opts,
                Ghost(s),
                Ghost(hops as nat),
                Ghost((hops + 1) as nat),
                &frontier,
                &mut visited,
                &mut seen_edge,
                &mut parent,
                &mut pslot,
                &mut sub.nodes,
                &mut sub.edges,
            );
            proof {
                let ord0 = ord;
                let eord0 = eord;
                ord = ord + next@.map_values(|d: usize| d as int);
                eord = eord + ne@;
                assert(next@.map_values(|d: usize| self.node_at(d as int)) =~= next@.map_values(|d: usize| d as int).map_values(|d: int| self.node_at(d)));
                assert(sub.nodes@ =~= ord.map_values(|d: int| self.node_at(d)));
                assert(sub.edges@ =~= eord.map_values(|e: int| self.edge_at(e)));
                assert forall|x: int, y: int| 0 <= x < y < ord.len() implies ord[x] != ord[y] by {
                    if y >= ord0.len() && x < ord0.len() {
                        assert(ord0.contains(ord0[x]));
                        assert(vis_b[ord0[x]]);
                        assert(!vis_b[next@[y - ord0.len()] as int]);
                    }
                }
                assert forall|x: int, y: int| 0 <= x < y < eord.len() implies eord[x] != eord[y] by {
                    if y >= eord0.len() && x < eord0.len() {
                        assert(eord0.contains(eord0[x]));
                        assert(seen_b[eord0[x]]);
                        assert(!seen_b[ne@[y - eord0.len()]]);
                    }
                }
                assert forall|x: int| 0 <= x < ord.len() implies 0 <= #[trigger] ord[x] < self.nc() by {
                    if x >= ord0.len() {
                        assert(0 <= next@[x - ord0.len()] < self.nc());
                    }
                }
                assert forall|x: int| 0 <= x < eord.len() implies 0 <= #[trigger] eord[x] < self.ec() by {
                    if x >= eord0.len() {
                        assert(0 <= ne@[x - eord0.len()] < self.ec());
                    }
                }
                assert forall|v: int| 0 <= v < self.nc() implies (ord.contains(v) <==> visited@[v]) by {
                    if ord.contains(v) {
                        let x = choose|x: int| 0 <= x < ord.len() && ord[x] == v;
                        if x < ord0.len() {
                            assert(ord0.contains(v));
                            self.lemma_within_mono(o, s, hops as nat, (hops + 1) as nat, v);
                        } else {
                            assert(next@[x - ord0.len()] as int == v);
                        }
                    }
                    if visited@[v] {
                        if vis_b[v] {
                            assert(ord0.contains(v));
                            let x = choose|x: int| 0 <= x < ord0.len() && ord0[x] == v;
                            assert(ord[x] == v);
                        } else {
                            assert(self.layer(o, s, (hops + 1) as nat, v));
                            assert(next@.contains(v as usize));
                            let x = choose|x: int| 0 <= x < next@.len() && next@[x] == v as usize;
                            assert(ord[ord0.len() + x] == v);
                        }
                    }
                }
                assert forall|e: int| 0 <= e < self.ec() implies (eord.contains(e) <==> seen_edge@[e]) by {
                    if eord.contains(e) {
                        let x = choose|x: int| 0 <= x < eord.len() && eord[x] == e;
                        if x < eord0.len() {
                            assert(eord0.contains(e));
                            assert(seen_b[e]);
                            let u = choose|u: int| #[trigger] self.expanded(o, s, hops as nat, u) && self.uses(o, u, e);
                            self.lemma_within_mono(o, s, (hops - 1) as nat, hops as nat, u);
                            assert(self.expanded(o, s, (hops + 1) as nat, u));
                        } else {
                            assert(ne@[x - eord0.len()] == e);
                        }
                    }
                    if seen_edge@[e] {
                        if seen_b[e] {
                            assert(eord0.contains(e));
                            let x = choose|x: int| 0 <= x < eord0.len() && eord0[x] == e;
                            assert(eord[x] == e);
                        } else {
                            assert(ne@.contains(e));
                            let x = choose|x: int| 0 <= x < ne@.len() && ne@[x] == e;
                            assert(eord[eord0.len() + x] == e);
                        }
                    }
                }
            }
            frontier = next;
            hops = hops + 1;
        }
        proof {
            if hops < max_hops {
                assert(frontier@.len() == 0);
                assert forall|v: int| #[trigger] self.within(o, s, hops as nat, v) implies self.within(o, s, (hops - 1) as nat, v) by {
                    self.lemma_within_canonical(o, s, hops as nat, v);
                    if !self.within(o, s, (hops - 1) as nat, v) {
                        assert(self.layer(o, s, hops as nat, v));
                        assert(frontier@.contains(v as usize));
                    }
                }
                self.lemma_within_stable(o, s, hops as nat, max_hops as nat);
                self.lemma_within_stable(o, s, hops as nat, hops as nat);
            }
            assert(self.khop_witness(o, s, max_hops as nat, sub, ord, eord));
        }
        sub
    }

    /// One-hop neighbors of `seed` (the "expand node" action).
    pub fn neighbors(&self, seed: NodeId, opts: &TraversalOpts) -> (sub: Subgraph)
        requires
            self.wf(),
        ensures
            self.is_khop(seed, 1, *opts, sub),
    {
        // Only the time window, type filter and direction of `opts` matter;
        // the hop bound is fixed at one.
        self.k_hop(seed, 1, opts)
    }

    /// The ids of all nodes reachable from `seed` under `opts` (the seed
    /// included), in breadth-first order.
    pub fn reachable(&self, seed: NodeId, opts: &TraversalOpts) -> (ids: Vec<NodeId>)
        requires
            self.wf(),
        ensures
            exists|sub: Subgraph|
                #[trigger] self.is_khop(seed, reach_bound(opts.max_hops), *opts, sub) && ids@
                    == sub.nodes@.map_values(|v: NodeView| v.id),
    {
        let bound = if opts.max_hops >= u32::MAX / 2 { opts.max_hops } else { u32::MAX / 2 };
        let sub = self.k_hop(seed, bound, opts);
        let mut ids: Vec<NodeId> = Vec::new();
        let mut i: usize = 0;
        while i < sub.nodes.len()
            invariant
                i <= sub.nodes@.len(),
                ids@ == sub.nodes@.take(i as int).map_values(|v: NodeView| v.id),
            decreases sub.nodes@.len() - i,
        {
            ids.push(sub.nodes[i].id);
            i = i + 1;
            proof {
                assert(ids@ =~= sub.nodes@.take(i as int).map_values(|v: NodeView| v.id));
            }
        }
        proof {
            assert(sub.nodes@.take(i as int) =~= sub.nodes@);
            assert(bound as nat == reach_bound(opts.max_hops));
            assert(self.is_khop(seed, reach_bound(opts.max_hops), *opts, sub));
        }
        ids
    }
}

/// A sequence of distinct indices below `n` has at most `n` entries.
proof fn lemma_distinct_bound(q: Seq<int>, n: int)
    requires
        0 <= n,
        forall|x: int, y: int| 0 <= x < y < q.len() ==> q[x] != q[y],
        forall|x: int| 0 <= x < q.len() ==> 0 <= #[trigger] q[x] < n,
    ensures
        q.len() <= n,
{
    assert(q.no_duplicates());
    q.unique_seq_to_set();
    vstd::set_lib::lemma_int_range(0, n);
    assert(q.to_set().subset_of(vstd::set_lib::set_int_range(0, n)));
    vstd::set_lib::lemma_len_subset(q.to_set(), vstd::set_lib::set_int_range(0, n));
}

impl CsrSnapshot {
    /// `d` can be reached from `s` at all.
    pub open spec fn reaches(&self, opts: TraversalOpts, s: int, d: int) -> bool {
        exists|k: nat| #[trigger] self.within(opts, s, k, d)
    }

    /// `vs`/`es` is a walk: each slot `es[i]` leads from `vs[i]` to `vs[i + 1]`.
    pub open spec fn is_walk(&self, opts: TraversalOpts, vs: Seq<int>, es: Seq<int>) -> bool {
        &&& vs.len() == es.len() + 1
        &&& forall|i: int| 0 <= i < es.len() ==> #[trigger] self.step(opts, vs[i], es[i], vs[i + 1])
    }

    /// `p` shows a walk from `s` to `d` with the fewest possible steps.
    pub open spec fn path_witness(
        &self,
        opts: TraversalOpts,
        s: int,
        d: int,
        p: Subgraph,
        vs: Seq<int>,
        es: Seq<int>,
    ) -> bool {
        &&& self.is_walk(opts, vs, es)
        &&& vs[0] == s
        &&& vs.last() == d
        &&& forall|i: int| 0 <= i < vs.len() ==> 0 <= #[trigger] vs[i] < self.nc()
        &&& self.within(opts, s, es.len(), d)
        &&& (es.len() == 0 || !self.within(opts, s, (es.len() - 1) as nat, d))
        &&& p.nodes@ == vs.map_values(|v: int| self.node_at(v))
        &&& p.edges@ == es.map_values(|e: int| self.edge_at(e))
    }

    /// `p` is a fewest-hops path from dense `s` to dense `d` under `opts`.
    pub open spec fn is_shortest_path(&self, opts: TraversalOpts, s: int, d: int, p: Subgraph) -> bool {
        exists|vs: Seq<int>, es: Seq<int>| #[trigger] self.path_witness(opts, s, d, p, vs, es)
    }

    /// A node has at most one layer.
    proof fn lemma_layer_unique(&self, opts: TraversalOpts, seed: int, a: nat, b: nat, v: int)
        requires
            self.layer(opts, seed, a, v),
            self.layer(opts, seed, b, v),
        ensures
            a == b,
    {
        if a < b {
            self.lemma_within_mono(opts, seed, a, (b - 1) as nat, v);
        }
        if b < a {
            self.lemma_within_mono(opts, seed, b, (a - 1) as nat, v);
        }
    }

    /// Shortest (fewest-hops) path from `src` to `dst` under `opts`, as the
    /// subgraph of the path's nodes and edges; `None` if either id is unknown
    /// or `dst` is unreachable under the time/type filter. Direction is
    /// honored (use `Dir::Both` for an undirected path).
    pub fn shortest_path(&self, src: NodeId, dst: NodeId, opts: &TraversalOpts) -> (r: Option<Subgraph>)
        requires
            self.wf(),
        ensures
            match r {
                Some(p) => self.ids().contains_key(src.0) && self.ids().contains_key(dst.0)
                    && self.reaches(*opts, self.ids()[src.0] as int, self.ids()[dst.0] as int)
                    && self.is_shortest_path(*opts, self.ids()[src.0] as int, self.ids()[dst.0] as int, p),
                None => !self.ids().contains_key(src.0) || !self.ids().contains_key(dst.0)
                    || !self.reaches(*opts, self.ids()[src.0] as int, self.ids()[dst.0] as int),
            },
    {
        let sd = match self.dense(src) {
            Some(x) => x,
            None => {
                return None;
            },
        };
        let dd = match self.dense(dst) {
            Some(x) => x,
            None => {
                return None;
            },
        };
        let ghost o = *opts;
        let ghost s = sd as int;
        let ghost d = dd as int;
        if sd == dd {
            let mut sub = Subgraph::default();
            let nv = self.node_view(sd);
            sub.nodes.push(nv);
            proof {
                let vs = seq![s];
                let es = Seq::<int>::empty();
                assert(self.within(o, s, 0, d));
                assert(sub.nodes@ =~= vs.map_values(|v: int| self.node_at(v)));
                assert(sub.edges@ =~= es.map_values(|e: int| self.edge_at(e)));
                assert(self.path_witness(o, s, d, sub, vs, es));
            }
            return Some(sub);
        }
        let n = self.node_count();
        let m = self.edge_count();
        let mut visited: Vec<bool> = Vec::new();
        let mut parent: Vec<usize> = Vec::new();
        let mut pslot: Vec<usize> = Vec::new();
        let mut i: usize = 0;
        while i < n
            invariant
                i <= n,
                visited@.len() == i && parent@.len() == i && pslot@.len() == i,
                forall|v: int| 0 <= v < i ==> !visited@[v],
            decreases n - i,
        {
            visited.push(false);
            parent.push(0);
            pslot.push(0);
            i = i + 1;
        }
        let mut seen_edge: Vec<bool> = Vec::new();
        let mut j: usize = 0;
        while j < m
            invariant
                j <= m,
                seen_edge@.len() == j,
                forall|e: int| 0 <= e < j ==> !seen_edge@[e],
            decreases m - j,
        {
            seen_edge.push(false);
            j = j + 1;
        }
        let mut scratch_nodes: Vec<NodeView> = Vec::new();
        let mut scratch_edges: Vec<EdgeView> = Vec::new();
        let mut frontier: Vec<usize> = Vec::new();
        frontier.push(sd);
        visited.set(sd, true);
        let ghost mut h: nat = 0;
        let ghost mut ord: Seq<int> = seq![s];
        proof {
            assert forall|v: int| 0 <= v < self.nc() implies visited@[v] == self.within(o, s, 0, v) by {}
            assert forall|e: int| 0 <= e < self.ec() implies !#[trigger] self.edge_seen(o, s, 0, e) by {}
            assert forall|v: int| 0 <= v < self.nc() && self.layer(o, s, 0, v) implies frontier@.contains(v as usize) by {
                assert(frontier@[0] == sd);
            }
            assert forall|v: int| 0 <= v < self.nc() implies (ord.contains(v) <==> visited@[v]) by {
                if v == s {
                    assert(ord[0] == s);
                }
            }
        }
        while !visited[dd] && frontier.len() > 0
            invariant
                self.wf(),
                self.canonical(s),
                self.canonical(d),
                s != d,
                s == sd as int,
                d == dd as int,
                o == *opts,
                h == 0 ==> frontier@.len() == 1,
                visited@.len() == self.nc(),
                seen_edge@.len() == self.ec(),
                parent@.len() == self.nc(),
                pslot@.len() == self.nc(),
                forall|v: int| 0 <= v < self.nc() ==> visited@[v] == self.within(o, s, h, v),
                forall|x: int|
                    0 <= x < frontier@.len() ==> 0 <= #[trigger] frontier@[x] < self.nc() && self.layer(
                        o,
                        s,
                        h,
                        frontier@[x] as int,
                    ),
                forall|v: int|
                    0 <= v < self.nc() && self.layer(o, s, h, v) ==> frontier@.contains(v as usize),
                forall|e: int| 0 <= e < self.ec() ==> seen_edge@[e] == self.edge_seen(o, s, h, e),
                forall|x: int, y: int| 0 <= x < y < ord.len() ==> ord[x] != ord[y],
                forall|x: int| 0 <= x < ord.len() ==> 0 <= #[trigger] ord[x] < self.nc(),
                forall|v: int| 0 <= v < self.nc() ==> (ord.contains(v) <==> visited@[v]),
                forall|v: int|
                    0 <= v < self.nc() && #[trigger] visited@[v] && v != s ==> exists|k: nat|
                        0 < k <= h && #[trigger] self.layer(o, s, k, v) && self.layer(
                            o,
                            s,
                            (k - 1) as nat,
                            parent@[v] as int,
                        ) && self.step(o, parent@[v] as int, pslot@[v] as int, v),
            decreases 2 * (self.nc() - ord.len()) + if frontier@.len() > 0 { 1int } else { 0int },
        {
            proof {
                lemma_distinct_bound(ord, self.nc());
            }
            let ghost vis_b = visited@;
            let ghost par_b = parent@;
            let ghost ps_b = pslot@;
            let (next, ne) = self.expand(
                opts,
                Ghost(s),
                Ghost(h),
                Ghost(h + 1),
                &frontier,
                &mut visited,
                &mut seen_edge,
                &mut parent,
                &mut pslot,
                &mut scratch_nodes,
                &mut scratch_edges,
            );
            proof {
                let ord0 = ord;
                ord = ord + next@.map_values(|x: usize| x as int);
                assert forall|x: int, y: int| 0 <= x < y < ord.len() implies ord[x] != ord[y] by {
                    if y >= ord0.len() && x < ord0.len() {
                        assert(ord0.contains(ord0[x]));
                        assert(vis_b[ord0[x]]);
                        assert(!vis_b[next@[y - ord0.len()] as int]);
                    }
                }
                assert forall|x: int| 0 <= x < ord.len() implies 0 <= #[trigger] ord[x] < self.nc() by {
                    if x >= ord0.len() {
                        assert(0 <= next@[x - ord0.len()] < self.nc());
                    }
                }
                assert forall|v: int| 0 <= v < self.nc() implies (ord.contains(v) <==> visited@[v]) by {
                    if ord.contains(v) {
                        let x = choose|x: int| 0 <= x < ord.len() && ord[x] == v;
                        if x < ord0.len() {
                            assert(ord0.contains(v));
                            self.lemma_within_mono(o, s, h, h + 1, v);
                        } else {
                            assert(next@[x - ord0.len()] as int == v);
                        }
                    }
                    if visited@[v] {
                        if vis_b[v] {
                            assert(ord0.contains(v));
                            let x = choose|x: int| 0 <= x < ord0.len() && ord0[x] == v;
                            assert(ord[x] == v);
                        } else {
                            assert(self.layer(o, s, h + 1, v));
                            assert(next@.contains(v as usize));
                            let x = choose|x: int| 0 <= x < next@.len() && next@[x] == v as usize;
                            assert(ord[ord0.len() + x] == v);
                        }
                    }
                }
                assert forall|v: int|
                    0 <= v < self.nc() && #[trigger] visited@[v] && v != s implies exists|k: nat|
                        0 < k <= h + 1 && #[trigger] self.layer(o, s, k, v) && self.layer(
                            o,
                            s,
                            (k - 1) as nat,
                            parent@[v] as int,
                        ) && self.step(o, parent@[v] as int, pslot@[v] as int, v) by {
                    if vis_b[v] {
                        let k = choose|k: nat|
                            0 < k <= h && #[trigger] self.layer(o, s, k, v) && self.layer(
                                o,
                                s,
                                (k - 1) as nat,
                                par_b[v] as int,
                            ) && self.step(o, par_b[v] as int, ps_b[v] as int, v);
                        assert(parent@[v] == par_b[v] && pslot@[v] == ps_b[v]);
                        assert(self.layer(o, s, k, v));
                    } else {
                        assert(self.layer(o, s, h + 1, v));
                        assert((h + 1 - 1) as nat == h);
                        assert(self.layer(o, s, h, parent@[v] as int));
                    }
                }
                if next@.len() > 0 {
                    assert(ord.len() > ord0.len());
                }
                lemma_distinct_bound(ord, self.nc());
            }
            frontier = next;
            proof {
                h = h + 1;
            }
        }
        if !visited[dd] {
            proof {
                if h > 0 {
                    assert forall|v: int| #[trigger] self.within(o, s, h, v) implies self.within(o, s, (h - 1) as nat, v) by {
                        self.lemma_within_canonical(o, s, h, v);
                        if !self.within(o, s, (h - 1) as nat, v) {
                            assert(self.layer(o, s, h, v));
                            assert(frontier@.contains(v as usize));
                        }
                    }
                }
                assert forall|k: nat| !#[trigger] self.within(o, s, k, d) by {
                    if k <= h {
                        if self.within(o, s, k, d) {
                            self.lemma_within_mono(o, s, k, h, d);
                        }
                    } else {
                        self.lemma_within_stable(o, s, h, k);
                    }
                }
            }
            return None;
        }
        // Reconstruct the node/edge sequence from dst back to src.
        let mut node_path: Vec<usize> = Vec::new();
        let mut edge_steps: Vec<usize> = Vec::new();
        node_path.push(dd);
        let mut cur = dd;
        let ghost mut k: nat = h;
        proof {
            assert(visited@[d]);
            let kd = choose|kd: nat|
                0 < kd <= h && #[trigger] self.layer(o, s, kd, d) && self.layer(
                    o,
                    s,
                    (kd - 1) as nat,
                    parent@[d] as int,
                ) && self.step(o, parent@[d] as int, pslot@[d] as int, d);
            k = kd;
        }
        let ghost kd = k;
        while cur != sd
            invariant
                self.wf(),
                self.canonical(s),
                s == sd as int,
                d == dd as int,
                o == *opts,
                visited@.len() == self.nc(),
                parent@.len() == self.nc(),
                pslot@.len() == self.nc(),
                forall|v: int| 0 <= v < self.nc() ==> visited@[v] == self.within(o, s, h, v),
                forall|v: int|
                    0 <= v < self.nc() && #[trigger] visited@[v] && v != s ==> exists|k: nat|
                        0 < k <= h && #[trigger] self.layer(o, s, k, v) && self.layer(
                            o,
                            s,
                            (k - 1) as nat,
                            parent@[v] as int,
                        ) && self.step(o, parent@[v] as int, pslot@[v] as int, v),
                0 <= cur < self.nc(),
                visited@[cur as int],
                self.layer(o, s, k, cur as int),
                k <= kd,
                node_path@.len() == edge_steps@.len() + 1,
                node_path@.len() == kd - k + 1,
                node_path@[0] == d,
                node_path@.last() == cur,
                forall|i: int| 0 <= i < node_path@.len() ==> 0 <= #[trigger] node_path@[i] < self.nc(),
                forall|i: int|
                    0 <= i < edge_steps@.len() ==> #[trigger] self.step(
                        o,
                        node_path@[i + 1] as int,
                        edge_steps@[i] as int,
                        node_path@[i] as int,
                    ),
            decreases k,
        {
            let p = parent[cur];
            let e = pslot[cur];
            proof {
                let kc = choose|kc: nat|
                    0 < kc <= h && #[trigger] self.layer(o, s, kc, cur as int) && self.layer(
                        o,
                        s,
                        (kc - 1) as nat,
                        parent@[cur as int] as int,
                    ) && self.step(o, parent@[cur as int] as int, pslot@[cur as int] as int, cur as int);
                self.lemma_layer_unique(o, s, k, kc, cur as int);
                reveal(CsrSnapshot::wf);
                assert(self.canonical(self.src_of(e as int)));
                self.lemma_within_mono(o, s, (k - 1) as nat, h, p as int);
            }
            let ghost np = node_path@;
            let ghost es = edge_steps@;
            edge_steps.push(e);
            node_path.push(p);
            cur = p;
            proof {
                k = (k - 1) as nat;
                assert forall|i: int|
                    0 <= i < edge_steps@.len() implies #[trigger] self.step(
                        o,
                        node_path@[i + 1] as int,
                        edge_steps@[i] as int,
                        node_path@[i] as int,
                    ) by {
                    if i < es.len() {
                        assert(node_path@[i + 1] == np[i + 1] && edge_steps@[i] == es[i] && node_path@[i] == np[i]);
                    }
                }
            }
        }
        // Emit the path from src to dst.
        let mut sub = Subgraph::default();
        let ghost vs = node_path@.reverse().map_values(|x: usize| x as int);
        let ghost esr = edge_steps@.reverse().map_values(|x: usize| x as int);
        let mut t: usize = node_path.len();
        while t > 0
            invariant
                self.wf(),
                t <= node_path@.len(),
                node_path@.len() == edge_steps@.len() + 1,
                forall|i: int|
                    0 <= i < edge_steps@.len() ==> #[trigger] self.step(
                        *opts,
                        node_path@[i + 1] as int,
                        edge_steps@[i] as int,
                        node_path@[i] as int,
                    ),
                forall|i: int| 0 <= i < node_path@.len() ==> 0 <= #[trigger] node_path@[i] < self.nc(),
                sub.edges@.len() == 0,
                sub.nodes@ == node_path@.subrange(t as int, node_path@.len() as int).reverse().map_values(|x: usize| self.node_at(x as int)),
            decreases t,
        {
            t = t - 1;
            let nv = self.node_view(node_path[t]);
            sub.nodes.push(nv);
            proof {
                assert(sub.nodes@ =~= node_path@.subrange(t as int, node_path@.len() as int).reverse().map_values(|x: usize| self.node_at(x as int)));
            }
        }
        let mut q: usize = edge_steps.len();
        let ghost nodes_final = sub.nodes@;
        proof {
            assert forall|i: int| 0 <= i < edge_steps@.len() implies 0 <= #[trigger] edge_steps@[i] < self.ec() by {
                assert(self.step(o, node_path@[i + 1] as int, edge_steps@[i] as int, node_path@[i] as int));
            }
            assert(sub.edges@ =~= edge_steps@.subrange(q as int, edge_steps@.len() as int).reverse().map_values(|x: usize| self.edge_at(x as int)));
        }
        while q > 0
            invariant
                self.wf(),
                q <= edge_steps@.len(),
                sub.nodes@ == nodes_final,
                node_path@.len() == edge_steps@.len() + 1,
                forall|i: int|
                    0 <= i < edge_steps@.len() ==> #[trigger] self.step(
                        *opts,
                        node_path@[i + 1] as int,
                        edge_steps@[i] as int,
                        node_path@[i] as int,
                    ),
                forall|i: int| 0 <= i < edge_steps@.len() ==> 0 <= #[trigger] edge_steps@[i] < self.ec(),
                sub.edges@ == edge_steps@.subrange(q as int, edge_steps@.len() as int).reverse().map_values(|x: usize| self.edge_at(x as int)),
            decreases q,
        {
            q = q - 1;
            let ev = self.edge_view(edge_steps[q]);
            sub.edges.push(ev);
            proof {
                assert(sub.edges@ =~= edge_steps@.subrange(q as int, edge_steps@.len() as int).reverse().map_values(|x: usize| self.edge_at(x as int)));
            }
        }
        proof {
            assert(node_path@.subrange(0, node_path@.len() as int) =~= node_path@);
            assert(edge_steps@.subrange(0, edge_steps@.len() as int) =~= edge_steps@);
            assert(sub.nodes@ == node_path@.subrange(0, node_path@.len() as int).reverse().map_values(|x: usize| self.node_at(x as int)));
            assert(node_path@.subrange(0, node_path@.len() as int).reverse() =~= node_path@.reverse());
            assert(edge_steps@.subrange(0, edge_steps@.len() as int).reverse() =~= edge_steps@.reverse());
            assert forall|i: int| 0 <= i < sub.nodes@.len() implies sub.nodes@[i] == vs.map_values(|v: int| self.node_at(v))[i] by {
                assert(sub.nodes@[i] == self.node_at(node_path@.reverse()[i] as int));
            }
            assert(sub.nodes@ =~= vs.map_values(|v: int| self.node_at(v)));
            assert forall|i: int| 0 <= i < sub.edges@.len() implies sub.edges@[i] == esr.map_values(|e: int| self.edge_at(e))[i] by {
                assert(sub.edges@[i] == self.edge_at(edge_steps@.reverse()[i] as int));
            }
            assert(sub.edges@ =~= esr.map_values(|e: int| self.edge_at(e)));
            assert(self.layer(o, s, 0, s));
            self.lemma_layer_unique(o, s, k, 0, s);
            assert(k == 0);
            assert(cur == sd);
            assert forall|i: int| 0 <= i < esr.len() implies #[trigger] self.step(o, vs[i], esr[i], vs[i + 1]) by {
                let m2 = edge_steps@.len() as int;
                assert(vs[i] == node_path@[m2 - i] as int);
                assert(vs[i + 1] == node_path@[m2 - i - 1] as int);
                assert(esr[i] == edge_steps@[m2 - 1 - i] as int);
                let jj = m2 - 1 - i;
                assert(self.step(*opts, node_path@[jj + 1] as int, edge_steps@[jj] as int, node_path@[jj] as int));
                assert(jj + 1 == m2 - i);
            }
            assert(self.is_walk(o, vs, esr));
            assert(esr.len() == kd);
            assert(self.layer(o, s, kd, d));
            assert(self.within(o, s, kd, d));
            assert(self.path_witness(o, s, d, sub, vs, esr));
        }
        Some(sub)
    }
}

/// In/out degree of a node.
#[derive(Debug, Clone, Copy, PartialEq, Eq, Structural)]
pub struct Degree {
    pub out_degree: usize,
    pub in_degree: usize,
}

impl Degree {
    /// In-degree plus out-degree.
    pub fn total(&self) -> (t: usize)
        requires
            self.out_degree + self.in_degree <= usize::MAX,
        ensures
            t == self.out_degree + self.in_degree,
    {
        self.out_degree + self.in_degree
    }
}

impl CsrSnapshot {
    /// The dense source of every slot, in slot order.
    pub closed spec fn src_seq(&self) -> Seq<usize> {
        self.edge_src@
    }

    /// The dense destination of every slot, in slot order.
    pub closed spec fn dst_seq(&self) -> Seq<usize> {
        self.col_dst@
    }

    /// The degrees of a snapshot built from nodes with distinct ids: there
    /// are as many dense nodes as nodes, node `i` is dense node `i`, the ids
    /// known are exactly those of the nodes, and the out-degree of node `i`
    /// (`degree` counts it over `src_seq`) is the number of kept edges whose
    /// source is node `i`.
    pub proof fn law_build_degree(&self, nodes: Seq<Node>, edges: Seq<Edge>)
        requires
            self.wf(),
            self.nodes_match(nodes),
            self.rows_count(edges),
            forall|i: int, j: int| 0 <= i < j < nodes.len() ==> (#[trigger] nodes[i]).id != (#[trigger] nodes[j]).id,
        ensures
            self.nc() == nodes.len(),
            forall|k: u64| #[trigger] self.ids().contains_key(k) <==> exists|i: int| 0 <= i < nodes.len() && (#[trigger] nodes[i]).id.0 == k,
            forall|i: int| 0 <= i < nodes.len() ==> self.ids().contains_key((#[trigger] nodes[i]).id.0) && self.ids()[nodes[i].id.0] == i,
            forall|k: u64, i: int| 0 <= i < nodes.len() && #[trigger] self.ids().contains_key(k) && self.ids()[k] == i ==> k == (#[trigger] nodes[i]).id.0,
            forall|i: int| 0 <= i < nodes.len() ==> #[trigger] cnt_eq(self.src_seq(), i) == cnt_eq(kept_src(self.ids(), edges), i),
    {
        reveal(CsrSnapshot::nodes_match);
        reveal(CsrSnapshot::wf);
        let ids = node_ids(nodes);
        lemma_dense_map(ids);
        assert forall|i: int| 0 <= i < nodes.len() implies #[trigger] ids[i] == nodes[i].id.0 by {}
        assert forall|k: u64| #[trigger] self.ids().contains_key(k) <==> exists|i: int| 0 <= i < nodes.len() && (#[trigger] nodes[i]).id.0 == k by {
            if self.ids().contains_key(k) {
                let i = self.ids()[k] as int;
                assert(ids[i] == k);
                assert(nodes[i].id.0 == k);
            }
            if exists|i: int| 0 <= i < nodes.len() && (#[trigger] nodes[i]).id.0 == k {
                let i = choose|i: int| 0 <= i < nodes.len() && (#[trigger] nodes[i]).id.0 == k;
                assert(ids[i] == k);
            }
        }
        assert forall|i: int| 0 <= i < nodes.len() implies self.ids().contains_key((#[trigger] nodes[i]).id.0) && self.ids()[nodes[i].id.0] == i by {
            assert(ids[i] == nodes[i].id.0);
            let j = self.ids()[nodes[i].id.0] as int;
            assert(ids[j] == nodes[i].id.0);
            assert(nodes[j].id.0 == nodes[i].id.0);
            if j != i {
                if j < i {
                    assert(nodes[j].id != nodes[i].id);
                } else {
                    assert(nodes[i].id != nodes[j].id);
                }
            }
        }
        assert forall|i: int| 0 <= i < nodes.len() implies #[trigger] cnt_eq(self.src_seq(), i) == cnt_eq(kept_src(self.ids(), edges), i) by {
            self.lemma_out_count(i, self.ec());
            assert(self.edge_src@.take(self.ec()) =~= self.src_seq());
        }
    }

    proof fn lemma_out_count(&self, u: int, x: int)
        requires
            self.wf(),
            0 <= u < self.nc(),
            0 <= x <= self.ec(),
        ensures
            cnt_eq(self.edge_src@.take(x), u) == if x <= self.row(u) {
                0
            } else if x >= self.row(u + 1) {
                self.row(u + 1) - self.row(u)
            } else {
                x - self.row(u)
            },
        decreases x,
    {
        reveal(CsrSnapshot::wf);
        if x > 0 {
            self.lemma_out_count(u, x - 1);
            assert(self.edge_src@.take(x).drop_last() =~= self.edge_src@.take(x - 1));
            self.lemma_slot_segment(x - 1);
            let w = self.src_of(x - 1);
            if w < u {
                assert(self.row_offsets@[w + 1] <= self.row_offsets@[u]);
            } else if w > u {
                assert(self.row_offsets@[u + 1] <= self.row_offsets@[w]);
            }
        }
    }

    /// In/out degree of a node: the number of edges leaving it and the number
    /// arriving at it; `None` for an unknown id.
    pub fn degree(&self, id: NodeId) -> (r: Option<Degree>)
        requires
            self.wf(),
        ensures
            r is Some == self.ids().contains_key(id.0),
            r matches Some(dg) ==> dg.out_degree == cnt_eq(self.src_seq(), self.ids()[id.0] as int)
                && dg.in_degree == cnt_eq(self.dst_seq(), self.ids()[id.0] as int),
    {
        let d = match self.dense(id) {
            Some(x) => x,
            None => {
                return None;
            },
        };
        proof {
            reveal(CsrSnapshot::wf);
            self.lemma_out_count(d as int, self.ec());
            assert(self.edge_src@.take(self.ec()) =~= self.edge_src@);
        }
        let rows = self.row_offsets.len();
        assert(d + 1 < rows);
        let out_degree = self.row_offsets[d + 1] - self.row_offsets[d];
        let in_degree = self.rev_offsets[d + 1] - self.rev_offsets[d];
        Some(Degree { out_degree, in_degree })
    }
}

} // verus!

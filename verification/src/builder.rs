//! [`GraphBuilder`] — an in-memory accumulator that folds repeated observations
//! of the same node/edge into one record with a widening temporal validity.
//! This is the correlation-time working set; its contents are drained and
//! persisted, and the CSR snapshot rebuilt from them.

use vstd::prelude::*;

use crate::edge::{Edge, EdgeType, UNIT_WEIGHT_BITS};
use crate::ids::{EdgeId, NodeId};
use crate::node::{Node, NodeKind};
use crate::text::owned;
use crate::time::{observed, single, Timestamp, Validity};

verus! {

/// The model of a node.
pub struct NodeV {
    pub id: NodeId,
    pub kind: NodeKind,
    pub key: Seq<char>,
    pub label: Seq<char>,
    pub validity: Validity,
    pub risk_bits: u32,
    pub props: Map<Seq<char>, Seq<char>>,
}

/// The model of an edge.
pub struct EdgeV {
    pub id: EdgeId,
    pub src: NodeId,
    pub dst: NodeId,
    pub etype: EdgeType,
    pub validity: Validity,
    pub weight_bits: u32,
    pub props: Map<Seq<char>, Seq<char>>,
}

/// The model of a node.
pub open spec fn node_v(n: Node) -> NodeV {
    NodeV {
        id: n.id,
        kind: n.kind,
        key: n.identity_key@,
        label: n.label@,
        validity: n.validity,
        risk_bits: n.risk_bits,
        props: n.props@,
    }
}

/// The model of an edge.
pub open spec fn edge_v(e: Edge) -> EdgeV {
    EdgeV {
        id: e.id,
        src: e.src,
        dst: e.dst,
        etype: e.etype,
        validity: e.validity,
        weight_bits: e.weight_bits,
        props: e.props@,
    }
}

/// The models of some nodes.
pub open spec fn nodes_v(s: Seq<Node>) -> Seq<NodeV> {
    s.map_values(|n: Node| node_v(n))
}

/// The models of some edges.
pub open spec fn edges_v(s: Seq<Edge>) -> Seq<EdgeV> {
    s.map_values(|e: Edge| edge_v(e))
}

/// The model of a builder: its nodes and edges in first-seen order.
pub struct BuilderV {
    pub nodes: Seq<NodeV>,
    pub edges: Seq<EdgeV>,
}

/// A node first observed at `ts`.
pub open spec fn fresh_node(kind: NodeKind, key: Seq<char>, label: Seq<char>, ts: i64) -> NodeV {
    NodeV {
        id: NodeId::of_spec(kind, key),
        kind,
        key,
        label,
        validity: single(ts),
        risk_bits: 0,
        props: Map::empty(),
    }
}

/// An edge first observed at `ts`.
pub open spec fn fresh_edge(src: NodeId, dst: NodeId, etype: EdgeType, ts: i64) -> EdgeV {
    EdgeV {
        id: EdgeId::of_spec(src, dst, etype),
        src,
        dst,
        etype,
        validity: single(ts),
        weight_bits: UNIT_WEIGHT_BITS,
        props: Map::empty(),
    }
}

/// Another observation folded into a validity (a count already at its
/// maximum stays there, and the interval is then left as it is).
pub open spec fn fold_in(v: Validity, ts: i64) -> Validity {
    if v.event_count < u64::MAX {
        observed(v, ts)
    } else {
        v
    }
}

/// The position at or after `i` of the node with `id` (`ns.len()` if none).
pub open spec fn find_node(ns: Seq<NodeV>, id: NodeId, i: int) -> int
    decreases ns.len() - i,
{
    if i < 0 || i >= ns.len() {
        ns.len() as int
    } else if ns[i].id == id {
        i
    } else {
        find_node(ns, id, i + 1)
    }
}

/// The position at or after `i` of the edge with `id` (`es.len()` if none).
pub open spec fn find_edge(es: Seq<EdgeV>, id: EdgeId, i: int) -> int
    decreases es.len() - i,
{
    if i < 0 || i >= es.len() {
        es.len() as int
    } else if es[i].id == id {
        i
    } else {
        find_edge(es, id, i + 1)
    }
}

/// Observe the node `(kind, key)` at `ts`: fold into the existing record, or
/// add a new one labelled `label`. Gives the node's id.
pub open spec fn b_node(b: BuilderV, kind: NodeKind, key: Seq<char>, label: Seq<char>, ts: i64) -> (BuilderV, NodeId) {
    let id = NodeId::of_spec(kind, key);
    let i = find_node(b.nodes, id, 0);
    if i < b.nodes.len() {
        let n = b.nodes[i];
        let n2 = NodeV {
            id: n.id,
            kind: n.kind,
            key: n.key,
            label: n.label,
            validity: fold_in(n.validity, ts),
            risk_bits: n.risk_bits,
            props: n.props,
        };
        (BuilderV { nodes: b.nodes.update(i, n2), edges: b.edges }, id)
    } else {
        (BuilderV { nodes: b.nodes.push(fresh_node(kind, key, label, ts)), edges: b.edges }, id)
    }
}

/// Observe the edge `(src, dst, etype)` at `ts`. Gives the edge's id.
pub open spec fn b_edge(b: BuilderV, src: NodeId, dst: NodeId, etype: EdgeType, ts: i64) -> (BuilderV, EdgeId) {
    let id = EdgeId::of_spec(src, dst, etype);
    let i = find_edge(b.edges, id, 0);
    if i < b.edges.len() {
        let e = b.edges[i];
        let e2 = EdgeV {
            id: e.id,
            src: e.src,
            dst: e.dst,
            etype: e.etype,
            validity: fold_in(e.validity, ts),
            weight_bits: e.weight_bits,
            props: e.props,
        };
        (BuilderV { nodes: b.nodes, edges: b.edges.update(i, e2) }, id)
    } else {
        (BuilderV { nodes: b.nodes, edges: b.edges.push(fresh_edge(src, dst, etype, ts)) }, id)
    }
}

/// Set a property of the node `id`, if it is known.
pub open spec fn b_set_prop(b: BuilderV, id: NodeId, key: Seq<char>, value: Seq<char>) -> BuilderV {
    let i = find_node(b.nodes, id, 0);
    if i < b.nodes.len() {
        let n = b.nodes[i];
        let n2 = NodeV {
            id: n.id,
            kind: n.kind,
            key: n.key,
            label: n.label,
            validity: n.validity,
            risk_bits: n.risk_bits,
            props: n.props.insert(key, value),
        };
        BuilderV { nodes: b.nodes.update(i, n2), edges: b.edges }
    } else {
        b
    }
}

/// No two nodes share an id.
pub open spec fn node_ids_unique(ns: Seq<NodeV>) -> bool {
    forall|a: int, b: int| 0 <= a < b < ns.len() ==> (#[trigger] ns[a]).id != (#[trigger] ns[b]).id
}

/// No two edges share an id.
pub open spec fn edge_ids_unique(es: Seq<EdgeV>) -> bool {
    forall|a: int, b: int| 0 <= a < b < es.len() ==> (#[trigger] es[a]).id != (#[trigger] es[b]).id
}

/// `find_node` gives the one position holding `id`, or says there is none.
pub proof fn lemma_find_node(ns: Seq<NodeV>, id: NodeId, i: int)
    requires
        0 <= i <= ns.len(),
    ensures
        i <= find_node(ns, id, i) <= ns.len(),
        find_node(ns, id, i) < ns.len() ==> ns[find_node(ns, id, i)].id == id,
        forall|k: int| i <= k < find_node(ns, id, i) ==> (#[trigger] ns[k]).id != id,
    decreases ns.len() - i,
{
    if i < ns.len() && ns[i].id != id {
        lemma_find_node(ns, id, i + 1);
    }
}

/// `find_edge` gives the one position holding `id`, or says there is none.
pub proof fn lemma_find_edge(es: Seq<EdgeV>, id: EdgeId, i: int)
    requires
        0 <= i <= es.len(),
    ensures
        i <= find_edge(es, id, i) <= es.len(),
        find_edge(es, id, i) < es.len() ==> es[find_edge(es, id, i)].id == id,
        forall|k: int| i <= k < find_edge(es, id, i) ==> (#[trigger] es[k]).id != id,
    decreases es.len() - i,
{
    if i < es.len() && es[i].id != id {
        lemma_find_edge(es, id, i + 1);
    }
}

/// Accumulates temporal nodes and edges keyed by their content-addressed ids.
#[derive(Debug)]
pub struct GraphBuilder {
    nodes: Vec<Node>,
    edges: Vec<Edge>,
}

impl View for GraphBuilder {
    type V = BuilderV;

    closed spec fn view(&self) -> BuilderV {
        BuilderV { nodes: nodes_v(self.nodes@), edges: edges_v(self.edges@) }
    }
}

impl GraphBuilder {
    #[verifier::type_invariant]
    spec fn ids_unique(self) -> bool {
        node_ids_unique(nodes_v(self.nodes@)) && edge_ids_unique(edges_v(self.edges@))
    }

    /// An empty builder.
    pub fn new() -> (b: GraphBuilder)
        ensures
            b@ == (BuilderV { nodes: Seq::empty(), edges: Seq::empty() }),
    {
        let b = GraphBuilder { nodes: Vec::new(), edges: Vec::new() };
        proof {
            assert(nodes_v(b.nodes@) =~= Seq::<NodeV>::empty());
            assert(edges_v(b.edges@) =~= Seq::<EdgeV>::empty());
        }
        b
    }

    fn find_node_exec(&self, id: NodeId) -> (i: usize)
        ensures
            i as int == find_node(self@.nodes, id, 0),
            i <= self.nodes@.len(),
    {
        let ghost v = self@.nodes;
        let mut i: usize = 0;
        while i < self.nodes.len()
            invariant
                i <= self.nodes@.len(),
                v == nodes_v(self.nodes@),
                find_node(v, id, 0) == find_node(v, id, i as int),
            decreases self.nodes@.len() - i,
        {
            if self.nodes[i].id.0 == id.0 {
                return i;
            }
            i = i + 1;
        }
        i
    }

    fn find_edge_exec(&self, id: EdgeId) -> (i: usize)
        ensures
            i as int == find_edge(self@.edges, id, 0),
            i <= self.edges@.len(),
    {
        let ghost v = self@.edges;
        let mut i: usize = 0;
        while i < self.edges.len()
            invariant
                i <= self.edges@.len(),
                v == edges_v(self.edges@),
                find_edge(v, id, 0) == find_edge(v, id, i as int),
            decreases self.edges@.len() - i,
        {
            if self.edges[i].id.0 == id.0 {
                return i;
            }
            i = i + 1;
        }
        i
    }

    /// Insert a node, or fold this observation into an existing one. Returns the
    /// content-addressed id so callers can wire edges.
    pub fn node(&mut self, kind: NodeKind, identity_key: &str, label: &str, ts: Timestamp) -> (id: NodeId)
        ensures
            (final(self)@, id) == b_node(old(self)@, kind, identity_key@, label@, ts.0),
    {
        proof {
            use_type_invariant(&*self);
        }
        let ghost v0 = self@;
        let id = NodeId::of(kind, identity_key);
        let i = self.find_node_exec(id);
        proof {
            lemma_find_node(v0.nodes, id, 0);
        }
        let mut nodes: Vec<Node> = Vec::new();
        std::mem::swap(&mut nodes, &mut self.nodes);
        if i < nodes.len() {
            let mut n = nodes.remove(i);
            proof {
                assert(nodes_v(nodes@) =~= v0.nodes.remove(i as int));
            }
            if n.validity.event_count < u64::MAX {
                n.observe(ts);
            }
            let ghost nv = node_v(n);
            nodes.insert(i, n);
            proof {
                assert(nodes_v(nodes@) =~= v0.nodes.update(i as int, nv));
                assert(node_ids_unique(nodes_v(nodes@)));
            }
        } else {
            let n = Node::new(kind, identity_key, label, ts);
            let ghost nv = node_v(n);
            nodes.push(n);
            proof {
                assert(nodes_v(nodes@) =~= v0.nodes.push(nv));
                assert(nv == fresh_node(kind, identity_key@, label@, ts.0));
                assert(node_ids_unique(nodes_v(nodes@)));
            }
        }
        self.nodes = nodes;
        id
    }

    /// Insert or fold an edge between two nodes.
    pub fn edge(&mut self, src: NodeId, dst: NodeId, etype: EdgeType, ts: Timestamp) -> (id: EdgeId)
        ensures
            (final(self)@, id) == b_edge(old(self)@, src, dst, etype, ts.0),
    {
        proof {
            use_type_invariant(&*self);
        }
        let ghost v0 = self@;
        let id = EdgeId::of(src, dst, etype);
        let i = self.find_edge_exec(id);
        proof {
            lemma_find_edge(v0.edges, id, 0);
        }
        let mut edges: Vec<Edge> = Vec::new();
        std::mem::swap(&mut edges, &mut self.edges);
        if i < edges.len() {
            let mut e = edges.remove(i);
            proof {
                assert(edges_v(edges@) =~= v0.edges.remove(i as int));
            }
            if e.validity.event_count < u64::MAX {
                e.observe(ts);
            }
            let ghost ev = edge_v(e);
            edges.insert(i, e);
            proof {
                assert(edges_v(edges@) =~= v0.edges.update(i as int, ev));
                assert(edge_ids_unique(edges_v(edges@)));
            }
        } else {
            let e = Edge::new(src, dst, etype, ts);
            let ghost ev = edge_v(e);
            edges.push(e);
            proof {
                assert(edges_v(edges@) =~= v0.edges.push(ev));
                assert(ev == fresh_edge(src, dst, etype, ts.0));
                assert(edge_ids_unique(edges_v(edges@)));
            }
        }
        self.edges = edges;
        id
    }

    /// Set a property on an already-created node (no-op if the node is unknown).
    pub fn set_node_prop(&mut self, id: NodeId, key: &str, value: &str)
        ensures
            final(self)@ == b_set_prop(old(self)@, id, key@, value@),
    {
        proof {
            use_type_invariant(&*self);
        }
        let ghost v0 = self@;
        let i = self.find_node_exec(id);
        proof {
            lemma_find_node(v0.nodes, id, 0);
        }
        if i < self.nodes.len() {
            let mut nodes: Vec<Node> = Vec::new();
            std::mem::swap(&mut nodes, &mut self.nodes);
            let mut n = nodes.remove(i);
            proof {
                assert(nodes_v(nodes@) =~= v0.nodes.remove(i as int));
            }
            n.props.insert(owned(key), owned(value));
            let ghost nv = node_v(n);
            nodes.insert(i, n);
            proof {
                assert(nodes_v(nodes@) =~= v0.nodes.update(i as int, nv));
                assert(node_ids_unique(nodes_v(nodes@)));
            }
            self.nodes = nodes;
        }
    }

    /// The number of distinct nodes.
    pub fn node_count(&self) -> (n: usize)
        ensures
            n == self@.nodes.len(),
    {
        self.nodes.len()
    }

    /// The number of distinct edges.
    pub fn edge_count(&self) -> (n: usize)
        ensures
            n == self@.edges.len(),
    {
        self.edges.len()
    }
}

/// `out` holds exactly the nodes of `src`, ordered by strictly increasing id.
pub open spec fn sorted_nodes(src: Seq<NodeV>, out: Seq<NodeV>) -> bool {
    &&& out.len() == src.len()
    &&& forall|a: int, b: int| 0 <= a < b < out.len() ==> (#[trigger] out[a]).id.0 < (#[trigger] out[b]).id.0
    &&& forall|i: int| 0 <= i < out.len() ==> src.contains(#[trigger] out[i])
    &&& forall|j: int| 0 <= j < src.len() ==> out.contains(#[trigger] src[j])
}

fn sort_nodes(items: Vec<Node>) -> (out: Vec<Node>)
    requires
        node_ids_unique(nodes_v(items@)),
    ensures
        sorted_nodes(nodes_v(items@), nodes_v(out@)),
{
    let ghost src = nodes_v(items@);
    let mut out: Vec<Node> = Vec::new();
    let ghost mut pos: Seq<int> = Seq::empty();
    let ghost mut inv: Seq<int> = Seq::empty();
    for n in it: items.into_iter()
        invariant
            src == nodes_v(it.seq()),
            node_ids_unique(src),
            out@.len() == it.index(),
            pos.len() == it.index(),
            inv.len() == it.index(),
            forall|a: int, b: int| 0 <= a < b < out@.len() ==> (#[trigger] out@[a]).id.0 < (#[trigger] out@[b]).id.0,
            forall|j: int| 0 <= j < pos.len() ==> 0 <= #[trigger] pos[j] < out@.len() && node_v(out@[pos[j]]) == src[j],
            forall|i: int| 0 <= i < inv.len() ==> 0 <= #[trigger] inv[i] < it.index() && node_v(out@[i]) == src[inv[i]],
    {
        let ghost k = it.index() as int;
        proof {
            assert(src[k] == node_v(n));
        }
        let mut p = out.len();
        while p > 0 && out[p - 1].id.0 > n.id.0
            invariant
                p <= out@.len(),
                forall|q: int| p <= q < out@.len() ==> (#[trigger] out@[q]).id.0 > n.id.0,
            decreases p,
        {
            p = p - 1;
        }
        let ghost old_out = out@;
        proof {
            if p > 0 {
                let j = inv[p - 1];
                assert(node_v(old_out[p - 1]) == src[j]);
                assert(j != k);
                if j < k {
                    assert(src[j].id != src[k].id);
                } else {
                    assert(src[k].id != src[j].id);
                }
                assert(old_out[p - 1].id.0 < n.id.0);
            }
        }
        out.insert(p, n);
        proof {
            assert(out@ =~= old_out.insert(p as int, n));
            let old_pos = pos;
            let old_inv = inv;
            pos = Seq::new(k as nat + 1, |j: int| if j == k { p as int } else if old_pos[j] >= p { old_pos[j] + 1 } else { old_pos[j] });
            inv = old_inv.insert(p as int, k);
            assert forall|a: int, b: int| 0 <= a < b < out@.len() implies (#[trigger] out@[a]).id.0 < (#[trigger] out@[b]).id.0 by {
                if b < p {
                    assert(out@[a] == old_out[a] && out@[b] == old_out[b]);
                } else if b == p {
                    assert(out@[a] == old_out[a]);
                    if a < p - 1 {
                        assert(old_out[a].id.0 < old_out[p - 1].id.0);
                    }
                } else if a < p {
                    assert(out@[a] == old_out[a] && out@[b] == old_out[b - 1]);
                    if p > 0 {
                        if a < p - 1 {
                            assert(old_out[a].id.0 < old_out[p - 1].id.0);
                        }
                    }
                } else if a == p {
                    assert(out@[b] == old_out[b - 1]);
                } else {
                    assert(out@[a] == old_out[a - 1] && out@[b] == old_out[b - 1]);
                }
            }
            assert forall|j: int| 0 <= j < pos.len() implies 0 <= #[trigger] pos[j] < out@.len() && node_v(out@[pos[j]]) == src[j] by {
                if j < k {
                    if old_pos[j] >= p {
                        assert(out@[old_pos[j] + 1] == old_out[old_pos[j]]);
                    } else {
                        assert(out@[old_pos[j]] == old_out[old_pos[j]]);
                    }
                }
            }
            assert forall|i: int| 0 <= i < inv.len() implies 0 <= #[trigger] inv[i] < k + 1 && node_v(out@[i]) == src[inv[i]] by {
                if i < p {
                    assert(out@[i] == old_out[i]);
                } else if i > p {
                    assert(out@[i] == old_out[i - 1]);
                }
            }
        }
    }
    proof {
        assert(out@.len() == src.len());
        let ov = nodes_v(out@);
        assert forall|a: int, b: int| 0 <= a < b < ov.len() implies (#[trigger] ov[a]).id.0 < (#[trigger] ov[b]).id.0 by {
            assert(out@[a].id.0 < out@[b].id.0);
        }
        assert forall|i: int| 0 <= i < ov.len() implies src.contains(#[trigger] ov[i]) by {
            assert(src[inv[i]] == ov[i]);
        }
        assert forall|j: int| 0 <= j < src.len() implies ov.contains(#[trigger] src[j]) by {
            assert(src[j] == ov[pos[j]]);
        }
        assert(sorted_nodes(src, nodes_v(out@)));
    }
    out
}

/// `out` holds exactly the edges of `src`, ordered by strictly increasing id.
pub open spec fn sorted_edges(src: Seq<EdgeV>, out: Seq<EdgeV>) -> bool {
    &&& out.len() == src.len()
    &&& forall|a: int, b: int| 0 <= a < b < out.len() ==> (#[trigger] out[a]).id.0 < (#[trigger] out[b]).id.0
    &&& forall|i: int| 0 <= i < out.len() ==> src.contains(#[trigger] out[i])
    &&& forall|j: int| 0 <= j < src.len() ==> out.contains(#[trigger] src[j])
}

fn sort_edges(items: Vec<Edge>) -> (out: Vec<Edge>)
    requires
        edge_ids_unique(edges_v(items@)),
    ensures
        sorted_edges(edges_v(items@), edges_v(out@)),
{
    let ghost src = edges_v(items@);
    let mut out: Vec<Edge> = Vec::new();
    let ghost mut pos: Seq<int> = Seq::empty();
    let ghost mut inv: Seq<int> = Seq::empty();
    for n in it: items.into_iter()
        invariant
            src == edges_v(it.seq()),
            edge_ids_unique(src),
            out@.len() == it.index(),
            pos.len() == it.index(),
            inv.len() == it.index(),
            forall|a: int, b: int| 0 <= a < b < out@.len() ==> (#[trigger] out@[a]).id.0 < (#[trigger] out@[b]).id.0,
            forall|j: int| 0 <= j < pos.len() ==> 0 <= #[trigger] pos[j] < out@.len() && edge_v(out@[pos[j]]) == src[j],
            forall|i: int| 0 <= i < inv.len() ==> 0 <= #[trigger] inv[i] < it.index() && edge_v(out@[i]) == src[inv[i]],
    {
        let ghost k = it.index() as int;
        proof {
            assert(src[k] == edge_v(n));
        }
        let mut p = out.len();
        while p > 0 && out[p - 1].id.0 > n.id.0
            invariant
                p <= out@.len(),
                forall|q: int| p <= q < out@.len() ==> (#[trigger] out@[q]).id.0 > n.id.0,
            decreases p,
        {
            p = p - 1;
        }
        let ghost old_out = out@;
        proof {
            if p > 0 {
                let j = inv[p - 1];
                assert(edge_v(old_out[p - 1]) == src[j]);
                assert(j != k);
                if j < k {
                    assert(src[j].id != src[k].id);
                } else {
                    assert(src[k].id != src[j].id);
                }
                assert(old_out[p - 1].id.0 < n.id.0);
            }
        }
        out.insert(p, n);
        proof {
            assert(out@ =~= old_out.insert(p as int, n));
            let old_pos = pos;
            let old_inv = inv;
            pos = Seq::new(k as nat + 1, |j: int| if j == k { p as int } else if old_pos[j] >= p { old_pos[j] + 1 } else { old_pos[j] });
            inv = old_inv.insert(p as int, k);
            assert forall|a: int, b: int| 0 <= a < b < out@.len() implies (#[trigger] out@[a]).id.0 < (#[trigger] out@[b]).id.0 by {
                if b < p {
                    assert(out@[a] == old_out[a] && out@[b] == old_out[b]);
                } else if b == p {
                    assert(out@[a] == old_out[a]);
                    if a < p - 1 {
                        assert(old_out[a].id.0 < old_out[p - 1].id.0);
                    }
                } else if a < p {
                    assert(out@[a] == old_out[a] && out@[b] == old_out[b - 1]);
                    if p > 0 {
                        if a < p - 1 {
                            assert(old_out[a].id.0 < old_out[p - 1].id.0);
                        }
                    }
                } else if a == p {
                    assert(out@[b] == old_out[b - 1]);
                } else {
                    assert(out@[a] == old_out[a - 1] && out@[b] == old_out[b - 1]);
                }
            }
            assert forall|j: int| 0 <= j < pos.len() implies 0 <= #[trigger] pos[j] < out@.len() && edge_v(out@[pos[j]]) == src[j] by {
                if j < k {
                    if old_pos[j] >= p {
                        assert(out@[old_pos[j] + 1] == old_out[old_pos[j]]);
                    } else {
                        assert(out@[old_pos[j]] == old_out[old_pos[j]]);
                    }
                }
            }
            assert forall|i: int| 0 <= i < inv.len() implies 0 <= #[trigger] inv[i] < k + 1 && edge_v(out@[i]) == src[inv[i]] by {
                if i < p {
                    assert(out@[i] == old_out[i]);
                } else if i > p {
                    assert(out@[i] == old_out[i - 1]);
                }
            }
        }
    }
    proof {
        assert(out@.len() == src.len());
        let ov = edges_v(out@);
        assert forall|a: int, b: int| 0 <= a < b < ov.len() implies (#[trigger] ov[a]).id.0 < (#[trigger] ov[b]).id.0 by {
            assert(out@[a].id.0 < out@[b].id.0);
        }
        assert forall|i: int| 0 <= i < ov.len() implies src.contains(#[trigger] ov[i]) by {
            assert(src[inv[i]] == ov[i]);
        }
        assert forall|j: int| 0 <= j < src.len() implies ov.contains(#[trigger] src[j]) by {
            assert(src[j] == ov[pos[j]]);
        }
        assert(sorted_edges(src, edges_v(out@)));
    }
    out
}

impl GraphBuilder {
    /// Drain into vectors sorted by id (a deterministic order for reproducible
    /// snapshots).
    pub fn into_parts(self) -> (r: (Vec<Node>, Vec<Edge>))
        ensures
            sorted_nodes(self@.nodes, nodes_v(r.0@)),
            sorted_edges(self@.edges, edges_v(r.1@)),
    {
        proof {
            use_type_invariant(&self);
        }
        let GraphBuilder { nodes, edges } = self;
        (sort_nodes(nodes), sort_edges(edges))
    }
}


// ---------------------------------------------------------------------------
// Laws
// ---------------------------------------------------------------------------

/// Observing an entity yields the node keyed by its kind and key, which the
/// builder then holds: after the observation at `ts` that node is present,
/// and its interval contains `ts` unless its count had reached its maximum.
pub proof fn law_node_observed(b: BuilderV, kind: NodeKind, key: Seq<char>, label: Seq<char>, ts: i64)
    ensures
        b_node(b, kind, key, label, ts).1 == NodeId::of_spec(kind, key),
        find_node(b_node(b, kind, key, label, ts).0.nodes, NodeId::of_spec(kind, key), 0) < b_node(
            b,
            kind,
            key,
            label,
            ts,
        ).0.nodes.len(),
        ({
            let ns = b_node(b, kind, key, label, ts).0.nodes;
            let v = ns[find_node(ns, NodeId::of_spec(kind, key), 0)].validity;
            v.event_count < u64::MAX ==> v.first_seen.0 <= ts <= v.last_seen.0
        }),
{
    let id = NodeId::of_spec(kind, key);
    lemma_find_node(b.nodes, id, 0);
    let ns = b_node(b, kind, key, label, ts).0.nodes;
    lemma_find_node(ns, id, 0);
    let i = find_node(b.nodes, id, 0);
    if i < b.nodes.len() {
        assert(ns[i].id == id);
        assert(find_node(ns, id, 0) == i);
    } else {
        assert(ns[ns.len() - 1].id == id);
        assert(find_node(ns, id, 0) == ns.len() - 1);
    }
}

/// Observing the same entity twice adds at most one node: both observations
/// name the same node, and the second leaves the number of nodes (and the
/// edges) as the first made them.
pub proof fn law_node_observed_twice(
    b: BuilderV,
    kind: NodeKind,
    key: Seq<char>,
    l1: Seq<char>,
    l2: Seq<char>,
    t1: i64,
    t2: i64,
)
    ensures
        b_node(b_node(b, kind, key, l1, t1).0, kind, key, l2, t2).1 == b_node(b, kind, key, l1, t1).1,
        b_node(b_node(b, kind, key, l1, t1).0, kind, key, l2, t2).0.nodes.len() == b_node(
            b,
            kind,
            key,
            l1,
            t1,
        ).0.nodes.len(),
        b_node(b_node(b, kind, key, l1, t1).0, kind, key, l2, t2).0.edges == b.edges,
        b_node(b, kind, key, l1, t1).0.nodes.len() <= b.nodes.len() + 1,
{
    let id = NodeId::of_spec(kind, key);
    lemma_find_node(b.nodes, id, 0);
    law_node_observed(b, kind, key, l1, t1);
    let b1 = b_node(b, kind, key, l1, t1).0;
    lemma_find_node(b1.nodes, id, 0);
    let i = find_node(b1.nodes, id, 0);
    assert(i < b1.nodes.len());
}

/// Observing the same relationship twice adds at most one edge: both
/// observations name the same edge, and the second leaves the number of edges
/// (and the nodes) as the first made them.
pub proof fn law_edge_observed_twice(b: BuilderV, src: NodeId, dst: NodeId, etype: EdgeType, t1: i64, t2: i64)
    ensures
        b_edge(b_edge(b, src, dst, etype, t1).0, src, dst, etype, t2).1 == b_edge(b, src, dst, etype, t1).1,
        b_edge(b_edge(b, src, dst, etype, t1).0, src, dst, etype, t2).0.edges.len() == b_edge(
            b,
            src,
            dst,
            etype,
            t1,
        ).0.edges.len(),
        b_edge(b_edge(b, src, dst, etype, t1).0, src, dst, etype, t2).0.nodes == b.nodes,
        b_edge(b, src, dst, etype, t1).0.edges.len() <= b.edges.len() + 1,
{
    let id = EdgeId::of_spec(src, dst, etype);
    lemma_find_edge(b.edges, id, 0);
    let es = b_edge(b, src, dst, etype, t1).0.edges;
    lemma_find_edge(es, id, 0);
    let i = find_edge(b.edges, id, 0);
    if i < b.edges.len() {
        assert(es[i].id == id);
    } else {
        assert(es[es.len() - 1].id == id);
    }
}

} // verus!

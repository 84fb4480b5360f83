//! Weakly connected components of a snapshot: the partition of its nodes by
//! reachability along edges that pass a traversal's time window and type
//! filter, each edge usable either way.

use vstd::prelude::*;

use super::{CsrSnapshot, Dir, TraversalOpts};
use crate::group::{cnt_eq, group, group_by_key, keys_below, lemma_group};
use crate::ids::NodeId;

verus! {

/// `opts` with every edge followed both ways.
pub open spec fn undirected(opts: TraversalOpts) -> TraversalOpts {
    TraversalOpts { direction: Dir::Both, ..opts }
}

/// `d` is a member of some group.
pub open spec fn in_some(gs: Seq<Seq<int>>, d: int) -> bool {
    exists|a: int, t: int| 0 <= a < gs.len() && 0 <= t < gs[a].len() && #[trigger] gs[a][t] == d
}

/// Some position carries label `c`.
pub open spec fn used(lab: Seq<usize>, c: int) -> bool {
    exists|v: int| 0 <= v < lab.len() && lab[v] == c
}

/// `c` occurs in `s`.
pub open spec fn holds(s: Seq<usize>, c: int) -> bool {
    exists|x: int| 0 <= x < s.len() && s[x] == c
}

/// Some indices, as integers.
pub open spec fn as_ints(s: Seq<usize>) -> Seq<int> {
    s.map_values(|x: usize| x as int)
}

/// Replacing one occurrence of `u` by another value removes one from its count.
proof fn lemma_cnt_update(s: Seq<usize>, i: int, x: usize, u: int)
    requires
        0 <= i < s.len(),
        s[i] == u,
        x != u,
    ensures
        cnt_eq(s.update(i, x), u) + 1 == cnt_eq(s, u),
    decreases s.len(),
{
    let t = s.update(i, x);
    if i == s.len() - 1 {
        assert(t.drop_last() =~= s.drop_last());
    } else {
        assert(t.drop_last() =~= s.drop_last().update(i, x));
        lemma_cnt_update(s.drop_last(), i, x, u);
    }
}

impl CsrSnapshot {
    /// `p` is a chain of dense nodes, each joined to the next by an edge that
    /// passes `opts`, in either direction.
    pub open spec fn is_chain(&self, opts: TraversalOpts, p: Seq<int>) -> bool {
        &&& p.len() > 0
        &&& forall|i: int| 0 <= i < p.len() - 1 ==> #[trigger] self.linked_at(opts, p, i)
    }

    /// The `i`-th and next nodes of `p` are adjacent.
    pub open spec fn linked_at(&self, opts: TraversalOpts, p: Seq<int>, i: int) -> bool {
        self.adj(undirected(opts), p[i], p[i + 1])
    }

    /// Dense nodes `u` and `v` are joined by a chain.
    pub open spec fn connected(&self, opts: TraversalOpts, u: int, v: int) -> bool {
        exists|p: Seq<int>| #[trigger] self.is_chain(opts, p) && p[0] == u && p.last() == v
    }

    /// `gs` (groups of dense nodes) are the weakly connected components under
    /// `opts`: each group is non-empty and ascending, every node is in a group,
    /// two nodes are in the same group exactly when they are connected, and
    /// groups come largest first.
    pub open spec fn is_components(&self, opts: TraversalOpts, gs: Seq<Seq<int>>) -> bool {
        &&& forall|a: int| 0 <= a < gs.len() ==> (#[trigger] gs[a]).len() > 0
        &&& forall|a: int, t1: int, t2: int|
            0 <= a < gs.len() && 0 <= t1 < t2 < gs[a].len() ==> #[trigger] gs[a][t1] < #[trigger] gs[a][t2]
        &&& forall|a: int, t: int| 0 <= a < gs.len() && 0 <= t < gs[a].len() ==> 0 <= #[trigger] gs[a][t] < self.nc()
        &&& forall|d: int| 0 <= d < self.nc() ==> #[trigger] in_some(gs, d)
        &&& forall|a: int, b: int, t1: int, t2: int|
            0 <= a < gs.len() && 0 <= b < gs.len() && 0 <= t1 < gs[a].len() && 0 <= t2 < gs[b].len() ==> (
            self.connected(opts, #[trigger] gs[a][t1], #[trigger] gs[b][t2]) <==> a == b)
        &&& forall|a: int, b: int| 0 <= a < b < gs.len() ==> (#[trigger] gs[a]).len() >= (#[trigger] gs[b]).len()
    }

    /// The ids of groups of dense nodes.
    pub open spec fn group_ids(&self, gs: Seq<Seq<int>>) -> Seq<Seq<NodeId>> {
        gs.map_values(|g: Seq<int>| g.map_values(|d: int| self.node_at(d).id))
    }

    proof fn lemma_adj_sym(&self, opts: TraversalOpts, u: int, v: int)
        requires
            self.adj(undirected(opts), u, v),
        ensures
            self.adj(undirected(opts), v, u),
    {
        let o = undirected(opts);
        let e = choose|e: int| #[trigger] self.step(o, u, e, v);
        assert(self.step(o, v, e, u));
    }

    proof fn lemma_conn_refl(&self, opts: TraversalOpts, u: int)
        ensures
            self.connected(opts, u, u),
    {
        let p = seq![u];
        assert(self.is_chain(opts, p));
    }

    proof fn lemma_conn_extend(&self, opts: TraversalOpts, u: int, w: int, v: int)
        requires
            self.connected(opts, u, w),
            self.adj(undirected(opts), w, v),
        ensures
            self.connected(opts, u, v),
    {
        let p = choose|p: Seq<int>| #[trigger] self.is_chain(opts, p) && p[0] == u && p.last() == w;
        let q = p.push(v);
        assert forall|i: int| 0 <= i < q.len() - 1 implies #[trigger] self.linked_at(opts, q, i) by {
            if i < p.len() - 1 {
                assert(q[i] == p[i] && q[i + 1] == p[i + 1]);
                assert(self.linked_at(opts, p, i));
            }
        }
        assert(self.is_chain(opts, q));
    }

    proof fn lemma_conn_sym(&self, opts: TraversalOpts, u: int, v: int)
        requires
            self.connected(opts, u, v),
        ensures
            self.connected(opts, v, u),
    {
        let p = choose|p: Seq<int>| #[trigger] self.is_chain(opts, p) && p[0] == u && p.last() == v;
        let n = p.len();
        let q = Seq::new(n, |i: int| p[n - 1 - i]);
        assert forall|i: int| 0 <= i < q.len() - 1 implies #[trigger] self.linked_at(opts, q, i) by {
            let j = n - 2 - i;
            assert(self.linked_at(opts, p, j));
            self.lemma_adj_sym(opts, p[j], p[j + 1]);
            assert(q[i] == p[j + 1] && q[i + 1] == p[j]);
        }
        assert(self.is_chain(opts, q));
    }

    proof fn lemma_conn_trans(&self, opts: TraversalOpts, u: int, w: int, v: int)
        requires
            self.connected(opts, u, w),
            self.connected(opts, w, v),
        ensures
            self.connected(opts, u, v),
    {
        let p = choose|p: Seq<int>| #[trigger] self.is_chain(opts, p) && p[0] == u && p.last() == w;
        let q = choose|q: Seq<int>| #[trigger] self.is_chain(opts, q) && q[0] == w && q.last() == v;
        let r = p + q.drop_first();
        assert forall|i: int| 0 <= i < r.len() - 1 implies #[trigger] self.linked_at(opts, r, i) by {
            if i < p.len() - 1 {
                assert(self.linked_at(opts, p, i));
                assert(r[i] == p[i] && r[i + 1] == p[i + 1]);
            } else {
                let j = i - (p.len() - 1);
                assert(r[i] == q[j] && r[i + 1] == q[j + 1]);
                assert(self.linked_at(opts, q, j));
            }
        }
        assert(self.is_chain(opts, r));
    }

    /// Within a set of labels closed under adjacency, a chain never leaves the
    /// label of its start.
    proof fn lemma_closed_chain(&self, opts: TraversalOpts, lab: Seq<usize>, c: usize, p: Seq<int>, k: int)
        requires
            self.is_chain(opts, p),
            0 <= k < p.len(),
            0 <= p[0] < lab.len(),
            lab[p[0]] == c,
            forall|x: int, y: int|
                0 <= x < lab.len() && lab[x] == c && #[trigger] self.adj(undirected(opts), x, y) ==> 0 <= y < lab.len()
                    && lab[y] == c,
        ensures
            0 <= p[k] < lab.len() && lab[p[k]] == c,
        decreases k,
    {
        if k > 0 {
            self.lemma_closed_chain(opts, lab, c, p, k - 1);
            assert(self.linked_at(opts, p, k - 1));
        }
    }

    /// The labels below `g` are settled: each is used, the nodes carrying it
    /// are closed under adjacency and pairwise connected.
    closed spec fn settled(&self, opts: TraversalOpts, lab: Seq<usize>, g: int) -> bool {
        &&& lab.len() == self.nc()
        &&& forall|c: int| 0 <= c < g ==> #[trigger] used(lab, c)
        &&& forall|x: int, y: int|
            0 <= x < lab.len() && lab[x] < g && #[trigger] self.adj(undirected(opts), x, y) ==> 0 <= y < lab.len()
                && lab[y] == lab[x]
        &&& forall|x: int, y: int|
            0 <= x < lab.len() && 0 <= y < lab.len() && lab[x] < g && lab[y] == lab[x] ==> #[trigger] self.connected(
                opts,
                x,
                y,
            )
    }

    /// Labelling went from `a` to `b` by giving unlabelled nodes (`n`) label `g`.
    closed spec fn grows(a: Seq<usize>, b: Seq<usize>, g: usize) -> bool {
        &&& b.len() == a.len()
        &&& forall|v: int| 0 <= v < a.len() && a[v] != a.len() ==> b[v] == a[v]
        &&& forall|v: int| 0 <= v < a.len() && b[v] != a[v] ==> a[v] == a.len() && b[v] == g
    }

    /// A flood from `d` with label `g`: labels are unlabelled or at most `g`,
    /// the queue holds exactly the nodes labelled `g`, each connected to `d`.
    closed spec fn flooding(&self, opts: TraversalOpts, lab: Seq<usize>, queue: Seq<usize>, d: int, g: int) -> bool {
        &&& forall|v: int| 0 <= v < lab.len() ==> lab[v] == lab.len() || lab[v] <= g
        &&& forall|v: int| 0 <= v < lab.len() && lab[v] == g ==> queue.contains(v as usize)
        &&& forall|x: int|
            0 <= x < queue.len() ==> (#[trigger] queue[x]) < lab.len() && lab[queue[x] as int] == g
                && self.connected(opts, d, queue[x] as int)
    }

    /// Labelling one unlabelled node `g` keeps the lower labels settled.
    proof fn lemma_relabel(&self, opts: TraversalOpts, lab: Seq<usize>, v: int, g: usize)
        requires
            self.settled(opts, lab, g as int),
            0 <= v < lab.len(),
            lab[v] == lab.len(),
            g < lab.len(),
        ensures
            self.settled(opts, lab.update(v, g), g as int),
            Self::grows(lab, lab.update(v, g), g),
            cnt_eq(lab.update(v, g), lab.len() as int) + 1 == cnt_eq(lab, lab.len() as int),
    {
        let l2 = lab.update(v, g);
        assert forall|c: int| 0 <= c < g implies #[trigger] used(l2, c) by {
            assert(used(lab, c));
            let w = choose|w: int| 0 <= w < lab.len() && lab[w] == c;
            assert(l2[w] == c);
        }
        lemma_cnt_update(lab, v, g, lab.len() as int);
    }

    /// Labels that grow stay settled, stay a flood, and grow transitively.
    proof fn lemma_grows_trans(a: Seq<usize>, b: Seq<usize>, c: Seq<usize>, g: usize)
        requires
            Self::grows(a, b, g),
            Self::grows(b, c, g),
        ensures
            Self::grows(a, c, g),
    {
    }

    /// Label `v` with `g` and enqueue it, unless it is labelled already.
    fn enqueue(
        &self,
        Ghost(opts): Ghost<TraversalOpts>,
        lab: &mut Vec<usize>,
        queue: &mut Vec<usize>,
        v: usize,
        Ghost(d): Ghost<int>,
        g: usize,
        Ghost(lab0): Ghost<Seq<usize>>,
        Ghost(q0): Ghost<Seq<usize>>,
    )
        requires
            self.settled(opts, old(lab)@, g as int),
            self.flooding(opts, old(lab)@, old(queue)@, d, g as int),
            Self::grows(lab0, old(lab)@, g),
            q0.is_prefix_of(old(queue)@),
            cnt_eq(old(lab)@, old(lab)@.len() as int) + old(queue)@.len() == cnt_eq(lab0, lab0.len() as int) + q0.len(),
            v < old(lab)@.len(),
            g < old(lab)@.len(),
            self.connected(opts, d, v as int),
        ensures
            self.settled(opts, final(lab)@, g as int),
            self.flooding(opts, final(lab)@, final(queue)@, d, g as int),
            Self::grows(lab0, final(lab)@, g),
            Self::grows(old(lab)@, final(lab)@, g),
            q0.is_prefix_of(final(queue)@),
            cnt_eq(final(lab)@, final(lab)@.len() as int) + final(queue)@.len() == cnt_eq(lab0, lab0.len() as int) + q0.len(),
            final(lab)@[v as int] != final(lab)@.len(),
    {
        let n = lab.len();
        if lab[v] == n {
            let ghost l1 = lab@;
            let ghost qa = queue@;
            proof {
                self.lemma_relabel(opts, l1, v as int, g);
            }
            lab.set(v, g);
            queue.push(v);
            proof {
                Self::lemma_grows_trans(lab0, l1, lab@, g);
                assert forall|w: int| 0 <= w < lab@.len() && lab@[w] == g implies queue@.contains(w as usize) by {
                    if w != v {
                        assert(qa.contains(w as usize));
                        let i = choose|i: int| 0 <= i < qa.len() && qa[i] == w as usize;
                        assert(queue@[i] == w);
                    } else {
                        assert(queue@[queue@.len() - 1] == v);
                    }
                }
                assert forall|x: int| 0 <= x < queue@.len() implies (#[trigger] queue@[x]) < lab@.len() && lab@[queue@[x] as int] == g
                    && self.connected(opts, d, queue@[x] as int) by {
                    if x < qa.len() {
                        assert(queue@[x] == qa[x]);
                    }
                }
                assert(q0.is_prefix_of(queue@)) by {
                    assert forall|i: int| 0 <= i < q0.len() implies q0[i] == queue@[i] by {
                        assert(q0[i] == qa[i]);
                    }
                }
            }
        } else {
            proof {
                assert(lab@ == old(lab)@);
            }
        }
    }

    /// The arrays around node `u`'s out- and in-lists.
    proof fn lemma_lists_bounds(&self, u: int)
        requires
            self.wf(),
            0 <= u < self.nc(),
        ensures
            self.row_offsets@.len() == self.nc() + 1,
            self.rev_offsets@.len() == self.nc() + 1,
            self.row(u) <= self.row(u + 1) <= self.ec(),
            self.rev_offsets@[u] <= self.rev_offsets@[u + 1] <= self.ec(),
            self.col_dst@.len() == self.ec(),
            self.rev_edge_ref@.len() == self.ec(),
            self.rev_src@.len() == self.ec(),
    {
        reveal(CsrSnapshot::wf);
    }

    /// Out-slot `y` of `u` leaves `u` for a dense node.
    proof fn lemma_out_slot(&self, u: int, y: int)
        requires
            self.wf(),
            0 <= u < self.nc(),
            self.row(u) <= y < self.row(u + 1),
        ensures
            0 <= y < self.ec(),
            self.src_of(y) == u,
            0 <= self.dst_of(y) < self.nc(),
    {
        reveal(CsrSnapshot::wf);
        assert(self.row_offsets@[u] <= y < self.row_offsets@[u + 1]);
        assert(self.edge_src@[y] == u);
        assert(self.canonical(self.dst_of(y)));
    }

    /// In-entry `k` of `u` refers to a slot entering `u` from a dense node.
    proof fn lemma_in_entry(&self, u: int, k: int)
        requires
            self.wf(),
            0 <= u < self.nc(),
            self.rev_offsets@[u] <= k < self.rev_offsets@[u + 1],
        ensures
            0 <= k < self.ec(),
            0 <= self.rev_edge_ref@[k] < self.ec(),
            self.dst_of(self.rev_edge_ref@[k] as int) == u,
            self.src_of(self.rev_edge_ref@[k] as int) == self.rev_src@[k],
            0 <= self.rev_src@[k] < self.nc(),
    {
        reveal(CsrSnapshot::wf);
        let e = self.rev_edge_ref@[k] as int;
        assert(0 <= e < self.ec() && self.col_dst@[e] == u && self.rev_src@[k] == self.edge_src@[e]);
        assert(self.canonical(self.src_of(e)));
    }

    /// Label and enqueue the unlabelled heads of `u`'s passing out-edges.
    #[verifier::spinoff_prover]
    #[verifier::rlimit(100)]
    fn visit_out(
        &self,
        und: &TraversalOpts,
        Ghost(opts): Ghost<TraversalOpts>,
        lab: &mut Vec<usize>,
        queue: &mut Vec<usize>,
        u: usize,
        Ghost(d): Ghost<int>,
        g: usize,
    )
        requires
            self.wf(),
            *und == undirected(opts),
            self.settled(opts, old(lab)@, g as int),
            self.flooding(opts, old(lab)@, old(queue)@, d, g as int),
            u < self.nc(),
            g < self.nc(),
            old(lab)@[u as int] == g,
            self.connected(opts, d, u as int),
        ensures
            self.settled(opts, final(lab)@, g as int),
            self.flooding(opts, final(lab)@, final(queue)@, d, g as int),
            Self::grows(old(lab)@, final(lab)@, g),
            old(queue)@.is_prefix_of(final(queue)@),
            cnt_eq(final(lab)@, self.nc()) + final(queue)@.len() == cnt_eq(old(lab)@, self.nc()) + old(queue)@.len(),
            forall|z: int| #[trigger] self.out_upto(*und, u as int, self.row(u as int + 1), z) ==> 0 <= z < self.nc()
                && final(lab)@[z] != self.nc(),
    {
        proof {
            reveal(CsrSnapshot::wf);
        }
        let ghost o = *und;
        let ghost lab0 = lab@;
        let ghost q0 = queue@;
        let n = self.node_id.len();
        let hi = self.row_offsets[u + 1];
        let mut y = self.row_offsets[u];
        while y < hi
            invariant
                self.wf(),
                n == self.nc(),
                o == *und,
                o == undirected(opts),
                u < n,
                g < n,
                lab@[u as int] == g,
                self.connected(opts, d, u as int),
                self.row(u as int) <= y <= hi,
                hi == self.row(u as int + 1),
                self.settled(opts, lab@, g as int),
                self.flooding(opts, lab@, queue@, d, g as int),
                Self::grows(lab0, lab@, g),
                q0.is_prefix_of(queue@),
                cnt_eq(lab@, n as int) + queue@.len() == cnt_eq(lab0, n as int) + q0.len(),
                forall|z: int| #[trigger] self.out_upto(o, u as int, y as int, z) ==> 0 <= z < n && lab@[z] != n,
            decreases hi - y,
        {
            let ghost yy = y as int;
            proof {
                self.lemma_out_slot(u as int, yy);
            }
            if self.slot_passes(y, und) {
                let v = self.col_dst[y];
                proof {
                    assert(self.step(o, u as int, yy, v as int));
                    assert(self.adj(o, u as int, v as int));
                    self.lemma_conn_extend(opts, d, u as int, v as int);
                }
                self.enqueue(Ghost(opts), lab, queue, v, Ghost(d), g, Ghost(lab0), Ghost(q0));
            }
            y = y + 1;
            proof {
                assert forall|z: int| #[trigger] self.out_upto(o, u as int, y as int, z) implies 0 <= z < n && lab@[z] != n by {
                    let w = choose|w: int| self.row(u as int) <= w < y && self.passes(w, o) && #[trigger] self.dst_of(w) == z;
                    if w < yy {
                        assert(self.out_upto(o, u as int, yy, z));
                    }
                }
            }
        }
    }

    /// Label and enqueue the unlabelled tails of `u`'s passing in-edges.
    #[verifier::spinoff_prover]
    #[verifier::rlimit(100)]
    fn visit_in(
        &self,
        und: &TraversalOpts,
        Ghost(opts): Ghost<TraversalOpts>,
        lab: &mut Vec<usize>,
        queue: &mut Vec<usize>,
        u: usize,
        Ghost(d): Ghost<int>,
        g: usize,
    )
        requires
            self.wf(),
            *und == undirected(opts),
            self.settled(opts, old(lab)@, g as int),
            self.flooding(opts, old(lab)@, old(queue)@, d, g as int),
            u < self.nc(),
            g < self.nc(),
            old(lab)@[u as int] == g,
            self.connected(opts, d, u as int),
        ensures
            self.settled(opts, final(lab)@, g as int),
            self.flooding(opts, final(lab)@, final(queue)@, d, g as int),
            Self::grows(old(lab)@, final(lab)@, g),
            old(queue)@.is_prefix_of(final(queue)@),
            cnt_eq(final(lab)@, self.nc()) + final(queue)@.len() == cnt_eq(old(lab)@, self.nc()) + old(queue)@.len(),
            forall|z: int| #[trigger] self.in_upto(*und, u as int, self.rev_offsets@[u as int + 1] as int, z) ==> 0 <= z
                < self.nc() && final(lab)@[z] != self.nc(),
    {
        proof {
            reveal(CsrSnapshot::wf);
        }
        let ghost o = *und;
        let ghost lab0 = lab@;
        let ghost q0 = queue@;
        let n = self.node_id.len();
        let khi = self.rev_offsets[u + 1];
        let mut k = self.rev_offsets[u];
        while k < khi
            invariant
                self.wf(),
                n == self.nc(),
                o == *und,
                o == undirected(opts),
                u < n,
                g < n,
                lab@[u as int] == g,
                self.connected(opts, d, u as int),
                self.rev_offsets@[u as int] <= k <= khi,
                khi == self.rev_offsets@[u as int + 1],
                self.settled(opts, lab@, g as int),
                self.flooding(opts, lab@, queue@, d, g as int),
                Self::grows(lab0, lab@, g),
                q0.is_prefix_of(queue@),
                cnt_eq(lab@, n as int) + queue@.len() == cnt_eq(lab0, n as int) + q0.len(),
                forall|z: int| #[trigger] self.in_upto(o, u as int, k as int, z) ==> 0 <= z < n && lab@[z] != n,
            decreases khi - k,
        {
            let ghost kk = k as int;
            proof {
                self.lemma_in_entry(u as int, kk);
                self.lemma_lists_bounds(u as int);
            }
            let e = self.rev_edge_ref[k];
            let v = self.rev_src[k];
            if self.slot_passes(e, und) {
                proof {
                    assert(self.step(o, u as int, e as int, v as int));
                    assert(self.adj(o, u as int, v as int));
                    self.lemma_conn_extend(opts, d, u as int, v as int);
                }
                self.enqueue(Ghost(opts), lab, queue, v, Ghost(d), g, Ghost(lab0), Ghost(q0));
            }
            k = k + 1;
            proof {
                assert forall|z: int| #[trigger] self.in_upto(o, u as int, k as int, z) implies 0 <= z < n && lab@[z] != n by {
                    let w = choose|w: int|
                        self.rev_offsets@[u as int] <= w < k && self.passes(self.rev_edge_ref@[w] as int, o)
                            && #[trigger] self.rev_src@[w] == z;
                    if w < kk {
                        assert(self.in_upto(o, u as int, kk, z));
                    }
                }
            }
        }
    }

    /// Expand `u`: label `g` and enqueue each unlabelled neighbor.
    fn visit_neighbors(
        &self,
        und: &TraversalOpts,
        Ghost(opts): Ghost<TraversalOpts>,
        lab: &mut Vec<usize>,
        queue: &mut Vec<usize>,
        u: usize,
        Ghost(d): Ghost<int>,
        g: usize,
    )
        requires
            self.wf(),
            *und == undirected(opts),
            self.settled(opts, old(lab)@, g as int),
            self.flooding(opts, old(lab)@, old(queue)@, d, g as int),
            u < self.nc(),
            g < self.nc(),
            old(lab)@[u as int] == g,
            self.connected(opts, d, u as int),
        ensures
            self.settled(opts, final(lab)@, g as int),
            self.flooding(opts, final(lab)@, final(queue)@, d, g as int),
            Self::grows(old(lab)@, final(lab)@, g),
            old(queue)@.is_prefix_of(final(queue)@),
            cnt_eq(final(lab)@, self.nc()) + final(queue)@.len() == cnt_eq(old(lab)@, self.nc()) + old(queue)@.len(),
            forall|v: int| #[trigger] self.adj(*und, u as int, v) ==> 0 <= v < self.nc() && final(lab)@[v] != self.nc(),
    {
        proof {
            reveal(CsrSnapshot::wf);
            self.lemma_lists_complete(*und, u as int);
        }
        let ghost l0 = lab@;
        let ghost q0 = queue@;
        self.visit_out(und, Ghost(opts), lab, queue, u, Ghost(d), g);
        let ghost l1 = lab@;
        let ghost q1 = queue@;
        proof {
            assert(l1[u as int] == g);
        }
        self.visit_in(und, Ghost(opts), lab, queue, u, Ghost(d), g);
        proof {
            Self::lemma_grows_trans(l0, l1, lab@, g);
            assert(q0.is_prefix_of(queue@)) by {
                assert forall|i: int| 0 <= i < q0.len() implies q0[i] == queue@[i] by {
                    assert(q0[i] == q1[i]);
                }
            }
            assert forall|v: int| #[trigger] self.adj(*und, u as int, v) implies 0 <= v < self.nc() && lab@[v] != self.nc() by {
                if self.out_upto(*und, u as int, self.row(u as int + 1), v) {
                    assert(l1[v] != self.nc());
                }
            }
        }
    }

    /// Flood the component of the unlabelled node `d` with label `g`.
    #[verifier::rlimit(40)]
    fn flood(&self, und: &TraversalOpts, Ghost(opts): Ghost<TraversalOpts>, lab: &mut Vec<usize>, d: usize, g: usize)
        requires
            self.wf(),
            *und == undirected(opts),
            self.settled(opts, old(lab)@, g as int),
            g <= d < self.nc(),
            old(lab)@[d as int] == self.nc(),
            forall|v: int| 0 <= v < self.nc() ==> old(lab)@[v] == self.nc() || old(lab)@[v] < g,
        ensures
            self.settled(opts, final(lab)@, g + 1),
            Self::grows(old(lab)@, final(lab)@, g),
            final(lab)@[d as int] == g,
            forall|v: int| 0 <= v < self.nc() ==> final(lab)@[v] == self.nc() || final(lab)@[v] <= g,
    {
        proof {
            reveal(CsrSnapshot::wf);
        }
        let ghost o = *und;
        let ghost lab0 = lab@;
        let n = self.node_id.len();
        proof {
            self.lemma_relabel(opts, lab0, d as int, g);
            self.lemma_conn_refl(opts, d as int);
        }
        lab.set(d, g);
        let mut queue: Vec<usize> = Vec::new();
        queue.push(d);
        proof {
            assert(queue@[0] == d);
            assert forall|v: int| 0 <= v < lab@.len() && lab@[v] == g implies queue@.contains(v as usize) by {
                assert(v == d);
            }
        }
        let mut head: usize = 0;
        while head < queue.len()
            invariant
                self.wf(),
                n == self.nc(),
                o == *und,
                o == undirected(opts),
                g < n,
                d < n,
                lab@[d as int] == g,
                head <= queue@.len(),
                self.settled(opts, lab@, g as int),
                self.flooding(opts, lab@, queue@, d as int, g as int),
                Self::grows(lab0, lab@, g),
                forall|x: int, y: int| 0 <= x < head && #[trigger] self.adj(o, queue@[x] as int, y) ==> 0 <= y < n && lab@[y] != n,
            decreases cnt_eq(lab@, n as int) + queue@.len() - head,
        {
            let u = queue[head];
            let ghost l1 = lab@;
            let ghost qa = queue@;
            proof {
                assert(qa[head as int] == u);
            }
            self.visit_neighbors(und, Ghost(opts), lab, &mut queue, u, Ghost(d as int), g);
            proof {
                Self::lemma_grows_trans(lab0, l1, lab@, g);
                assert forall|x: int, y: int| 0 <= x < head + 1 && #[trigger] self.adj(o, queue@[x] as int, y) implies 0 <= y < n && lab@[y] != n by {
                    assert(queue@[x] == qa[x]);
                    if x < head {
                        assert(self.adj(o, qa[x] as int, y));
                        assert(l1[y] != n);
                    }
                }
                crate::group::lemma_cnt_bounded(lab@, n as int);
            }
            head = head + 1;
        }
        proof {
            // The component of `d` is closed and pairwise connected.
            assert forall|x: int, y: int|
                0 <= x < lab@.len() && lab@[x] < g + 1 && #[trigger] self.adj(undirected(opts), x, y) implies 0 <= y < lab@.len()
                    && lab@[y] == lab@[x] by {
                if lab@[x] == g {
                    assert(queue@.contains(x as usize));
                    let qx = choose|qx: int| 0 <= qx < queue@.len() && queue@[qx] == x as usize;
                    assert(self.adj(o, queue@[qx] as int, y));
                    if lab@[y] < g {
                        self.lemma_adj_sym(opts, x, y);
                        assert(self.adj(o, y, x));
                    }
                }
            }
            assert forall|x: int, y: int|
                0 <= x < lab@.len() && 0 <= y < lab@.len() && lab@[x] < g + 1 && lab@[y] == lab@[x] implies #[trigger] self.connected(
                    opts,
                    x,
                    y,
                ) by {
                if lab@[x] == g {
                    assert(queue@.contains(x as usize));
                    assert(queue@.contains(y as usize));
                    let qx = choose|qx: int| 0 <= qx < queue@.len() && queue@[qx] == x as usize;
                    let qy = choose|qy: int| 0 <= qy < queue@.len() && queue@[qy] == y as usize;
                    assert(self.connected(opts, d as int, queue@[qx] as int));
                    assert(self.connected(opts, d as int, queue@[qy] as int));
                    self.lemma_conn_sym(opts, d as int, x);
                    self.lemma_conn_trans(opts, x, d as int, y);
                }
            }
            assert forall|c: int| 0 <= c < g + 1 implies #[trigger] used(lab@, c) by {
                if c == g {
                    assert(lab@[d as int] == g);
                }
            }
        }
    }

    /// Label every node with its component, components numbered in the order
    /// of their smallest node. Returns the labels and the number of
    /// components.
    fn label_components(&self, opts: &TraversalOpts) -> (r: (Vec<usize>, usize))
        requires
            self.wf(),
        ensures
            r.0@.len() == self.nc(),
            r.1 <= self.nc(),
            forall|v: int| 0 <= v < self.nc() ==> #[trigger] r.0@[v] < r.1,
            forall|c: int| 0 <= c < r.1 ==> #[trigger] used(r.0@, c),
            forall|u: int, v: int|
                0 <= u < self.nc() && 0 <= v < self.nc() ==> (#[trigger] self.connected(*opts, u, v) <==> r.0@[u]
                    == r.0@[v]),
    {
        proof {
            reveal(CsrSnapshot::wf);
        }
        let und = TraversalOpts { direction: Dir::Both, ..*opts };
        let n = self.node_id.len();
        let mut lab: Vec<usize> = Vec::new();
        while lab.len() < n
            invariant
                lab@.len() <= n,
                n == self.nc(),
                forall|v: int| 0 <= v < lab@.len() ==> lab@[v] == n,
            decreases n - lab@.len(),
        {
            lab.push(n);
        }
        let mut g: usize = 0;
        let mut d: usize = 0;
        while d < n
            invariant
                self.wf(),
                n == self.nc(),
                und == undirected(*opts),
                lab@.len() == n,
                g <= d <= n,
                forall|v: int| 0 <= v < n ==> lab@[v] == n || lab@[v] < g,
                forall|v: int| 0 <= v < d ==> lab@[v] < g,
                self.settled(*opts, lab@, g as int),
            decreases n - d,
        {
            if lab[d] == n {
                let ghost l0 = lab@;
                self.flood(&und, Ghost(*opts), &mut lab, d, g);
                proof {
                    assert forall|v: int| 0 <= v < d implies lab@[v] < g + 1 by {
                        assert(l0[v] < g);
                    }
                }
                g = g + 1;
            }
            d = d + 1;
        }
        proof {
            assert forall|u: int, v: int|
                0 <= u < n && 0 <= v < n implies (#[trigger] self.connected(*opts, u, v) <==> lab@[u] == lab@[v]) by {
                if self.connected(*opts, u, v) {
                    let p = choose|p: Seq<int>| #[trigger] self.is_chain(*opts, p) && p[0] == u && p.last() == v;
                    let c = lab@[u];
                    self.lemma_closed_chain(*opts, lab@, c, p, p.len() - 1);
                }
            }
        }
        (lab, g)
    }

    /// The labels `0..sizes.len()` ordered by size, largest first (equal
    /// sizes by label).
    fn rank_by_size(sizes: &Vec<usize>, n: usize) -> (ranked: Vec<usize>)
        requires
            n < usize::MAX,
            forall|x: int| 0 <= x < sizes@.len() ==> 1 <= #[trigger] sizes@[x] <= n,
        ensures
            forall|x: int| 0 <= x < ranked@.len() ==> #[trigger] ranked@[x] < sizes@.len(),
            forall|x: int, y: int| 0 <= x < y < ranked@.len() ==> #[trigger] ranked@[x] != #[trigger] ranked@[y],
            forall|x: int, y: int|
                0 <= x < y < ranked@.len() ==> sizes@[#[trigger] ranked@[x] as int] >= sizes@[#[trigger] ranked@[y] as int],
            forall|c: int| 0 <= c < sizes@.len() ==> #[trigger] holds(ranked@, c),
    {
        let g = sizes.len();
        let mut keys: Vec<usize> = Vec::new();
        let mut c: usize = 0;
        while c < g
            invariant
                c <= g,
                g == sizes@.len(),
                keys@.len() == c,
                forall|x: int| 0 <= x < sizes@.len() ==> 1 <= #[trigger] sizes@[x] <= n,
                forall|x: int| 0 <= x < c ==> #[trigger] keys@[x] == sizes@[x] - 1,
            decreases g - c,
        {
            keys.push(sizes[c] - 1);
            c = c + 1;
        }
        let (offs, order) = group_by_key(&keys, n);
        proof {
            assert forall|u: int| 0 <= u <= n implies #[trigger] offs@[u] <= keys@.len() by {
                assert(offs@[u] <= offs@[n as int]);
            }
        }
        let mut ranked: Vec<usize> = Vec::new();
        let mut b: usize = n;
        while b > 0
            invariant
                b <= n,
                g == sizes@.len(),
                keys@.len() == g,
                offs@.len() == n + 1,
                order@.len() == g,
                forall|u: int| 0 <= u <= n ==> #[trigger] offs@[u] <= g,
                forall|x: int| 0 <= x < g ==> #[trigger] keys@[x] == sizes@[x] - 1,
                forall|x: int| 0 <= x < g ==> 1 <= #[trigger] sizes@[x] <= n,
                forall|u: int| 0 <= u < n ==> offs@[u + 1] == offs@[u] + cnt_eq(keys@, u),
                forall|u: int, t: int|
                    0 <= u < n && 0 <= t < cnt_eq(keys@, u) ==> order@[offs@[u] + t] == #[trigger] group(keys@, u)[t],
                forall|x: int| 0 <= x < ranked@.len() ==> #[trigger] ranked@[x] < g && keys@[ranked@[x] as int] >= b,
                forall|x: int, y: int| 0 <= x < y < ranked@.len() ==> #[trigger] ranked@[x] != #[trigger] ranked@[y],
                forall|x: int, y: int|
                    0 <= x < y < ranked@.len() ==> keys@[#[trigger] ranked@[x] as int] >= keys@[#[trigger] ranked@[y] as int],
                forall|c2: int| 0 <= c2 < g && keys@[c2] >= b ==> #[trigger] holds(ranked@, c2),
            decreases b,
        {
            let key = b - 1;
            let lo = offs[key];
            let hi = offs[key + 1];
            let ghost r0 = ranked@;
            let ghost gk = group(keys@, key as int);
            proof {
                lemma_group(keys@, key as int);
            }
            let mut t = lo;
            while t < hi
                invariant
                    lo <= t <= hi,
                    hi == lo + cnt_eq(keys@, key as int),
                    key < n,
                    hi <= keys@.len(),
                    offs@.len() == n + 1,
                    offs@[key as int] == lo,
                    order@.len() == keys@.len(),
                    gk == group(keys@, key as int),
                    gk.len() == cnt_eq(keys@, key as int),
                    forall|u: int, t2: int|
                        0 <= u < n && 0 <= t2 < cnt_eq(keys@, u) ==> order@[offs@[u] + t2] == #[trigger] group(keys@, u)[t2],
                    ranked@.len() == r0.len() + (t - lo),
                    forall|x: int| 0 <= x < r0.len() ==> ranked@[x] == r0[x],
                    forall|x: int| 0 <= x < t - lo ==> ranked@[r0.len() + x] == gk[x],
                decreases hi - t,
            {
                proof {
                    assert(order@[offs@[key as int] + (t - lo)] == group(keys@, key as int)[t - lo]);
                    crate::group::lemma_cnt_bounded(keys@, key as int);
                }
                ranked.push(order[t]);
                t = t + 1;
            }
            proof {
                assert forall|x: int| 0 <= x < ranked@.len() implies #[trigger] ranked@[x] < g && keys@[ranked@[x] as int] >= key by {
                    if x >= r0.len() {
                        assert(ranked@[x] == gk[x - r0.len()]);
                    } else {
                        assert(ranked@[x] == r0[x]);
                    }
                }
                assert forall|x: int, y: int| 0 <= x < y < ranked@.len() implies #[trigger] ranked@[x] != #[trigger] ranked@[y] by {
                    if y >= r0.len() {
                        assert(ranked@[y] == gk[y - r0.len()]);
                        if x >= r0.len() {
                            assert(ranked@[x] == gk[x - r0.len()]);
                        } else {
                            assert(ranked@[x] == r0[x]);
                        }
                    } else {
                        assert(ranked@[x] == r0[x] && ranked@[y] == r0[y]);
                    }
                }
                assert forall|x: int, y: int|
                    0 <= x < y < ranked@.len() implies keys@[#[trigger] ranked@[x] as int] >= keys@[#[trigger] ranked@[y] as int] by {
                    if y >= r0.len() {
                        assert(ranked@[y] == gk[y - r0.len()]);
                        if x >= r0.len() {
                            assert(ranked@[x] == gk[x - r0.len()]);
                        } else {
                            assert(ranked@[x] == r0[x]);
                        }
                    } else {
                        assert(ranked@[x] == r0[x] && ranked@[y] == r0[y]);
                    }
                }
                assert forall|c2: int| 0 <= c2 < g && keys@[c2] >= key implies #[trigger] holds(ranked@, c2) by {
                    if keys@[c2] == key {
                        let t2 = choose|t2: int| 0 <= t2 < gk.len() && #[trigger] gk[t2] == c2;
                        assert(ranked@[r0.len() + t2] == c2);
                    } else {
                        assert(holds(r0, c2));
                        let x = choose|x: int| 0 <= x < r0.len() && r0[x] == c2;
                        assert(ranked@[x] == c2);
                    }
                }
            }
            b = b - 1;
        }
        proof {
            assert forall|c2: int| 0 <= c2 < g implies #[trigger] holds(ranked@, c2) by {
                assert(keys@[c2] >= 0);
            }
            assert forall|x: int, y: int|
                0 <= x < y < ranked@.len() implies sizes@[#[trigger] ranked@[x] as int] >= sizes@[#[trigger] ranked@[y] as int] by {
                assert(keys@[ranked@[x] as int] >= keys@[ranked@[y] as int]);
            }
        }
        ranked
    }

    /// Weakly-connected components under `opts` (edges treated as undirected;
    /// the time window and type filter apply, the direction does not). Groups
    /// come largest first, each in node order.
    pub fn connected_components(&self, opts: &TraversalOpts) -> (r: Vec<Vec<NodeId>>)
        requires
            self.wf(),
        ensures
            exists|gs: Seq<Seq<int>>|
                #[trigger] self.is_components(*opts, gs) && r@.map_values(|g: Vec<NodeId>| g@) == self.group_ids(gs),
    {
        proof {
            reveal(CsrSnapshot::wf);
        }
        let n = self.node_id.len();
        let (lab, g) = self.label_components(opts);
        let ghost labs = lab@;
        proof {
            assert(keys_below(labs, g as int));
        }
        // Positions grouped by label, ascending within each label.
        let (offs, order) = group_by_key(&lab, g);
        proof {
            assert forall|u: int| 0 <= u <= g implies #[trigger] offs@[u] <= n by {
                assert(offs@[u] <= offs@[g as int]);
            }
        }
        let mut sizes: Vec<usize> = Vec::new();
        let mut c: usize = 0;
        while c < g
            invariant
                c <= g,
                g <= n,
                n == self.nc(),
                labs == lab@,
                labs.len() == n,
                sizes@.len() == c,
                offs@.len() == g + 1,
                forall|u: int| 0 <= u < g ==> offs@[u + 1] == offs@[u] + cnt_eq(labs, u),
                forall|x: int| 0 <= x < c ==> #[trigger] sizes@[x] == cnt_eq(labs, x),
                forall|u: int| 0 <= u < g ==> #[trigger] used(labs, u),
            decreases g - c,
        {
            proof {
                lemma_group(labs, c as int);
                crate::group::lemma_cnt_bounded(labs, c as int);
            }
            sizes.push(offs[c + 1] - offs[c]);
            c = c + 1;
        }
        proof {
            assert forall|x: int| 0 <= x < g implies 1 <= #[trigger] sizes@[x] <= n by {
                assert(used(labs, x));
                let v = choose|v: int| 0 <= v < labs.len() && labs[v] == x;
                lemma_group(labs, x);
                crate::group::lemma_cnt_bounded(labs, x);
            }
        }
        let ranked = Self::rank_by_size(&sizes, n);
        // The groups, in rank order.
        let mut out: Vec<Vec<NodeId>> = Vec::new();
        let ghost mut gs: Seq<Seq<int>> = Seq::empty();
        let mut x: usize = 0;
        while x < ranked.len()
            invariant
                x <= ranked@.len(),
                n == self.nc(),
                self.wf(),
                labs == lab@,
                labs.len() == n,
                g <= n,
                forall|x2: int| 0 <= x2 < ranked@.len() ==> #[trigger] ranked@[x2] < g,
                offs@.len() == g + 1,
                order@.len() == n,
                forall|u: int| 0 <= u <= g ==> #[trigger] offs@[u] <= n,
                forall|u: int| 0 <= u < g ==> offs@[u + 1] == offs@[u] + cnt_eq(labs, u),
                forall|u: int, t: int|
                    0 <= u < g && 0 <= t < cnt_eq(labs, u) ==> order@[offs@[u] + t] == #[trigger] group(labs, u)[t],
                gs.len() == x,
                forall|a: int| 0 <= a < x ==> #[trigger] gs[a] == group(labs, ranked@[a] as int),
                out@.map_values(|g: Vec<NodeId>| g@) == self.group_ids(gs),
            decreases ranked@.len() - x,
        {
            let c = ranked[x];
            let lo = offs[c];
            let hi = offs[c + 1];
            let ghost grp = group(labs, c as int);
            proof {
                lemma_group(labs, c as int);
                crate::group::lemma_cnt_bounded(labs, c as int);
            }
            let mut ids: Vec<NodeId> = Vec::new();
            let mut t = lo;
            while t < hi
                invariant
                    lo <= t <= hi,
                    hi == lo + cnt_eq(labs, c as int),
                    c < g,
                    hi <= n,
                    n == self.nc(),
                    self.wf(),
                    grp == group(labs, c as int),
                    grp.len() == cnt_eq(labs, c as int),
                    labs.len() == n,
                    order@.len() == n,
                    offs@.len() == g + 1,
                    offs@[c as int] == lo,
                    forall|t2: int| 0 <= t2 < grp.len() ==> 0 <= #[trigger] grp[t2] < n,
                    forall|u: int, t2: int|
                        0 <= u < g && 0 <= t2 < cnt_eq(labs, u) ==> order@[offs@[u] + t2] == #[trigger] group(labs, u)[t2],
                    ids@ == grp.take(t - lo).map_values(|d: int| NodeId(self.node_id@[d])),
                decreases hi - t,
            {
                proof {
                    assert(order@[offs@[c as int] + (t - lo)] == group(labs, c as int)[t - lo]);
                    reveal(CsrSnapshot::wf);
                }
                let dn = order[t];
                ids.push(NodeId(self.node_id[dn]));
                t = t + 1;
                proof {
                    assert(ids@ =~= grp.take(t - lo).map_values(|d: int| NodeId(self.node_id@[d])));
                }
            }
            proof {
                assert(grp.take(t - lo) =~= grp);
                assert(ids@ == grp.map_values(|d: int| NodeId(self.node_id@[d])));
            }
            let ghost out0 = out@;
            out.push(ids);
            proof {
                assert(out0.map_values(|g: Vec<NodeId>| g@).len() == out0.len());
                assert(self.group_ids(gs).len() == gs.len());
                assert(out0.len() == gs.len());
                assert(out@ == out0.push(ids));
                let gs2 = gs.push(grp);
                assert forall|i: int| 0 <= i < gs2.len() implies out@.map_values(|g: Vec<NodeId>| g@)[i] == self.group_ids(gs2)[i] by {
                    if i < gs.len() {
                        assert(out@[i] == out0[i]);
                        assert(out0.map_values(|g: Vec<NodeId>| g@)[i] == self.group_ids(gs)[i]);
                        assert(gs2[i] == gs[i]);
                    } else {
                        assert(gs2[i] == grp);
                    }
                }
                assert(out@.map_values(|g: Vec<NodeId>| g@) =~= self.group_ids(gs2));
                gs = gs2;
            }
            x = x + 1;
        }
        proof {
            self.lemma_components(*opts, labs, g as int, sizes@, ranked@, gs);
        }
        out
    }

    /// The groups of the labels in rank order are the components.
    proof fn lemma_components(
        &self,
        opts: TraversalOpts,
        labs: Seq<usize>,
        g: int,
        sizes: Seq<usize>,
        ranked: Seq<usize>,
        gs: Seq<Seq<int>>,
    )
        requires
            labs.len() == self.nc(),
            sizes.len() == g,
            forall|v: int| 0 <= v < self.nc() ==> #[trigger] labs[v] < g,
            forall|c: int| 0 <= c < g ==> #[trigger] used(labs, c),
            forall|u: int, v: int|
                0 <= u < self.nc() && 0 <= v < self.nc() ==> (#[trigger] self.connected(opts, u, v) <==> labs[u]
                    == labs[v]),
            forall|c: int| 0 <= c < g ==> #[trigger] sizes[c] == cnt_eq(labs, c),
            forall|x: int| 0 <= x < ranked.len() ==> #[trigger] ranked[x] < g,
            forall|x: int, y: int| 0 <= x < y < ranked.len() ==> #[trigger] ranked[x] != #[trigger] ranked[y],
            forall|x: int, y: int|
                0 <= x < y < ranked.len() ==> sizes[#[trigger] ranked[x] as int] >= sizes[#[trigger] ranked[y] as int],
            forall|c: int| 0 <= c < g ==> #[trigger] holds(ranked, c),
            gs.len() == ranked.len(),
            forall|a: int| 0 <= a < gs.len() ==> #[trigger] gs[a] == group(labs, ranked[a] as int),
        ensures
            self.is_components(opts, gs),
    {
        assert forall|a: int| 0 <= a < gs.len() implies (#[trigger] gs[a]).len() > 0 by {
            let c = ranked[a] as int;
            lemma_group(labs, c);
            assert(used(labs, c));
            let v = choose|v: int| 0 <= v < labs.len() && labs[v] == c;
            let t = choose|t: int| 0 <= t < group(labs, c).len() && #[trigger] group(labs, c)[t] == v;
        }
        assert forall|a: int, t1: int, t2: int|
            0 <= a < gs.len() && 0 <= t1 < t2 < gs[a].len() implies #[trigger] gs[a][t1] < #[trigger] gs[a][t2] by {
            lemma_group(labs, ranked[a] as int);
        }
        assert forall|a: int, t: int| 0 <= a < gs.len() && 0 <= t < gs[a].len() implies 0 <= #[trigger] gs[a][t] < self.nc() by {
            lemma_group(labs, ranked[a] as int);
        }
        assert forall|d: int| 0 <= d < self.nc() implies #[trigger] in_some(gs, d) by {
            let c = labs[d] as int;
            assert(holds(ranked, c));
            let a = choose|a: int| 0 <= a < ranked.len() && ranked[a] == c;
            lemma_group(labs, c);
            let t = choose|t: int| 0 <= t < group(labs, c).len() && #[trigger] group(labs, c)[t] == d;
            assert(gs[a][t] == d);
        }
        assert forall|a: int, b: int, t1: int, t2: int|
            0 <= a < gs.len() && 0 <= b < gs.len() && 0 <= t1 < gs[a].len() && 0 <= t2 < gs[b].len() implies (
            self.connected(opts, #[trigger] gs[a][t1], #[trigger] gs[b][t2]) <==> a == b) by {
            lemma_group(labs, ranked[a] as int);
            lemma_group(labs, ranked[b] as int);
            if a != b {
                if a < b {
                    assert(ranked[a] != ranked[b]);
                } else {
                    assert(ranked[b] != ranked[a]);
                }
            }
        }
        assert forall|a: int, b: int| 0 <= a < b < gs.len() implies (#[trigger] gs[a]).len() >= (#[trigger] gs[b]).len() by {
            lemma_group(labs, ranked[a] as int);
            lemma_group(labs, ranked[b] as int);
            assert(sizes[ranked[a] as int] >= sizes[ranked[b] as int]);
        }
    }
    /// The out-edge slots of dense node `d`: the range `lo..hi`, whose slots
    /// all leave `d` and which holds as many slots as leave `d`.
    pub fn out_slots(&self, d: usize) -> (r: (usize, usize))
        requires
            self.wf(),
            d < self.nc(),
        ensures
            r.0 == self.row(d as int),
            r.1 == self.row(d as int + 1),
            r.0 <= r.1 <= self.ec(),
            forall|e: int| r.0 <= e < r.1 ==> #[trigger] self.src_of(e) == d,
            r.1 - r.0 == cnt_eq(self.src_seq(), d as int),
    {
        proof {
            self.lemma_lists_bounds(d as int);
            assert forall|e: int| self.row(d as int) <= e < self.row(d as int + 1) implies #[trigger] self.src_of(e) == d by {
                self.lemma_out_slot(d as int, e);
            }
            self.lemma_out_count(d as int, self.ec());
            reveal(CsrSnapshot::wf);
            assert(self.edge_src@.take(self.ec()) =~= self.src_seq());
        }
        (self.row_offsets[d], self.row_offsets[d + 1])
    }

    /// The in-edge entries of dense node `d`: the range `lo..hi` of positions
    /// for [`CsrSnapshot::in_slot`], as many as the slots entering `d`.
    pub fn in_slots(&self, d: usize) -> (r: (usize, usize))
        requires
            self.wf(),
            d < self.nc(),
        ensures
            r.0 <= r.1 <= self.ec(),
            r.1 - r.0 == cnt_eq(self.dst_seq(), d as int),
            forall|k: int| r.0 <= k < r.1 ==> #[trigger] self.in_entry(d as int, k),
    {
        proof {
            self.lemma_lists_bounds(d as int);
            reveal(CsrSnapshot::wf);
        }
        (self.rev_offsets[d], self.rev_offsets[d + 1])
    }

    /// Position `k` lies among the in-edge entries of `d`.
    pub closed spec fn in_entry(&self, d: int, k: int) -> bool {
        0 <= d < self.nc() && self.rev_offsets@[d] <= k < self.rev_offsets@[d + 1]
    }

    /// The slot of in-edge entry `k` of dense node `d`: an edge entering `d`.
    pub fn in_slot(&self, d: usize, k: usize) -> (e: usize)
        requires
            self.wf(),
            self.in_entry(d as int, k as int),
        ensures
            e < self.ec(),
            self.dst_of(e as int) == d,
    {
        proof {
            self.lemma_in_entry(d as int, k as int);
            self.lemma_lists_bounds(d as int);
        }
        self.rev_edge_ref[k]
    }

    /// The dense source of slot `e`.
    pub fn slot_src(&self, e: usize) -> (s: usize)
        requires
            self.wf(),
            e < self.ec(),
        ensures
            s == self.src_of(e as int),
            s < self.nc(),
    {
        proof {
            reveal(CsrSnapshot::wf);
            assert(self.canonical(self.src_of(e as int)));
        }
        self.edge_src[e]
    }

    /// The dense destination of slot `e`.
    pub fn slot_dst(&self, e: usize) -> (t: usize)
        requires
            self.wf(),
            e < self.ec(),
        ensures
            t == self.dst_of(e as int),
            t < self.nc(),
    {
        proof {
            reveal(CsrSnapshot::wf);
            assert(self.canonical(self.dst_of(e as int)));
        }
        self.col_dst[e]
    }
}

} // verus!

//! Proximity to alerts: how many hops, along edges taken either way, a node
//! is from the nearest alert node, up to a bound.

use vstd::prelude::*;

use super::CsrSnapshot;
use crate::node::NodeKind;

verus! {

/// The depth of a node that no alert reaches within the bound.
pub const FAR: u32 = 0xFFFF_FFFFu32;

impl CsrSnapshot {
    /// Slot `e` joins dense nodes `u` and `v`, one way or the other.
    pub open spec fn joins(&self, e: int, u: int, v: int) -> bool {
        ||| self.src_of(e) == u && self.dst_of(e) == v
        ||| self.src_of(e) == v && self.dst_of(e) == u
    }

    /// Some edge joins `u` and `v`.
    pub open spec fn linked(&self, u: int, v: int) -> bool {
        exists|e: int| 0 <= e < self.ec() && #[trigger] self.joins(e, u, v)
    }

    /// Dense node `v` is an alert node.
    pub open spec fn is_alert(&self, v: int) -> bool {
        self.node_at(v).kind == NodeKind::Alert
    }

    /// Some alert node is at most `k` hops from dense node `v`.
    pub open spec fn near_alert(&self, v: int, k: nat) -> bool
        decreases k,
    {
        0 <= v < self.nc() && if k == 0 {
            self.is_alert(v)
        } else {
            ||| self.near_alert(v, (k - 1) as nat)
            ||| exists|u: int| 0 <= u < self.nc() && #[trigger] self.linked(u, v) && self.near_alert(u, (k - 1) as nat)
        }
    }

    /// `d` is the hop count from `v` to its nearest alert node when that is at
    /// most `bound`, and [`FAR`] otherwise.
    pub open spec fn alert_depth_is(&self, v: int, d: u32, bound: nat) -> bool {
        if d == FAR {
            !self.near_alert(v, bound)
        } else {
            &&& d <= bound
            &&& self.near_alert(v, d as nat)
            &&& (d == 0 || !self.near_alert(v, (d - 1) as nat))
        }
    }

    proof fn lemma_near_mono(&self, v: int, k: nat, l: nat)
        requires
            self.near_alert(v, k),
            k <= l,
        ensures
            self.near_alert(v, l),
        decreases l - k,
    {
        if k < l {
            self.lemma_near_mono(v, k, (l - 1) as nat);
        }
    }

    proof fn lemma_depth_least(&self, v: int, d: u32, r: nat, k: nat)
        requires
            self.alert_depth_is(v, d, r),
            self.near_alert(v, k),
            k <= r,
        ensures
            d != FAR,
            d <= k,
    {
        if d == FAR {
            self.lemma_near_mono(v, k, r);
        } else if d > k {
            self.lemma_near_mono(v, k, (d - 1) as nat);
        }
    }

    /// The hop count from every dense node to its nearest alert node, along
    /// edges taken either way: [`FAR`] where no alert is within `bound` hops.
    pub fn alert_depths(&self, bound: u32) -> (r: Vec<u32>)
        requires
            self.wf(),
            bound < FAR,
        ensures
            r@.len() == self.nc(),
            forall|v: int| 0 <= v < self.nc() ==> self.alert_depth_is(v, #[trigger] r@[v], bound as nat),
    {
        let n = self.node_count();
        let mut depth: Vec<u32> = Vec::new();
        let mut d: usize = 0;
        while d < n
            invariant
                self.wf(),
                n == self.nc(),
                d <= n,
                depth@.len() == d,
                forall|v: int| 0 <= v < d ==> self.alert_depth_is(v, #[trigger] depth@[v], 0),
            decreases n - d,
        {
            let alert = match self.node_view(d).kind {
                NodeKind::Alert => true,
                _ => false,
            };
            depth.push(if alert {
                0
            } else {
                FAR
            });
            d = d + 1;
        }
        let mut round: u32 = 0;
        while round < bound
            invariant
                n == self.nc(),
                self.wf(),
                round <= bound < FAR,
                depth@.len() == n,
                forall|v: int| 0 <= v < n ==> self.alert_depth_is(v, #[trigger] depth@[v], round as nat),
            decreases bound - round,
        {
            let next = self.relax(&depth, round);
            depth = next;
            round = round + 1;
        }
        depth
    }

    /// One round: every node takes the least of its own depth and one more
    /// than the depth of each node joined to it.
    fn relax(&self, old: &Vec<u32>, round: u32) -> (next: Vec<u32>)
        requires
            self.wf(),
            round < FAR - 1,
            old@.len() == self.nc(),
            forall|v: int| 0 <= v < self.nc() ==> self.alert_depth_is(v, #[trigger] old@[v], round as nat),
        ensures
            next@.len() == self.nc(),
            forall|v: int| 0 <= v < self.nc() ==> self.alert_depth_is(v, #[trigger] next@[v], round as nat + 1),
    {
        let n = self.node_count();
        let mut next: Vec<u32> = Vec::new();
        let mut i: usize = 0;
        while i < n
            invariant
                n == self.nc(),
                old@.len() == n,
                i <= n,
                next@ == old@.take(i as int),
            decreases n - i,
        {
            next.push(old[i]);
            proof {
                assert(old@.take(i + 1) =~= old@.take(i as int).push(old@[i as int]));
            }
            i = i + 1;
        }
        proof {
            assert(old@.take(n as int) =~= old@);
        }
        let m = self.edge_count();
        let mut e: usize = 0;
        while e < m
            invariant
                self.wf(),
                n == self.nc(),
                m == self.ec(),
                e <= m,
                round < FAR - 1,
                old@.len() == n,
                next@.len() == n,
                forall|v: int| 0 <= v < n ==> self.alert_depth_is(v, #[trigger] old@[v], round as nat),
                forall|v: int| 0 <= v < n ==> #[trigger] next@[v] <= old@[v],
                forall|v: int|
                    0 <= v < n && #[trigger] next@[v] != old@[v] ==> exists|u: int|
                        0 <= u < n && #[trigger] self.linked(u, v) && old@[u] != FAR && next@[v] == old@[u] + 1,
                forall|f: int|
                    0 <= f < e ==> {
                        let a = #[trigger] self.src_of(f);
                        let b = self.dst_of(f);
                        &&& 0 <= a < n
                        &&& 0 <= b < n
                        &&& (old@[a] != FAR ==> next@[b] <= old@[a] + 1)
                        &&& (old@[b] != FAR ==> next@[a] <= old@[b] + 1)
                    },
            decreases m - e,
        {
            let u = self.slot_src(e);
            let v = self.slot_dst(e);
            proof {
                assert(self.joins(e as int, u as int, v as int));
                assert(self.joins(e as int, v as int, u as int));
                assert(self.linked(u as int, v as int));
                assert(self.linked(v as int, u as int));
            }
            let du = old[u];
            let dv = old[v];
            if du != FAR {
                proof {
                    assert(self.alert_depth_is(u as int, old@[u as int], round as nat));
                }
                if du + 1 < next[v] {
                    next.set(v, du + 1);
                }
            }
            if dv != FAR {
                proof {
                    assert(self.alert_depth_is(v as int, old@[v as int], round as nat));
                }
                if dv + 1 < next[u] {
                    next.set(u, dv + 1);
                }
            }
            e = e + 1;
        }
        proof {
            assert forall|v: int| 0 <= v < n implies self.alert_depth_is(v, #[trigger] next@[v], round as nat + 1) by {
                let r = round as nat;
                let r1 = (round + 1) as nat;
                assert(self.alert_depth_is(v, old@[v], r));
                if next@[v] == FAR {
                    assert(old@[v] == FAR);
                    if self.near_alert(v, r1) {
                        if !self.near_alert(v, r) {
                            let u = choose|u: int| 0 <= u < self.nc() && #[trigger] self.linked(u, v) && self.near_alert(u, r);
                            assert(self.alert_depth_is(u, old@[u], r));
                            self.lemma_depth_least(u, old@[u], r, r);
                            let f = choose|f: int| 0 <= f < self.ec() && #[trigger] self.joins(f, u, v);
                            assert(self.src_of(f) == self.src_of(f));
                        }
                    }
                } else {
                    if next@[v] == old@[v] {
                        assert(self.near_alert(v, old@[v] as nat));
                    } else {
                        let u = choose|u: int|
                            0 <= u < n && #[trigger] self.linked(u, v) && old@[u] != FAR && next@[v] == old@[u] + 1;
                        assert(self.alert_depth_is(u, old@[u], r));
                        assert(self.near_alert(u, old@[u] as nat));
                        assert(self.near_alert(v, next@[v] as nat));
                    }
                    if next@[v] != 0 && self.near_alert(v, (next@[v] - 1) as nat) {
                        self.lemma_depth_least(v, old@[v], r, (next@[v] - 1) as nat);
                    }
                }
            }
        }
        next
    }
}

} // verus!

//! The in-degrees of a built snapshot: every slot holds exactly one kept
//! edge, so the slots entering a node are as many as the kept edges that end
//! there.

use vstd::prelude::*;

use super::{kept, kept_dst, kept_src, lemma_kept, edge_known, view_of_edge, CsrSnapshot};
use crate::edge::Edge;
use crate::group::{cnt_eq, group, lemma_cnt_eq_positions, lemma_group, positions_of};
use vstd::relations::injective_on;
use vstd::set_lib::{lemma_int_range, lemma_map_size, lemma_subset_equality, set_int_range};

verus! {

impl CsrSnapshot {
    /// The row holding slot `e`, searched below row `hi`.
    proof fn lemma_row_of(&self, e: int, hi: int) -> (w: int)
        requires
            self.wf(),
            1 <= hi <= self.nc(),
            0 <= e < self.row(hi),
        ensures
            0 <= w < hi,
            self.row(w) <= e < self.row(w + 1),
        decreases hi,
    {
        reveal(CsrSnapshot::wf);
        if self.row(hi - 1) <= e {
            hi - 1
        } else {
            self.lemma_row_of(e, hi - 1)
        }
    }

    /// The slot that holds kept edge `j`: in the row of its source, at its
    /// rank among the kept edges of that source.
    closed spec fn slot_of(&self, edges: Seq<Edge>, j: int) -> int {
        let k = kept_src(self.ids(), edges);
        let w = k[j] as int;
        self.row(w) + choose|t: int| 0 <= t < group(k, w).len() && group(k, w)[t] == j
    }

    /// The in-degrees of a built snapshot: dense node `v` is the destination
    /// of as many slots as there are kept edges whose destination is `v`.
    /// With `law_build_degree` (node `i` is dense node `i`, and `degree`
    /// counts in-edges over `dst_seq`), the in-degree of node `i` is the
    /// number of kept edges whose destination is node `i`.
    pub proof fn law_build_in_degree(&self, edges: Seq<Edge>)
        requires
            self.wf(),
            self.slots_match(edges),
            self.rows_count(edges),
            self.ec() == kept(self.ids(), edges).len(),
        ensures
            forall|v: int| #[trigger] cnt_eq(self.dst_seq(), v) == cnt_eq(kept_dst(self.ids(), edges), v),
    {
        reveal(CsrSnapshot::wf);
        reveal(CsrSnapshot::slots_match);
        let dm = self.ids();
        let k = kept_src(dm, edges);
        let kd = kept_dst(dm, edges);
        let m = k.len() as int;
        let n = self.nc();
        lemma_kept(dm, edges);
        // Each kept edge's slot lies in the row of its source, and shows it.
        assert forall|j: int| 0 <= j < m implies {
            let w = #[trigger] k[j] as int;
            &&& 0 <= w < n
            &&& self.row(w) <= self.slot_of(edges, j) < self.row(w + 1)
            &&& group(k, w)[self.slot_of(edges, j) - self.row(w)] == j
            &&& self.dst_of(self.slot_of(edges, j)) == kd[j]
        } by {
            let w = k[j] as int;
            let x = kept(dm, edges)[j];
            assert(edge_known(dm, edges[x]));
            assert(self.canonical(dm[edges[x].src.0] as int));
            lemma_group(k, w);
            assert(exists|t: int| 0 <= t < group(k, w).len() && #[trigger] group(k, w)[t] == j);
            let t = choose|t: int| 0 <= t < group(k, w).len() && group(k, w)[t] == j;
            assert(self.slot_of(edges, j) == self.row(w) + t);
            assert(cnt_eq(k, w) == self.row(w + 1) - self.row(w));
            let e = self.row(w) + t;
            assert(self.edge_at(e) == view_of_edge(edges[kept(dm, edges)[group(k, w)[t]]]));
            assert(self.canonical(self.dst_of(e)));
        }
        let f = |j: int| self.slot_of(edges, j);
        let dom = set_int_range(0, m);
        let slots = set_int_range(0, self.ec());
        lemma_int_range(0, m);
        lemma_int_range(0, self.ec());
        // The slot of a kept edge determines the edge.
        assert forall|j1: int, j2: int| dom.contains(j1) && dom.contains(j2) && #[trigger] f(j1) == #[trigger] f(j2) implies j1 == j2 by {
            let w1 = k[j1] as int;
            let w2 = k[j2] as int;
            if w1 < w2 {
                assert(self.row(w1 + 1) <= self.row(w2));
            } else if w2 < w1 {
                assert(self.row(w2 + 1) <= self.row(w1));
            }
        }
        assert(injective_on(f, dom)) by {
            assert forall|j1: int, j2: int| dom.contains(j1) && dom.contains(j2) && #[trigger] f(j1) == #[trigger] f(j2) implies j1 == j2 by {}
        }
        // Every slot holds some kept edge.
        assert(dom.map(f).subset_of(slots)) by {
            assert forall|e: int| dom.map(f).contains(e) implies slots.contains(e) by {
                let j = choose|j: int| dom.contains(j) && f(j) == e;
                assert(k[j] as int + 1 <= n);
                assert(self.row(k[j] as int + 1) <= self.row(n));
            }
        }
        lemma_map_size(dom, dom.map(f), f);
        lemma_subset_equality(dom.map(f), slots);
        assert forall|v: int| #[trigger] cnt_eq(self.dst_seq(), v) == cnt_eq(kd, v) by {
            let tv = positions_of(kd, v);
            let sv = positions_of(self.dst_seq(), v);
            lemma_cnt_eq_positions(kd, v);
            lemma_cnt_eq_positions(self.dst_seq(), v);
            assert(tv.map(f) =~= sv) by {
                assert forall|e: int| tv.map(f).contains(e) implies sv.contains(e) by {
                    let j = choose|j: int| tv.contains(j) && f(j) == e;
                    assert(dom.contains(j));
                    assert(dom.map(f).contains(e));
                }
                assert forall|e: int| sv.contains(e) implies tv.map(f).contains(e) by {
                    assert(slots.contains(e));
                    assert(dom.map(f).contains(e));
                    let j = choose|j: int| dom.contains(j) && f(j) == e;
                    assert(tv.contains(j));
                }
            }
            assert(injective_on(f, tv)) by {
                assert forall|j1: int, j2: int| tv.contains(j1) && tv.contains(j2) && #[trigger] f(j1) == #[trigger] f(j2) implies j1 == j2 by {
                    assert(dom.contains(j1) && dom.contains(j2));
                }
            }
            lemma_map_size(tv, sv, f);
        }
    }

}

} // verus!

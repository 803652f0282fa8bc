//! Degree centrality: nodes ranked by how many neighbours they have.

use crate::graph::Graph;
use vstd::prelude::*;

verus! {

/// Centrality rankings over a graph.
pub trait Centrality {
    /// When a ranking may be asked for.
    spec fn cen_wf(&self) -> bool;

    /// What the returned ranking guarantees.
    spec fn ranking_ok(&self, r: Seq<usize>) -> bool;

    /// The nodes ordered by descending degree; among equal degrees the
    /// higher index comes first.
    fn degree_centrality(&self) -> (r: Vec<usize>)
        requires
            self.cen_wf(),
        ensures
            self.ranking_ok(r@),
    ;
}

/// The degree order: `x` comes no later than `y` when its degree is larger,
/// or equal with `x >= y`.
pub open spec fn degree_before(g: Graph, x: usize, y: usize) -> bool {
    let dx = g.adj(x as int).len();
    let dy = g.adj(y as int).len();
    dx > dy || (dx == dy && x >= y)
}

impl Centrality for Graph {
    open spec fn cen_wf(&self) -> bool {
        self.wf()
    }

    open spec fn ranking_ok(&self, r: Seq<usize>) -> bool {
        &&& r.len() == self.node_count
        &&& r.no_duplicates()
        &&& (forall|t: int| 0 <= t < r.len() ==> (#[trigger] r[t]) < self.node_count)
        &&& (forall|a: int, b: int|
            0 <= a <= b < r.len() ==> degree_before(*self, #[trigger] r[a], #[trigger] r[b]))
    }

    /// Rank every node by degree, largest first, equal degrees by
    /// descending node index.
    fn degree_centrality(&self) -> (r: Vec<usize>)
    {
        let n = self.node_count;
        let mut rest: Vec<usize> = Vec::new();
        let mut i: usize = 0;
        while i < n
            invariant
                i <= n,
                rest@.len() == i,
                forall|t: int| 0 <= t < i ==> rest@[t] == t,
            decreases n - i,
        {
            rest.push(i);
            i += 1;
        }
        let mut out: Vec<usize> = Vec::new();
        while rest.len() > 0
            invariant
                self.wf(),
                n == self.node_count,
                out@.len() + rest@.len() == n,
                forall|t: int| 0 <= t < out@.len() ==> (#[trigger] out@[t]) < n,
                forall|t: int| 0 <= t < rest@.len() ==> (#[trigger] rest@[t]) < n,
                forall|a: int, b: int|
                    0 <= a < b < rest@.len() ==> (#[trigger] rest@[a]) < (#[trigger] rest@[b]),
                forall|a: int, b: int|
                    0 <= a < out@.len() && 0 <= b < rest@.len() ==> (#[trigger] out@[a]) != (
                    #[trigger] rest@[b]),
                out@.no_duplicates(),
                forall|a: int, b: int|
                    0 <= a <= b < out@.len() ==> degree_before(
                        *self,
                        #[trigger] out@[a],
                        #[trigger] out@[b],
                    ),
                forall|a: int, b: int|
                    0 <= a < out@.len() && 0 <= b < rest@.len() ==> degree_before(
                        *self,
                        #[trigger] out@[a],
                        #[trigger] rest@[b],
                    ),
            decreases rest@.len(),
        {
            // the last position of a largest remaining degree: equal degrees
            // leave in descending node order
            let mut best: usize = 0;
            let mut j: usize = 1;
            while j < rest.len()
                invariant
                    best < j <= rest@.len(),
                    rest@.len() > 0,
                    self.wf(),
                    n == self.node_count,
                    forall|t: int| 0 <= t < rest@.len() ==> (#[trigger] rest@[t]) < n,
                    forall|t: int|
                        0 <= t < best ==> self.adj((#[trigger] rest@[t]) as int).len()
                            <= self.adj(rest@[best as int] as int).len(),
                    forall|t: int|
                        best < t < j ==> self.adj((#[trigger] rest@[t]) as int).len() < self.adj(
                            rest@[best as int] as int,
                        ).len(),
                decreases rest@.len() - j,
            {
                let db = self.nei_list[rest[best]].len();
                let dj = self.nei_list[rest[j]].len();
                if dj >= db {
                    best = j;
                }
                j += 1;
            }
            let ghost pre_rest = rest@;
            let ghost pre_out = out@;
            let c = rest.remove(best);
            out.push(c);
            proof {
                assert forall|a: int, b: int|
                    0 <= a < out@.len() && 0 <= b < rest@.len() implies degree_before(
                    *self,
                    #[trigger] out@[a],
                    #[trigger] rest@[b],
                ) by {
                    let rb = if b < best {
                        pre_rest[b]
                    } else {
                        pre_rest[b + 1]
                    };
                    assert(rest@[b] == rb);
                    if a < pre_out.len() {
                        assert(out@[a] == pre_out[a]);
                    } else {
                        assert(out@[a] == c);
                        if b < best {
                            assert(self.adj(rb as int).len() <= self.adj(c as int).len());
                            assert(rb < c);
                        } else {
                            assert(self.adj(rb as int).len() < self.adj(c as int).len());
                        }
                    }
                }
                assert forall|a: int, b: int|
                    0 <= a <= b < out@.len() implies degree_before(
                    *self,
                    #[trigger] out@[a],
                    #[trigger] out@[b],
                ) by {
                    if b < pre_out.len() {
                        assert(out@[a] == pre_out[a] && out@[b] == pre_out[b]);
                    } else if a < pre_out.len() {
                        assert(out@[a] == pre_out[a] && out@[b] == c);
                        assert(degree_before(*self, pre_out[a], c));
                    } else {
                        assert(out@[a] == c && out@[b] == c);
                    }
                }
            }
        }
        out
    }
}

} // verus!
